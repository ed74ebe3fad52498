//! Events, edges and errors.

use vstd::prelude::*;
use crate::text::str_eq;

verus! {

/// Dimension of feature vectors unless a graph is created with another one.
pub const DEFAULT_DIMENSION: usize = 128;

/// The kind of a cognitive event.
#[derive(Clone, Copy, Debug, PartialEq, Eq, Structural, Hash)]
pub enum EventType {
    Fact,
    Decision,
    Inference,
    Correction,
    Skill,
    Episode,
}

/// The kind of an edge.
#[derive(Clone, Copy, Debug, PartialEq, Eq, Structural, Hash)]
pub enum EdgeType {
    CausedBy,
    DerivedFrom,
    Supports,
    Contradicts,
    Supersedes,
    RelatedTo,
    PartOf,
    TemporalNext,
}

impl EventType {
    /// The one-byte code of the kind in the file format.
    pub open spec fn code(self) -> u8 {
        match self {
            EventType::Fact => 0,
            EventType::Decision => 1,
            EventType::Inference => 2,
            EventType::Correction => 3,
            EventType::Skill => 4,
            EventType::Episode => 5,
        }
    }

    /// The kind that a code stands for, if any.
    pub open spec fn of_code(code: u8) -> Option<EventType> {
        match code {
            0 => Some(EventType::Fact),
            1 => Some(EventType::Decision),
            2 => Some(EventType::Inference),
            3 => Some(EventType::Correction),
            4 => Some(EventType::Skill),
            5 => Some(EventType::Episode),
            _ => None,
        }
    }

    /// The external name of the kind.
    pub open spec fn spec_name(self) -> Seq<char> {
        match self {
            EventType::Fact => "fact"@,
            EventType::Decision => "decision"@,
            EventType::Inference => "inference"@,
            EventType::Correction => "correction"@,
            EventType::Skill => "skill"@,
            EventType::Episode => "episode"@,
        }
    }

    /// The kind that an external name stands for, if any.
    pub open spec fn of_name(name: Seq<char>) -> Option<EventType> {
        if name == "fact"@ {
            Some(EventType::Fact)
        } else if name == "decision"@ {
            Some(EventType::Decision)
        } else if name == "inference"@ {
            Some(EventType::Inference)
        } else if name == "correction"@ {
            Some(EventType::Correction)
        } else if name == "skill"@ {
            Some(EventType::Skill)
        } else if name == "episode"@ {
            Some(EventType::Episode)
        } else {
            None
        }
    }

    pub fn to_u8(self) -> (r: u8)
        ensures
            r == self.code(),
            r < 6,
    {
        match self {
            EventType::Fact => 0,
            EventType::Decision => 1,
            EventType::Inference => 2,
            EventType::Correction => 3,
            EventType::Skill => 4,
            EventType::Episode => 5,
        }
    }

    pub fn from_u8(code: u8) -> (r: Option<EventType>)
        ensures
            r == EventType::of_code(code),
            r is Some <==> code < 6,
            r is Some ==> r->0.code() == code,
    {
        match code {
            0 => Some(EventType::Fact),
            1 => Some(EventType::Decision),
            2 => Some(EventType::Inference),
            3 => Some(EventType::Correction),
            4 => Some(EventType::Skill),
            5 => Some(EventType::Episode),
            _ => None,
        }
    }

    pub fn name(self) -> (r: &'static str)
        ensures
            r@ == self.spec_name(),
    {
        match self {
            EventType::Fact => "fact",
            EventType::Decision => "decision",
            EventType::Inference => "inference",
            EventType::Correction => "correction",
            EventType::Skill => "skill",
            EventType::Episode => "episode",
        }
    }

    pub fn from_name(name: &str) -> (r: Option<EventType>)
        ensures
            r == EventType::of_name(name@),
    {
        if str_eq(name, "fact") {
            Some(EventType::Fact)
        } else if str_eq(name, "decision") {
            Some(EventType::Decision)
        } else if str_eq(name, "inference") {
            Some(EventType::Inference)
        } else if str_eq(name, "correction") {
            Some(EventType::Correction)
        } else if str_eq(name, "skill") {
            Some(EventType::Skill)
        } else if str_eq(name, "episode") {
            Some(EventType::Episode)
        } else {
            None
        }
    }

    /// Every kind is found again from its name.
    pub proof fn lemma_name_round_trip(self)
        ensures
            EventType::of_name(self.spec_name()) == Some(self),
    {
        reveal_strlit("fact");
        reveal_strlit("decision");
        reveal_strlit("inference");
        reveal_strlit("correction");
        reveal_strlit("skill");
        reveal_strlit("episode");
        assert("fact"@.len() == 4 && "decision"@.len() == 8 && "inference"@.len() == 9);
        assert("correction"@.len() == 10 && "skill"@.len() == 5 && "episode"@.len() == 7);
    }

    /// Every kind is found again from its code.
    pub proof fn lemma_code_round_trip(self)
        ensures
            EventType::of_code(self.code()) == Some(self),
    {
    }
}

impl EdgeType {
    /// The one-byte code of the kind in the file format.
    pub open spec fn code(self) -> u8 {
        match self {
            EdgeType::CausedBy => 0,
            EdgeType::DerivedFrom => 1,
            EdgeType::Supports => 2,
            EdgeType::Contradicts => 3,
            EdgeType::Supersedes => 4,
            EdgeType::RelatedTo => 5,
            EdgeType::PartOf => 6,
            EdgeType::TemporalNext => 7,
        }
    }

    /// The kind that a code stands for, if any.
    pub open spec fn of_code(code: u8) -> Option<EdgeType> {
        match code {
            0 => Some(EdgeType::CausedBy),
            1 => Some(EdgeType::DerivedFrom),
            2 => Some(EdgeType::Supports),
            3 => Some(EdgeType::Contradicts),
            4 => Some(EdgeType::Supersedes),
            5 => Some(EdgeType::RelatedTo),
            6 => Some(EdgeType::PartOf),
            7 => Some(EdgeType::TemporalNext),
            _ => None,
        }
    }

    /// The external name of the kind.
    pub open spec fn spec_name(self) -> Seq<char> {
        match self {
            EdgeType::CausedBy => "caused_by"@,
            EdgeType::DerivedFrom => "derived_from"@,
            EdgeType::Supports => "supports"@,
            EdgeType::Contradicts => "contradicts"@,
            EdgeType::Supersedes => "supersedes"@,
            EdgeType::RelatedTo => "related_to"@,
            EdgeType::PartOf => "part_of"@,
            EdgeType::TemporalNext => "temporal_next"@,
        }
    }

    /// The kind that an external name stands for, if any.
    pub open spec fn of_name(name: Seq<char>) -> Option<EdgeType> {
        if name == "caused_by"@ {
            Some(EdgeType::CausedBy)
        } else if name == "derived_from"@ {
            Some(EdgeType::DerivedFrom)
        } else if name == "supports"@ {
            Some(EdgeType::Supports)
        } else if name == "contradicts"@ {
            Some(EdgeType::Contradicts)
        } else if name == "supersedes"@ {
            Some(EdgeType::Supersedes)
        } else if name == "related_to"@ {
            Some(EdgeType::RelatedTo)
        } else if name == "part_of"@ {
            Some(EdgeType::PartOf)
        } else if name == "temporal_next"@ {
            Some(EdgeType::TemporalNext)
        } else {
            None
        }
    }

    pub fn to_u8(self) -> (r: u8)
        ensures
            r == self.code(),
            r < 8,
    {
        match self {
            EdgeType::CausedBy => 0,
            EdgeType::DerivedFrom => 1,
            EdgeType::Supports => 2,
            EdgeType::Contradicts => 3,
            EdgeType::Supersedes => 4,
            EdgeType::RelatedTo => 5,
            EdgeType::PartOf => 6,
            EdgeType::TemporalNext => 7,
        }
    }

    pub fn from_u8(code: u8) -> (r: Option<EdgeType>)
        ensures
            r == EdgeType::of_code(code),
            r is Some <==> code < 8,
            r is Some ==> r->0.code() == code,
    {
        match code {
            0 => Some(EdgeType::CausedBy),
            1 => Some(EdgeType::DerivedFrom),
            2 => Some(EdgeType::Supports),
            3 => Some(EdgeType::Contradicts),
            4 => Some(EdgeType::Supersedes),
            5 => Some(EdgeType::RelatedTo),
            6 => Some(EdgeType::PartOf),
            7 => Some(EdgeType::TemporalNext),
            _ => None,
        }
    }

    pub fn name(self) -> (r: &'static str)
        ensures
            r@ == self.spec_name(),
    {
        match self {
            EdgeType::CausedBy => "caused_by",
            EdgeType::DerivedFrom => "derived_from",
            EdgeType::Supports => "supports",
            EdgeType::Contradicts => "contradicts",
            EdgeType::Supersedes => "supersedes",
            EdgeType::RelatedTo => "related_to",
            EdgeType::PartOf => "part_of",
            EdgeType::TemporalNext => "temporal_next",
        }
    }

    pub fn from_name(name: &str) -> (r: Option<EdgeType>)
        ensures
            r == EdgeType::of_name(name@),
    {
        if str_eq(name, "caused_by") {
            Some(EdgeType::CausedBy)
        } else if str_eq(name, "derived_from") {
            Some(EdgeType::DerivedFrom)
        } else if str_eq(name, "supports") {
            Some(EdgeType::Supports)
        } else if str_eq(name, "contradicts") {
            Some(EdgeType::Contradicts)
        } else if str_eq(name, "supersedes") {
            Some(EdgeType::Supersedes)
        } else if str_eq(name, "related_to") {
            Some(EdgeType::RelatedTo)
        } else if str_eq(name, "part_of") {
            Some(EdgeType::PartOf)
        } else if str_eq(name, "temporal_next") {
            Some(EdgeType::TemporalNext)
        } else {
            None
        }
    }

    /// Every kind is found again from its code.
    pub proof fn lemma_code_round_trip(self)
        ensures
            EdgeType::of_code(self.code()) == Some(self),
    {
    }

    /// Whether a dependent rests on its target through this kind of edge.
    pub open spec fn is_dependency(self) -> bool {
        self == EdgeType::CausedBy || self == EdgeType::Supports
    }
}

/// Whether `t` occurs in `allowed`, an empty list allowing every kind.
pub open spec fn edge_type_allowed(allowed: Seq<EdgeType>, t: EdgeType) -> bool {
    allowed.len() == 0 || allowed.contains(t)
}

/// Whether `t` occurs in `allowed`, an empty list allowing every kind.
pub open spec fn event_type_allowed(allowed: Seq<EventType>, t: EventType) -> bool {
    allowed.len() == 0 || allowed.contains(t)
}

/// Decides `edge_type_allowed`.
pub fn edge_type_passes(allowed: &Vec<EdgeType>, t: EdgeType) -> (r: bool)
    ensures
        r == edge_type_allowed(allowed@, t),
{
    if allowed.len() == 0 {
        return true;
    }
    let mut i: usize = 0;
    while i < allowed.len()
        invariant
            i <= allowed.len(),
            forall|j: int| 0 <= j < i ==> allowed@[j] != t,
        decreases allowed.len() - i,
    {
        if allowed[i] == t {
            return true;
        }
        i += 1;
    }
    false
}

/// Decides `event_type_allowed`.
pub fn event_type_passes(allowed: &Vec<EventType>, t: EventType) -> (r: bool)
    ensures
        r == event_type_allowed(allowed@, t),
{
    if allowed.len() == 0 {
        return true;
    }
    let mut i: usize = 0;
    while i < allowed.len()
        invariant
            i <= allowed.len(),
            forall|j: int| 0 <= j < i ==> allowed@[j] != t,
        decreases allowed.len() - i,
    {
        if allowed[i] == t {
            return true;
        }
        i += 1;
    }
    false
}

/// What can be wrong with the bytes of a file.
#[derive(Clone, Copy, Debug, PartialEq, Eq, Structural)]
pub enum FormatError {
    /// The file does not start with the magic string.
    UnexpectedMagic,
    /// The file is of a version that this library does not read.
    UnsupportedVersion,
    /// The file ends before a header, a section or a record does.
    TruncatedSection,
    /// What the file holds does not fit together.
    ChecksumMismatch,
}

/// The failures that graph operations report.
#[derive(Clone, Copy, Debug, PartialEq, Eq, Structural)]
pub enum AmemError {
    /// No live node has this id.
    NodeNotFound(u64),
    /// No edge joins these two nodes.
    EdgeNotFound(u64, u64),
    /// An edge of the same type already joins these two nodes.
    DuplicateEdge(u64, u64),
    /// A feature vector has another length than the graph's dimension.
    DimensionMismatch { expected: usize, got: usize },
    /// A graph was asked for with dimension zero.
    InvalidDimension,
    /// A parameter is outside what the operation accepts.
    InvalidParams,
    /// The bytes of a file cannot be read as a graph.
    Format(FormatError),
}

/// A directed, typed, weighted arc between two nodes.
#[derive(Clone, Copy, Debug, PartialEq, Eq, Structural)]
pub struct Edge {
    pub source_id: u64,
    pub target_id: u64,
    pub edge_type: EdgeType,
    /// Weight as an IEEE-754 single-precision bit pattern.
    pub weight: u32,
    /// Microseconds since the epoch.
    pub created_at: u64,
}

impl Edge {
    /// An edge stamped with time zero.
    pub fn new(source_id: u64, target_id: u64, edge_type: EdgeType, weight: u32) -> (r: Edge)
        ensures
            r == (Edge { source_id, target_id, edge_type, weight, created_at: 0 }),
    {
        Edge { source_id, target_id, edge_type, weight, created_at: 0 }
    }

    /// Whether the two edges join the same nodes in the same direction with
    /// the same type.
    pub open spec fn same_arc(self, other: Edge) -> bool {
        self.source_id == other.source_id && self.target_id == other.target_id
            && self.edge_type == other.edge_type
    }
}

/// A node of the graph.
#[derive(Debug)]
pub struct CognitiveEvent {
    pub id: u64,
    pub event_type: EventType,
    pub content: String,
    /// Score as a bit pattern.
    pub confidence: u32,
    pub session_id: u32,
    /// Microseconds since the epoch.
    pub created_at: u64,
    pub access_count: u32,
    /// Score as a bit pattern.
    pub decay_score: u32,
    /// Components as bit patterns; all zero means that there is no vector.
    pub feature_vec: Vec<u32>,
}

/// The mathematical value of a node.
pub struct EventView {
    pub id: u64,
    pub event_type: EventType,
    pub content: Seq<char>,
    pub confidence: u32,
    pub session_id: u32,
    pub created_at: u64,
    pub access_count: u32,
    pub decay_score: u32,
    pub feature_vec: Seq<u32>,
}

impl View for CognitiveEvent {
    type V = EventView;

    open spec fn view(&self) -> EventView {
        EventView {
            id: self.id,
            event_type: self.event_type,
            content: self.content@,
            confidence: self.confidence,
            session_id: self.session_id,
            created_at: self.created_at,
            access_count: self.access_count,
            decay_score: self.decay_score,
            feature_vec: self.feature_vec@,
        }
    }
}

impl Clone for CognitiveEvent {
    fn clone(&self) -> (r: CognitiveEvent)
        ensures
            r@ == self@,
    {
        CognitiveEvent {
            id: self.id,
            event_type: self.event_type,
            content: self.content.clone(),
            confidence: self.confidence,
            session_id: self.session_id,
            created_at: self.created_at,
            access_count: self.access_count,
            decay_score: self.decay_score,
            feature_vec: self.feature_vec.clone(),
        }
    }
}

/// Builds an event step by step; what is not set keeps its default.
pub struct CognitiveEventBuilder {
    event: CognitiveEvent,
}

impl CognitiveEventBuilder {
    /// The event that `build` would return now.
    pub closed spec fn pending(&self) -> EventView {
        self.event@
    }

    /// Starts an event of the given kind and content: id 0, confidence and
    /// decay `1.0`, session 0, time 0, never accessed, and the zero vector
    /// of the default dimension.
    pub fn new(event_type: EventType, content: &str) -> (r: CognitiveEventBuilder)
        ensures
            r.pending() == (EventView {
                id: 0,
                event_type,
                content: content@,
                confidence: crate::unit::ONE,
                session_id: 0,
                created_at: 0,
                access_count: 0,
                decay_score: crate::unit::ONE,
                feature_vec: Seq::new(DEFAULT_DIMENSION as nat, |i: int| 0u32),
            }),
    {
        let zeros = crate::unit::zero_vec(DEFAULT_DIMENSION);
        assert(zeros@ =~= Seq::new(DEFAULT_DIMENSION as nat, |i: int| 0u32));
        CognitiveEventBuilder {
            event: CognitiveEvent {
                id: 0,
                event_type,
                content: content.to_owned(),
                confidence: crate::unit::ONE,
                session_id: 0,
                created_at: 0,
                access_count: 0,
                decay_score: crate::unit::ONE,
                feature_vec: zeros,
            },
        }
    }

    pub fn session_id(self, session_id: u32) -> (r: CognitiveEventBuilder)
        ensures
            r.pending() == (EventView { session_id, ..self.pending() }),
    {
        let mut b = self;
        b.event.session_id = session_id;
        b
    }

    /// Sets the confidence, clamped into the unit interval.
    pub fn confidence(self, confidence: u32) -> (r: CognitiveEventBuilder)
        ensures
            r.pending() == (EventView {
                confidence: crate::unit::clamped(confidence),
                ..self.pending()
            }),
    {
        let mut b = self;
        b.event.confidence = crate::unit::clamp_unit(confidence);
        b
    }

    pub fn created_at(self, created_at: u64) -> (r: CognitiveEventBuilder)
        ensures
            r.pending() == (EventView { created_at, ..self.pending() }),
    {
        let mut b = self;
        b.event.created_at = created_at;
        b
    }

    pub fn feature_vec(self, feature_vec: Vec<u32>) -> (r: CognitiveEventBuilder)
        ensures
            r.pending() == (EventView { feature_vec: feature_vec@, ..self.pending() }),
    {
        let mut b = self;
        b.event.feature_vec = feature_vec;
        b
    }

    pub fn build(self) -> (r: CognitiveEvent)
        ensures
            r@ == self.pending(),
    {
        self.event
    }
}

} // verus!
