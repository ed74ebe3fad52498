//! The compact tool surface: a few facade tools, each of which takes the
//! name of an operation and routes it to the tool that does the work.

use vstd::prelude::*;
use crate::text::{chars_of, str_eq, string_from_chars};
use crate::types::EventType;
use crate::unit::{ONE, SIGN};

verus! {

/// What a facade tool accepts: the name of one of its operations, and the
/// arguments of that operation.
pub struct OperationSchema {
    /// The operations that the tool offers.
    pub operations: Vec<String>,
    /// What the operation parameter is for.
    pub description: String,
}

/// The definition of a tool.
pub struct ToolDefinition {
    pub name: String,
    pub description: Option<String>,
    pub input_schema: OperationSchema,
}

/// The definitions of the tools of the six toolkits that the invention
/// facades front.
pub struct InventionTools {
    pub infinite: Vec<ToolDefinition>,
    pub prophetic: Vec<ToolDefinition>,
    pub collective: Vec<ToolDefinition>,
    pub resurrection: Vec<ToolDefinition>,
    pub metamemory: Vec<ToolDefinition>,
    pub transcendent: Vec<ToolDefinition>,
}

/// The prefix that the names of fine-grained tools carry.
pub open spec fn prefix() -> Seq<char> {
    "memory_"@
}

/// Whether a name starts with the prefix.
pub open spec fn has_prefix(name: Seq<char>) -> bool {
    name.len() >= prefix().len() && name.subrange(0, prefix().len() as int) == prefix()
}

/// A name without the prefix.
pub open spec fn without_prefix(name: Seq<char>) -> Seq<char> {
    name.subrange(prefix().len() as int, name.len() as int)
}

/// A name with the prefix, unless it has it already.
pub open spec fn prefixed(op: Seq<char>) -> Seq<char> {
    if has_prefix(op) {
        op
    } else {
        prefix() + op
    }
}

/// The names of the first `n` tools that start with the prefix, without it,
/// in order.
pub open spec fn suffixes(defs: Seq<ToolDefinition>, n: int) -> Seq<Seq<char>>
    decreases n,
{
    if n <= 0 {
        Seq::empty()
    } else if has_prefix(defs[n - 1].name@) {
        suffixes(defs, n - 1).push(without_prefix(defs[n - 1].name@))
    } else {
        suffixes(defs, n - 1)
    }
}

/// The texts of a sequence of strings.
pub open spec fn names(v: Seq<String>) -> Seq<Seq<char>> {
    Seq::new(v.len(), |i: int| v[i]@)
}

/// Decides `has_prefix` on the characters of a name.
fn starts_with_prefix(chars: &Vec<char>) -> (r: bool)
    ensures
        r == has_prefix(chars@),
        prefix().len() == 7,
{
    proof {
        reveal_strlit("memory_");
    }
    let p = chars_of("memory_");
    if chars.len() < p.len() {
        return false;
    }
    let mut i: usize = 0;
    while i < p.len()
        invariant
            i <= p@.len(),
            p@ == prefix(),
            p@.len() == 7,
            p@.len() <= chars@.len(),
            forall|j: int| 0 <= j < i ==> chars@[j] == p@[j],
        decreases p@.len() - i,
    {
        if chars[i] != p[i] {
            assert(chars@.subrange(0, p@.len() as int)[i as int] != p@[i as int]);
            return false;
        }
        i += 1;
    }
    assert(chars@.subrange(0, p@.len() as int) =~= p@);
    true
}

/// A name with the prefix, unless it has it already.
pub fn with_memory_prefix(op: &str) -> (r: String)
    ensures
        r@ == prefixed(op@),
{
    let chars = chars_of(op);
    if starts_with_prefix(&chars) {
        op.to_owned()
    } else {
        let mut all = chars_of("memory_");
        let mut rest = chars;
        all.append(&mut rest);
        string_from_chars(&all, 0, all.len())
    }
}

/// The operations of a toolkit: the names of its tools that start with the
/// prefix, without it.
pub fn suffix_ops(defs: Vec<ToolDefinition>) -> (r: Vec<String>)
    ensures
        names(r@) == suffixes(defs@, defs@.len() as int),
{
    let mut out: Vec<String> = Vec::new();
    let mut i: usize = 0;
    assert(names(out@) =~= Seq::<Seq<char>>::empty());
    while i < defs.len()
        invariant
            i <= defs@.len(),
            names(out@) == suffixes(defs@, i as int),
        decreases defs@.len() - i,
    {
        let chars = chars_of(defs[i].name.as_str());
        if starts_with_prefix(&chars) {
            let rest = string_from_chars(&chars, 7, chars.len());
            let ghost before = out@;
            out.push(rest);
            assert(names(out@) =~= names(before).push(rest@));
        }
        i += 1;
    }
    out
}

/// The number of results of a similarity query that asks for no number.
pub fn default_top_k() -> (r: usize)
    ensures
        r == 10,
{
    10
}

/// A list of owned strings.
fn owned(list: &Vec<&'static str>) -> (r: Vec<String>)
    ensures
        r@.len() == list@.len(),
        forall|i: int| 0 <= i < r@.len() ==> (#[trigger] r@[i])@ == list@[i]@,
{
    let mut out: Vec<String> = Vec::new();
    let mut i: usize = 0;
    while i < list.len()
        invariant
            i <= list@.len(),
            out@.len() == i,
            forall|j: int| 0 <= j < i ==> (#[trigger] out@[j])@ == list@[j]@,
        decreases list@.len() - i,
    {
        out.push(list[i].to_owned());
        i += 1;
    }
    out
}

/// A facade tool.
fn facade(name: &str, description: &str, operations: Vec<String>, purpose: &str) -> (r:
    ToolDefinition)
    ensures
        r.name@ == name@,
        r.description is Some && r.description->0@ == description@,
        r.input_schema.operations@ == operations@,
        r.input_schema.description@ == purpose@,
{
    ToolDefinition {
        name: name.to_owned(),
        description: Some(description.to_owned()),
        input_schema: OperationSchema { operations, description: purpose.to_owned() },
    }
}

/// The names of the facade tools, in order.
pub open spec fn facade_names() -> Seq<Seq<char>> {
    seq![
        "memory_core"@, "memory_grounding"@, "memory_workspace"@, "memory_session"@,
        "memory_infinite"@, "memory_prophetic"@, "memory_collective"@, "memory_resurrection"@,
        "memory_metamemory"@, "memory_transcendent"@,
    ]
}

/// The operations of the core facade.
pub open spec fn core_operations() -> Seq<Seq<char>> {
    seq![
        "conversation_log"@, "add"@, "query"@, "quality"@, "traverse"@, "correct"@, "resolve"@,
        "context"@, "similar"@, "causal"@, "temporal"@, "stats"@,
    ]
}

/// The operations of the grounding facade.
pub open spec fn grounding_operations() -> Seq<Seq<char>> {
    seq!["ground"@, "evidence"@, "suggest"@]
}

/// The operations of the workspace facade.
pub open spec fn workspace_operations() -> Seq<Seq<char>> {
    seq!["create"@, "add"@, "list"@, "query"@, "compare"@, "xref"@]
}

/// The operations of the session facade.
pub open spec fn session_operations() -> Seq<Seq<char>> {
    seq!["start"@, "end"@, "resume"@]
}

/// The definitions of the ten facade tools. The four facades of the memory
/// itself offer fixed operations; each of the six invention facades offers
/// the tools of its toolkit.
pub fn definitions(inventions: InventionTools) -> (r: Vec<ToolDefinition>)
    ensures
        r@.len() == 10,
        forall|i: int| 0 <= i < 10 ==> (#[trigger] r@[i]).name@ == facade_names()[i],
        names(r@[0].input_schema.operations@) == core_operations(),
        names(r@[1].input_schema.operations@) == grounding_operations(),
        names(r@[2].input_schema.operations@) == workspace_operations(),
        names(r@[3].input_schema.operations@) == session_operations(),
        names(r@[4].input_schema.operations@) == suffixes(
            inventions.infinite@,
            inventions.infinite@.len() as int,
        ),
        names(r@[5].input_schema.operations@) == suffixes(
            inventions.prophetic@,
            inventions.prophetic@.len() as int,
        ),
        names(r@[6].input_schema.operations@) == suffixes(
            inventions.collective@,
            inventions.collective@.len() as int,
        ),
        names(r@[7].input_schema.operations@) == suffixes(
            inventions.resurrection@,
            inventions.resurrection@.len() as int,
        ),
        names(r@[8].input_schema.operations@) == suffixes(
            inventions.metamemory@,
            inventions.metamemory@.len() as int,
        ),
        names(r@[9].input_schema.operations@) == suffixes(
            inventions.transcendent@,
            inventions.transcendent@.len() as int,
        ),
{
    let core: Vec<&'static str> = vec![
        "conversation_log", "add", "query", "quality", "traverse", "correct", "resolve", "context",
        "similar", "causal", "temporal", "stats",
    ];
    let grounding: Vec<&'static str> = vec!["ground", "evidence", "suggest"];
    let workspace: Vec<&'static str> = vec!["create", "add", "list", "query", "compare", "xref"];
    let session: Vec<&'static str> = vec!["start", "end", "resume"];
    let core_ops = owned(&core);
    let grounding_ops = owned(&grounding);
    let workspace_ops = owned(&workspace);
    let session_ops = owned(&session);
    assert(names(core_ops@) =~= core_operations());
    assert(names(grounding_ops@) =~= grounding_operations());
    assert(names(workspace_ops@) =~= workspace_operations());
    assert(names(session_ops@) =~= session_operations());
    let InventionTools { infinite, prophetic, collective, resurrection, metamemory, transcendent } =
        inventions;
    let mut out: Vec<ToolDefinition> = Vec::new();
    out.push(
        facade(
            "memory_core",
            "Compact core facade: add/query/quality/traverse/correct/resolve/context/similar/causal/temporal/stats/conversation_log",
            core_ops,
            "Core memory operation",
        ),
    );
    out.push(
        facade(
            "memory_grounding",
            "Compact grounding facade: ground/evidence/suggest",
            grounding_ops,
            "Grounding operation",
        ),
    );
    out.push(
        facade(
            "memory_workspace",
            "Compact workspace facade: create/add/list/query/compare/xref",
            workspace_ops,
            "Workspace operation",
        ),
    );
    out.push(
        facade(
            "memory_session",
            "Compact session facade: start/end/resume",
            session_ops,
            "Session operation",
        ),
    );
    out.push(
        facade(
            "memory_infinite",
            "Compact facade for INFINITE invention tools",
            suffix_ops(infinite),
            "INFINITE operation",
        ),
    );
    out.push(
        facade(
            "memory_prophetic",
            "Compact facade for PROPHETIC invention tools",
            suffix_ops(prophetic),
            "PROPHETIC operation",
        ),
    );
    out.push(
        facade(
            "memory_collective",
            "Compact facade for COLLECTIVE invention tools",
            suffix_ops(collective),
            "COLLECTIVE operation",
        ),
    );
    out.push(
        facade(
            "memory_resurrection",
            "Compact facade for RESURRECTION invention tools",
            suffix_ops(resurrection),
            "RESURRECTION operation",
        ),
    );
    out.push(
        facade(
            "memory_metamemory",
            "Compact facade for METAMEMORY invention tools",
            suffix_ops(metamemory),
            "METAMEMORY operation",
        ),
    );
    out.push(
        facade(
            "memory_transcendent",
            "Compact facade for TRANSCENDENT invention tools",
            suffix_ops(transcendent),
            "TRANSCENDENT operation",
        ),
    );
    out
}

/// Where a call of a tool goes.
pub enum Route {
    /// The name is not the name of a facade tool.
    NotCompact,
    /// To the tool of this name.
    Tool(String),
    /// To the tool of this name in the toolkit that the facade fronts, if
    /// the toolkit has it.
    Invention(String),
    /// The facade has no such operation.
    UnknownOperation,
}

/// The tool behind an operation of one of the four fixed facades, if the
/// facade has the operation.
pub open spec fn fixed_target(name: Seq<char>, operation: Seq<char>) -> Option<Seq<char>> {
    if name == "memory_core"@ {
        if operation == "conversation_log"@ {
            Some("conversation_log"@)
        } else if operation == "add"@ {
            Some("memory_add"@)
        } else if operation == "query"@ {
            Some("memory_query"@)
        } else if operation == "quality"@ {
            Some("memory_quality"@)
        } else if operation == "traverse"@ {
            Some("memory_traverse"@)
        } else if operation == "correct"@ {
            Some("memory_correct"@)
        } else if operation == "resolve"@ {
            Some("memory_resolve"@)
        } else if operation == "context"@ {
            Some("memory_context"@)
        } else if operation == "similar"@ {
            Some("memory_similar"@)
        } else if operation == "causal"@ {
            Some("memory_causal"@)
        } else if operation == "temporal"@ {
            Some("memory_temporal"@)
        } else if operation == "stats"@ {
            Some("memory_stats"@)
        } else {
            None
        }
    } else if name == "memory_grounding"@ {
        if operation == "ground"@ {
            Some("memory_ground"@)
        } else if operation == "evidence"@ {
            Some("memory_evidence"@)
        } else if operation == "suggest"@ {
            Some("memory_suggest"@)
        } else {
            None
        }
    } else if name == "memory_workspace"@ {
        if operation == "create"@ {
            Some("memory_workspace_create"@)
        } else if operation == "add"@ {
            Some("memory_workspace_add"@)
        } else if operation == "list"@ {
            Some("memory_workspace_list"@)
        } else if operation == "query"@ {
            Some("memory_workspace_query"@)
        } else if operation == "compare"@ {
            Some("memory_workspace_compare"@)
        } else if operation == "xref"@ {
            Some("memory_workspace_xref"@)
        } else {
            None
        }
    } else {
        if operation == "start"@ {
            Some("session_start"@)
        } else if operation == "end"@ {
            Some("session_end"@)
        } else if operation == "resume"@ {
            Some("memory_session_resume"@)
        } else {
            None
        }
    }
}

/// Whether a name is that of one of the four fixed facades.
pub open spec fn is_fixed_facade(name: Seq<char>) -> bool {
    name == "memory_core"@ || name == "memory_grounding"@ || name == "memory_workspace"@ || name
        == "memory_session"@
}

/// Whether a name is that of one of the six invention facades.
pub open spec fn is_invention_facade(name: Seq<char>) -> bool {
    name == "memory_infinite"@ || name == "memory_prophetic"@ || name == "memory_collective"@
        || name == "memory_resurrection"@ || name == "memory_metamemory"@ || name
        == "memory_transcendent"@
}

/// Whether `r` is where a call of the tool `name` with `operation` goes.
pub open spec fn is_route(name: Seq<char>, operation: Seq<char>, r: Route) -> bool {
    if is_fixed_facade(name) {
        match fixed_target(name, operation) {
            Some(target) => r matches Route::Tool(t) && t@ == target,
            None => r is UnknownOperation,
        }
    } else if is_invention_facade(name) {
        r matches Route::Invention(t) && t@ == prefixed(operation)
    } else {
        r is NotCompact
    }
}

/// The tool behind an operation of a fixed facade.
fn fixed_route(name: &str, operation: &str) -> (r: Option<&'static str>)
    requires
        is_fixed_facade(name@),
    ensures
        match r {
            Some(t) => fixed_target(name@, operation@) == Some(t@),
            None => fixed_target(name@, operation@) is None,
        },
{
    if str_eq(name, "memory_core") {
        if str_eq(operation, "conversation_log") {
            Some("conversation_log")
        } else if str_eq(operation, "add") {
            Some("memory_add")
        } else if str_eq(operation, "query") {
            Some("memory_query")
        } else if str_eq(operation, "quality") {
            Some("memory_quality")
        } else if str_eq(operation, "traverse") {
            Some("memory_traverse")
        } else if str_eq(operation, "correct") {
            Some("memory_correct")
        } else if str_eq(operation, "resolve") {
            Some("memory_resolve")
        } else if str_eq(operation, "context") {
            Some("memory_context")
        } else if str_eq(operation, "similar") {
            Some("memory_similar")
        } else if str_eq(operation, "causal") {
            Some("memory_causal")
        } else if str_eq(operation, "temporal") {
            Some("memory_temporal")
        } else if str_eq(operation, "stats") {
            Some("memory_stats")
        } else {
            None
        }
    } else if str_eq(name, "memory_grounding") {
        if str_eq(operation, "ground") {
            Some("memory_ground")
        } else if str_eq(operation, "evidence") {
            Some("memory_evidence")
        } else if str_eq(operation, "suggest") {
            Some("memory_suggest")
        } else {
            None
        }
    } else if str_eq(name, "memory_workspace") {
        if str_eq(operation, "create") {
            Some("memory_workspace_create")
        } else if str_eq(operation, "add") {
            Some("memory_workspace_add")
        } else if str_eq(operation, "list") {
            Some("memory_workspace_list")
        } else if str_eq(operation, "query") {
            Some("memory_workspace_query")
        } else if str_eq(operation, "compare") {
            Some("memory_workspace_compare")
        } else if str_eq(operation, "xref") {
            Some("memory_workspace_xref")
        } else {
            None
        }
    } else {
        if str_eq(operation, "start") {
            Some("session_start")
        } else if str_eq(operation, "end") {
            Some("session_end")
        } else if str_eq(operation, "resume") {
            Some("memory_session_resume")
        } else {
            None
        }
    }
}

/// Decides where a call of the tool `name` with `operation` goes.
pub fn route(name: &str, operation: &str) -> (r: Route)
    ensures
        is_route(name@, operation@, r),
{
    if str_eq(name, "memory_core") || str_eq(name, "memory_grounding") || str_eq(
        name,
        "memory_workspace",
    ) || str_eq(name, "memory_session") {
        match fixed_route(name, operation) {
            Some(t) => Route::Tool(t.to_owned()),
            None => Route::UnknownOperation,
        }
    } else if str_eq(name, "memory_infinite") || str_eq(name, "memory_prophetic") || str_eq(
        name,
        "memory_collective",
    ) || str_eq(name, "memory_resurrection") || str_eq(name, "memory_metamemory") || str_eq(
        name,
        "memory_transcendent",
    ) {
        Route::Invention(with_memory_prefix(operation))
    } else {
        Route::NotCompact
    }
}

/// Whether a confidence is accepted for a new event: a number from zero to
/// one, as a bit pattern. Both zeros are accepted; what is no number is
/// not.
pub open spec fn confidence_accepted(bits: u32) -> bool {
    bits <= ONE || bits == SIGN
}

/// Decides whether a confidence is accepted for a new event.
pub fn accepts_confidence(bits: u32) -> (r: bool)
    ensures
        r == confidence_accepted(bits),
{
    bits <= ONE || bits == SIGN
}

/// The kinds of event that the first `n` names stand for, in order; a name
/// that stands for none is passed over.
pub open spec fn kinds_named(list: Seq<String>, n: int) -> Seq<EventType>
    decreases n,
{
    if n <= 0 {
        Seq::empty()
    } else {
        match EventType::of_name(list[n - 1]@) {
            Some(t) => kinds_named(list, n - 1).push(t),
            None => kinds_named(list, n - 1),
        }
    }
}

/// The kinds of event that the names stand for, in order; a name that
/// stands for none is passed over.
pub fn event_types_named(list: &Vec<String>) -> (r: Vec<EventType>)
    ensures
        r@ == kinds_named(list@, list@.len() as int),
{
    let mut out: Vec<EventType> = Vec::new();
    let mut i: usize = 0;
    while i < list.len()
        invariant
            i <= list@.len(),
            out@ == kinds_named(list@, i as int),
        decreases list@.len() - i,
    {
        match EventType::from_name(list[i].as_str()) {
            Some(t) => {
                out.push(t);
            },
            None => {},
        }
        i += 1;
    }
    out
}

/// Whether `r` is the session before `current` among the sessions: the
/// largest of those below it, if there is one.
pub open spec fn is_previous_session(sessions: Seq<u32>, current: u32, r: Option<u32>) -> bool {
    match r {
        Some(p) => sessions.contains(p) && p < current && forall|i: int|
            0 <= i < sessions.len() && sessions[i] < current ==> sessions[i] <= p,
        None => forall|i: int| 0 <= i < sessions.len() ==> sessions[i] >= current,
    }
}

/// The session before `current` among the sessions.
pub fn previous_session(sessions: &Vec<u32>, current: u32) -> (r: Option<u32>)
    ensures
        is_previous_session(sessions@, current, r),
{
    let mut best: Option<u32> = None;
    let mut i: usize = 0;
    while i < sessions.len()
        invariant
            i <= sessions@.len(),
            is_previous_session(sessions@.take(i as int), current, best),
        decreases sessions@.len() - i,
    {
        let s = sessions[i];
        let ghost before = sessions@.take(i as int);
        let ghost after = sessions@.take(i + 1);
        assert(after =~= before.push(s));
        let take = s < current && match best {
            Some(p) => s > p,
            None => true,
        };
        if take {
            best = Some(s);
            assert(after[i as int] == s);
        } else {
            proof {
                if let Some(p) = best {
                    let k = choose|k: int| 0 <= k < before.len() && before[k] == p;
                    assert(after[k] == p);
                }
            }
        }
        i += 1;
    }
    assert(sessions@.take(i as int) =~= sessions@);
    best
}

/// Whether `m` is the largest of `current` and the sessions.
pub open spec fn is_latest_session(sessions: Seq<u32>, current: u32, m: u32) -> bool {
    &&& m >= current
    &&& forall|i: int| 0 <= i < sessions.len() ==> sessions[i] <= m
    &&& m == current || sessions.contains(m)
}

/// The session to start: the one asked for if one is asked for, else the
/// one after the latest of the current session and the sessions that have
/// nodes; none if no number is left for it.
pub fn session_to_start(sessions: &Vec<u32>, current: u32, asked: Option<u32>) -> (r: Option<u32>)
    ensures
        asked is Some ==> r == asked,
        asked is None ==> match r {
            Some(s) => s >= 1 && is_latest_session(sessions@, current, (s - 1) as u32),
            None => is_latest_session(sessions@, current, u32::MAX),
        },
{
    match asked {
        Some(id) => Some(id),
        None => {
            let mut latest = current;
            let mut i: usize = 0;
            while i < sessions.len()
                invariant
                    i <= sessions@.len(),
                    is_latest_session(sessions@.take(i as int), current, latest),
                decreases sessions@.len() - i,
            {
                let ghost before = sessions@.take(i as int);
                let ghost after = sessions@.take(i + 1);
                assert(after =~= before.push(sessions@[i as int]));
                if sessions[i] > latest {
                    latest = sessions[i];
                    assert(after[i as int] == latest);
                } else {
                    proof {
                        if latest != current {
                            let k = choose|k: int| 0 <= k < before.len() && before[k] == latest;
                            assert(after[k] == latest);
                        }
                    }
                }
                i += 1;
            }
            assert(sessions@.take(i as int) =~= sessions@);
            if latest == u32::MAX {
                None
            } else {
                Some(latest + 1)
            }
        },
    }
}

} // verus!
