use agentic_memory::tools::{
    accepts_confidence, default_top_k, definitions, event_types_named, previous_session, route,
    session_to_start, suffix_ops, with_memory_prefix, InventionTools, OperationSchema, Route, ToolDefinition,
};
use agentic_memory::types::EventType;

fn no_inventions() -> InventionTools {
    InventionTools {
        infinite: Vec::new(),
        prophetic: Vec::new(),
        collective: Vec::new(),
        resurrection: Vec::new(),
        metamemory: Vec::new(),
        transcendent: Vec::new(),
    }
}

#[test]
fn test_compact_tool_list_has_expected_surface() {
    let tools = definitions(no_inventions());
    let names: Vec<&str> = tools.iter().map(|t| t.name.as_str()).collect();
    assert_eq!(tools.len(), 10);
    assert!(names.contains(&"memory_core"));
    assert!(names.contains(&"memory_grounding"));
    assert!(names.contains(&"memory_workspace"));
    assert!(names.contains(&"memory_session"));
    assert!(names.contains(&"memory_infinite"));
    assert!(names.contains(&"memory_prophetic"));
    assert!(names.contains(&"memory_collective"));
    assert!(names.contains(&"memory_resurrection"));
    assert!(names.contains(&"memory_metamemory"));
    assert!(names.contains(&"memory_transcendent"));
}

fn tool(name: &str) -> ToolDefinition {
    ToolDefinition {
        name: name.to_string(),
        description: None,
        input_schema: OperationSchema { operations: Vec::new(), description: String::new() },
    }
}

fn target(r: Route) -> String {
    match r {
        Route::Tool(t) => format!("tool:{}", t),
        Route::Invention(t) => format!("invention:{}", t),
        Route::UnknownOperation => "unknown".to_string(),
        Route::NotCompact => "not compact".to_string(),
    }
}

#[test]
fn the_prefix_is_added_once() {
    assert_eq!(with_memory_prefix("add"), "memory_add");
    assert_eq!(with_memory_prefix("memory_add"), "memory_add");
    assert_eq!(with_memory_prefix(""), "memory_");
    assert_eq!(with_memory_prefix("memory"), "memory_memory");
    assert_eq!(with_memory_prefix("Memory_x"), "memory_Memory_x");
    assert_eq!(with_memory_prefix("memory_"), "memory_");
}

#[test]
fn operations_are_names_without_the_prefix() {
    let defs = vec![tool("memory_dream"), tool("session_start"), tool("memory_"), tool("memory_déjà_vu"), tool("memo")];
    assert_eq!(suffix_ops(defs), vec!["dream", "", "déjà_vu"]);
    assert_eq!(suffix_ops(vec![]), Vec::<String>::new());
}

#[test]
fn similarity_asks_for_ten_by_default() {
    assert_eq!(default_top_k(), 10);
}

#[test]
fn facades_list_their_operations() {
    let inventions = InventionTools {
        infinite: vec![tool("memory_immortal"), tool("other")],
        prophetic: vec![tool("memory_predict"), tool("memory_forecast")],
        ..no_inventions()
    };
    let tools = definitions(inventions);
    let names: Vec<&str> = tools.iter().map(|t| t.name.as_str()).collect();
    assert_eq!(
        names,
        vec![
            "memory_core",
            "memory_grounding",
            "memory_workspace",
            "memory_session",
            "memory_infinite",
            "memory_prophetic",
            "memory_collective",
            "memory_resurrection",
            "memory_metamemory",
            "memory_transcendent",
        ]
    );
    assert_eq!(
        tools[0].input_schema.operations,
        vec![
            "conversation_log",
            "add",
            "query",
            "quality",
            "traverse",
            "correct",
            "resolve",
            "context",
            "similar",
            "causal",
            "temporal",
            "stats",
        ]
    );
    assert_eq!(tools[1].input_schema.operations, vec!["ground", "evidence", "suggest"]);
    assert_eq!(tools[2].input_schema.operations, vec!["create", "add", "list", "query", "compare", "xref"]);
    assert_eq!(tools[3].input_schema.operations, vec!["start", "end", "resume"]);
    assert_eq!(tools[4].input_schema.operations, vec!["immortal"]);
    assert_eq!(tools[5].input_schema.operations, vec!["predict", "forecast"]);
    assert!(tools[6].input_schema.operations.is_empty());
    for t in &tools {
        assert!(t.description.is_some());
    }
}

#[test]
fn calls_are_routed_by_tool_and_operation() {
    assert_eq!(target(route("memory_core", "add")), "tool:memory_add");
    assert_eq!(target(route("memory_core", "conversation_log")), "tool:conversation_log");
    assert_eq!(target(route("memory_core", "stats")), "tool:memory_stats");
    assert_eq!(target(route("memory_core", "ground")), "unknown");
    assert_eq!(target(route("memory_grounding", "ground")), "tool:memory_ground");
    assert_eq!(target(route("memory_workspace", "add")), "tool:memory_workspace_add");
    assert_eq!(target(route("memory_workspace", "xref")), "tool:memory_workspace_xref");
    assert_eq!(target(route("memory_session", "start")), "tool:session_start");
    assert_eq!(target(route("memory_session", "end")), "tool:session_end");
    assert_eq!(target(route("memory_session", "resume")), "tool:memory_session_resume");
    assert_eq!(target(route("memory_session", "")), "unknown");
    assert_eq!(target(route("memory_infinite", "immortal")), "invention:memory_immortal");
    assert_eq!(target(route("memory_transcendent", "memory_legacy")), "invention:memory_legacy");
    assert_eq!(target(route("memory_add", "add")), "not compact");
    assert_eq!(target(route("", "add")), "not compact");
}

#[test]
fn a_confidence_is_a_number_from_zero_to_one() {
    for x in [0.0f32, -0.0, 0.5, 0.9, 1.0, f32::MIN_POSITIVE] {
        assert!(accepts_confidence(x.to_bits()), "{}", x);
    }
    for x in [1.0001f32, -0.0001, 2.0, -1.0, f32::INFINITY, f32::NEG_INFINITY, f32::NAN] {
        assert!(!accepts_confidence(x.to_bits()), "{}", x);
    }
}

#[test]
fn unknown_names_of_kinds_are_passed_over() {
    let names: Vec<String> =
        ["skill", "Fact", "fact", "", "episode", "fact", "facts"].iter().map(|s| s.to_string()).collect();
    assert_eq!(
        event_types_named(&names),
        vec![EventType::Skill, EventType::Fact, EventType::Episode, EventType::Fact]
    );
    assert_eq!(event_types_named(&vec![]), vec![]);
}

#[test]
fn the_previous_session_is_the_largest_below() {
    assert_eq!(previous_session(&vec![1, 5, 3, 9], 6), Some(5));
    assert_eq!(previous_session(&vec![1, 5, 3, 9], 5), Some(3));
    assert_eq!(previous_session(&vec![1, 5, 3, 9], 1), None);
    assert_eq!(previous_session(&vec![1, 5, 3, 9], 100), Some(9));
    assert_eq!(previous_session(&vec![], 4), None);
    assert_eq!(previous_session(&vec![0], 0), None);
}

#[test]
fn a_session_starts_after_the_latest() {
    assert_eq!(session_to_start(&vec![1, 5, 3], 2, None), Some(6));
    assert_eq!(session_to_start(&vec![1, 5, 3], 9, None), Some(10));
    assert_eq!(session_to_start(&vec![], 0, None), Some(1));
    assert_eq!(session_to_start(&vec![1, 5, 3], 2, Some(4)), Some(4));
    assert_eq!(session_to_start(&vec![u32::MAX], 2, None), None);
    assert_eq!(session_to_start(&vec![u32::MAX], 2, Some(0)), Some(0));
}
