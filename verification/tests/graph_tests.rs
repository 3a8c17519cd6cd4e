use reqtrace::config::{Config, Paths, TypeMapping};
use reqtrace::graph::{Graph, TraceItem, ValidationIssue};
use reqtrace::scanner::{LineRange, RawItem};

fn raw(id: &str, path: &str, line: usize, title: &str, derived_from: Vec<&str>) -> RawItem {
    RawItem {
        id: id.to_string(),
        file_path: path.to_string(),
        line_range: LineRange { start: line, end: line },
        title: title.to_string(),
        derived_from: derived_from.into_iter().map(|s| s.to_string()).collect(),
    }
}

fn mapping(prefix: &str, item_type: &str, requirement_type: Option<&str>) -> TypeMapping {
    TypeMapping {
        prefix: prefix.to_string(),
        item_type: item_type.to_string(),
        requirement_type: requirement_type.map(|s| s.to_string()),
    }
}

fn config_with(types: Vec<TypeMapping>) -> Config {
    Config {
        paths: Paths { scan: vec![], ignore: None, db: "db.json".to_string() },
        types,
    }
}

fn trace_item(id: &str, item_type: &str, title: &str, path: &str, line: usize, derived_from: Vec<&str>) -> TraceItem {
    TraceItem {
        id: id.to_string(),
        item_type: item_type.to_string(),
        requirement_type: None,
        title: title.to_string(),
        file_path: path.to_string(),
        line_range: LineRange { start: line, end: line },
        derived_from: derived_from.into_iter().map(|s| s.to_string()).collect(),
    }
}

#[test]
fn test_validation_orphan_and_broken() {
    let raw_items = vec![
        raw("ARCH-1", "arch.md", 1, "Arch 1", vec!["REQ-1"]),
        raw("ARCH-2", "arch.md", 10, "Arch 2", vec![]),
    ];
    let config = config_with(vec![
        mapping("REQ", "Requirement", None),
        mapping("ARCH", "Architecture", None),
    ]);
    let (_, issues) = Graph::build(raw_items, &config);
    assert!(issues.contains(&ValidationIssue::BrokenLink("ARCH-1".into(), "REQ-1".into())));
    assert!(issues.contains(&ValidationIssue::Orphan("ARCH-2".into())));
}

#[test]
fn test_validation_untested_requirement() {
    let raw_items = vec![
        raw("REQ-1", "reqs.md", 1, "Requirement 1", vec![]),
        raw("REQ-2", "reqs.md", 10, "Requirement 2", vec![]),
        raw("UT-1", "test.rs", 1, "Unit Test 1", vec!["REQ-1"]),
    ];
    let config = config_with(vec![
        mapping("REQ", "Requirement", None),
        mapping("UT", "Test", None),
    ]);
    let (_, issues) = Graph::build(raw_items, &config);
    assert!(!issues.contains(&ValidationIssue::UntestedRequirement("REQ-1".into())));
    assert!(issues.contains(&ValidationIssue::UntestedRequirement("REQ-2".into())));
}

#[test]
fn test_requirement_graph_representation() {
    let raw_items = vec![
        raw("REQ-vapik", "docs/requirements.md", 1, "Req 1", vec![]),
        raw("ARC-vapik", "src/main.rs", 2, "Arc 1", vec!["REQ-vapik"]),
        raw("UT-zapaj", "src/main.rs", 3, "Test 1", vec!["ARC-vapik"]),
    ];
    let config = config_with(vec![
        mapping("REQ-", "Requirement", Some("Functional")),
        mapping("ARC-", "Architecture", None),
        mapping("UT-", "Test", None),
    ]);
    let (graph, issues) = Graph::build(raw_items, &config);
    assert!(issues.is_empty(), "Expected no issues, got: {:?}", issues);
    assert_eq!(graph.len(), 3);
    assert_eq!(graph.get("REQ-vapik").unwrap().item_type, "Requirement");
    assert_eq!(graph.get("ARC-vapik").unwrap().item_type, "Architecture");
    assert_eq!(graph.get("UT-zapaj").unwrap().item_type, "Test");
}

#[test]
fn test_cli_validation_output() {
    let raw_items = vec![
        raw("REQ-vapik", "docs/requirements.md", 1, "Req 1", vec![]),
        raw("REQ-vapik", "docs/requirements.md", 10, "Req 1 Duplicate", vec![]),
    ];
    let config = config_with(vec![mapping("REQ-", "Requirement", Some("Functional"))]);
    let (_, issues) = Graph::build(raw_items, &config);
    assert!(!issues.is_empty());
    assert!(issues.contains(&ValidationIssue::DuplicateId("REQ-vapik".into())));
}

#[test]
fn test_reference_comment_standardization() {
    let mut graph = Graph::new();
    graph.insert(trace_item(
        "REQ-zaruh",
        "Requirement",
        "input file name is specified for parser",
        "docs/requirements.md",
        1,
        vec![],
    ));

    let comment = "// @ARCH-parser@ FROM: REQ-zaruh";
    let formatted = if let Some(from_idx) = comment.find("FROM:") {
        let prefix = &comment[..from_idx + 5];
        let suffix = comment[from_idx + 5..].trim();
        if let Some(item) = graph.get(suffix) {
            format!("{} {}\n//   {} ({})", prefix.trim_end(), suffix, suffix, item.title)
        } else {
            comment.to_string()
        }
    } else {
        comment.to_string()
    };

    assert_eq!(
        formatted,
        "// @ARCH-parser@ FROM: REQ-zaruh\n//   REQ-zaruh (input file name is specified for parser)"
    );
}

#[test]
fn test_mcp_tool_context_retrieval() {
    let mut graph = Graph::new();
    graph.insert(trace_item("REQ-vapik", "Requirement", "Req 1", "docs/requirements.md", 1, vec![]));
    graph.insert(trace_item("ARC-vapik", "Architecture", "Arc 1", "src/main.rs", 2, vec!["REQ-vapik"]));

    let id_to_find = "REQ-vapik";
    let found = graph.get(id_to_find).unwrap();
    assert_eq!(found.title, "Req 1");

    let downstream: Vec<String> = graph
        .items()
        .iter()
        .filter(|it| it.derived_from.contains(&id_to_find.to_string()))
        .map(|it| it.id.clone())
        .collect();
    assert_eq!(downstream, vec!["ARC-vapik".to_string()]);
}

#[test]
fn graph_items_come_sorted_by_identifier() {
    let raw_items = vec![
        raw("REQ-b", "r.md", 1, "B", vec![]),
        raw("REQ-a", "r.md", 2, "A", vec![]),
        raw("REQ-c", "r.md", 3, "C", vec![]),
    ];
    let config = config_with(vec![mapping("REQ-", "Requirement", None)]);
    let (graph, _) = Graph::build(raw_items, &config);
    let ids: Vec<String> = graph.items().iter().map(|it| it.id.clone()).collect();
    assert_eq!(ids, vec!["REQ-a".to_string(), "REQ-b".to_string(), "REQ-c".to_string()]);
}

#[test]
fn duplicate_keeps_the_first_item() {
    let raw_items = vec![
        raw("REQ-1", "a.md", 1, "First", vec![]),
        raw("REQ-1", "b.md", 5, "Second", vec![]),
    ];
    let config = config_with(vec![mapping("REQ-", "Requirement", None)]);
    let (graph, issues) = Graph::build(raw_items, &config);
    assert_eq!(graph.len(), 1);
    assert_eq!(graph.get("REQ-1").unwrap().title, "First");
    assert_eq!(graph.get("REQ-1").unwrap().file_path, "a.md");
    assert_eq!(issues[0], ValidationIssue::DuplicateId("REQ-1".into()));
}

#[test]
fn unknown_prefix_gets_unknown_type_and_is_an_orphan() {
    let raw_items = vec![raw("XYZ-1", "x.md", 1, "X", vec![])];
    let config = config_with(vec![mapping("REQ-", "Requirement", Some("Functional"))]);
    let (graph, issues) = Graph::build(raw_items, &config);
    let item = graph.get("XYZ-1").unwrap();
    assert_eq!(item.item_type, "Unknown");
    assert_eq!(item.requirement_type, None);
    assert_eq!(issues, vec![ValidationIssue::Orphan("XYZ-1".into())]);
}

#[test]
fn first_matching_type_mapping_wins() {
    let raw_items = vec![raw("REQ-1", "r.md", 1, "R", vec![])];
    let config = config_with(vec![
        mapping("REQ", "Requirement", Some("Functional")),
        mapping("REQ-", "Other", None),
    ]);
    let (graph, _) = Graph::build(raw_items, &config);
    let item = graph.get("REQ-1").unwrap();
    assert_eq!(item.item_type, "Requirement");
    assert_eq!(item.requirement_type, Some("Functional".to_string()));
}

#[test]
fn requirement_tested_through_architecture_chain() {
    let raw_items = vec![
        raw("REQ-1", "r.md", 1, "R", vec![]),
        raw("ARC-1", "a.md", 1, "A", vec!["REQ-1"]),
        raw("UT-1", "t.rs", 1, "T", vec!["ARC-1"]),
    ];
    let config = config_with(vec![
        mapping("REQ-", "Requirement", None),
        mapping("ARC-", "Architecture", None),
        mapping("UT-", "Test", None),
    ]);
    let (_, issues) = Graph::build(raw_items, &config);
    assert!(issues.is_empty());
}

#[test]
fn derivation_cycle_without_test_terminates() {
    let raw_items = vec![
        raw("REQ-1", "r.md", 1, "R", vec!["ARC-1"]),
        raw("ARC-1", "a.md", 1, "A", vec!["REQ-1"]),
    ];
    let config = config_with(vec![
        mapping("REQ-", "Requirement", None),
        mapping("ARC-", "Architecture", None),
    ]);
    let (_, issues) = Graph::build(raw_items, &config);
    assert_eq!(
        issues,
        vec![
            ValidationIssue::UntestedRequirement("REQ-1".into()),
            ValidationIssue::CyclicDependency("ARC-1".into()),
            ValidationIssue::CyclicDependency("REQ-1".into()),
        ]
    );
}

#[test]
fn validate_reports_in_kind_order() {
    let mut graph = Graph::new();
    graph.insert(trace_item("ARC-1", "Architecture", "A", "a.md", 1, vec![]));
    graph.insert(trace_item("ARC-2", "Architecture", "B", "a.md", 2, vec!["REQ-9"]));
    graph.insert(trace_item("REQ-1", "Requirement", "R", "r.md", 1, vec![]));
    let issues = graph.validate();
    assert_eq!(
        issues,
        vec![
            ValidationIssue::BrokenLink("ARC-2".into(), "REQ-9".into()),
            ValidationIssue::Orphan("ARC-1".into()),
            ValidationIssue::Orphan("ARC-2".into()),
            ValidationIssue::UntestedRequirement("REQ-1".into()),
        ]
    );
}

#[test]
fn insert_replaces_an_item_with_the_same_identifier() {
    let mut graph = Graph::new();
    assert!(graph.is_empty());
    graph.insert(trace_item("REQ-1", "Requirement", "Old", "r.md", 1, vec![]));
    graph.insert(trace_item("REQ-1", "Requirement", "New", "r.md", 2, vec![]));
    assert_eq!(graph.len(), 1);
    assert!(graph.contains("REQ-1"));
    assert!(!graph.contains("REQ-2"));
    assert_eq!(graph.get("REQ-1").unwrap().title, "New");
}

#[test]
fn default_graph_is_empty() {
    let g = Graph::default();
    assert!(g.is_empty());
    assert_eq!(g.len(), 0);
    assert!(g.get("REQ-1").is_none());
}

#[test]
fn item_whose_only_parent_is_missing_is_an_orphan() {
    let mut graph = Graph::new();
    graph.insert(trace_item("ARCH-1", "Architecture", "Arch 1", "arch.md", 1, vec!["REQ-1"]));
    let issues = graph.validate();
    assert!(issues.contains(&ValidationIssue::BrokenLink("ARCH-1".into(), "REQ-1".into())));
    assert!(issues.contains(&ValidationIssue::Orphan("ARCH-1".into())));
}

#[test]
fn architecture_cycle_is_reported() {
    let mut graph = Graph::new();
    graph.insert(trace_item("ARC-a", "Architecture", "t", "a.md", 1, vec!["ARC-b"]));
    graph.insert(trace_item("ARC-b", "Architecture", "t", "a.md", 1, vec!["ARC-a"]));
    assert_eq!(
        graph.validate(),
        vec![
            ValidationIssue::Orphan("ARC-a".into()),
            ValidationIssue::Orphan("ARC-b".into()),
            ValidationIssue::CyclicDependency("ARC-a".into()),
            ValidationIssue::CyclicDependency("ARC-b".into()),
        ]
    );
}

#[test]
fn orphan_detection_is_transitive() {
    let mut graph = Graph::new();
    graph.insert(trace_item("ARC-1", "Architecture", "t", "a.md", 1, vec!["ARC-2"]));
    graph.insert(trace_item("ARC-2", "Architecture", "t", "a.md", 2, vec![]));
    graph.insert(trace_item("ARC-3", "Architecture", "t", "a.md", 3, vec!["ARC-4"]));
    graph.insert(trace_item("ARC-4", "Architecture", "t", "a.md", 4, vec!["REQ-1"]));
    graph.insert(trace_item("REQ-1", "Requirement", "t", "r.md", 1, vec![]));
    graph.insert(trace_item("UT-1", "Test", "t", "t.rs", 1, vec!["ARC-3"]));
    assert_eq!(
        graph.validate(),
        vec![ValidationIssue::Orphan("ARC-1".into()), ValidationIssue::Orphan("ARC-2".into())]
    );
}

#[test]
fn self_derivation_is_a_cycle() {
    let mut graph = Graph::new();
    graph.insert(trace_item("REQ-1", "Requirement", "t", "r.md", 1, vec!["REQ-1"]));
    graph.insert(trace_item("UT-1", "Test", "t", "t.rs", 1, vec!["REQ-1"]));
    assert_eq!(graph.validate(), vec![ValidationIssue::CyclicDependency("REQ-1".into())]);
}
