use reqtrace::cli::{Cli, Commands};
use reqtrace::config::{Config, Paths};
use reqtrace::graph::Graph;
use reqtrace::project::{choose_project_name, project_name_from};
use reqtrace::server::AppState;

#[test]
fn test_web_ui_visualization() {
    let config = Config {
        paths: Paths { scan: vec![], ignore: None, db: "db.json".to_string() },
        types: vec![],
    };
    let graph = Graph::new();
    let state = AppState { graph: std::sync::RwLock::new(graph), config };
    let graph_read = state.graph.read().unwrap();
    assert!(graph_read.is_empty());
}

#[test]
fn commands_carry_their_arguments() {
    let cli = Cli { command: Commands::GenId { prefix: "REQ-".to_string() } };
    assert_eq!(cli.command, Commands::GenId { prefix: "REQ-".to_string() });
    assert_ne!(Commands::Validate, Commands::Update);
}

#[test]
fn project_name_prefers_cargo_then_pyproject_then_directory() {
    let cargo = "[package]\nname = \"reqtrace\"\nversion = \"0.1.0\"\n";
    let pyproject = "[project]\nname = \"pyapp\"\n";
    assert_eq!(project_name_from(Some(cargo), Some(pyproject), Some("dir".to_string())), "reqtrace");
    assert_eq!(project_name_from(None, Some(pyproject), Some("dir".to_string())), "pyapp");
    assert_eq!(project_name_from(Some("not = [valid"), Some(pyproject), None), "pyapp");
    assert_eq!(project_name_from(Some("[workspace]\nmembers = []\n"), None, Some("dir".to_string())), "dir");
    assert_eq!(project_name_from(None, None, None), "unknown");
}

#[test]
fn project_name_choice() {
    assert_eq!(choose_project_name(Some("a".into()), Some("b".into()), Some("c".into())), "a");
    assert_eq!(choose_project_name(None, None, Some("c".into())), "c");
    assert_eq!(choose_project_name(None, None, None), "unknown");
}

#[test]
fn page_gets_the_graph_data() {
    let template = "<script>window.__GRAPH_DATA__ = null;</script>";
    let page = reqtrace::export::embed_graph_data(template, "{\"items\":{}}");
    assert_eq!(page, "<script>window.__GRAPH_DATA__ = {\"items\":{}};</script>");
    assert!(page.contains("window.__GRAPH_DATA__ = {\"items\":{}};"));
}

#[test]
fn page_without_placeholder_is_unchanged_and_all_placeholders_are_filled() {
    assert_eq!(reqtrace::export::embed_graph_data("<html></html>", "{}"), "<html></html>");
    let two = "window.__GRAPH_DATA__ = null;window.__GRAPH_DATA__ = null;";
    assert_eq!(
        reqtrace::export::embed_graph_data(two, "1"),
        "window.__GRAPH_DATA__ = 1;window.__GRAPH_DATA__ = 1;"
    );
}
