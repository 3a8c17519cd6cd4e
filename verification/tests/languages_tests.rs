use reqtrace::languages::python::PythonParser;
use reqtrace::languages::rust::{RustParser, RustVisitor};
use reqtrace::languages::{get_parser, LanguageParser, ParserKind, ParsedSymbol};
use syn::spanned::Spanned;

fn find<'a>(symbols: &'a [ParsedSymbol], name: &str) -> &'a ParsedSymbol {
    symbols.iter().find(|s| s.name == name).unwrap()
}

#[test]
fn test_python_parsing() {
    let content = r#"
class Parent:
    def method_1(self):
        pass

def top_level_func():
    pass
"#;
    let parser = PythonParser;
    let symbols = parser.parse(content).unwrap();

    assert_eq!(symbols.len(), 3);

    let m1 = find(&symbols, "Parent::method_1");
    assert_eq!(m1.start_line, 3);
    assert_eq!(m1.end_line, 4);

    let p = find(&symbols, "Parent");
    assert_eq!(p.start_line, 2);
    assert_eq!(p.end_line, 4);

    let t = find(&symbols, "top_level_func");
    assert_eq!(t.start_line, 6);
    assert_eq!(t.end_line, 7);
}

#[test]
fn python_blocks_close_in_order_and_nest_names() {
    let content = "class A:\n\tclass B:\n\t\tasync def f(x):\n\t\t\treturn x\n\n# trailing comment\nx = 1\n";
    let symbols = PythonParser.parse_symbols(content);
    let names: Vec<&str> = symbols.iter().map(|s| s.name.as_str()).collect();
    assert_eq!(names, vec!["A::B::f", "A::B", "A"]);
    for s in &symbols {
        assert_eq!(s.end_line, 4);
    }
    assert_eq!(find(&symbols, "A").start_line, 1);
    assert_eq!(find(&symbols, "A::B").start_line, 2);
    assert_eq!(find(&symbols, "A::B::f").start_line, 3);
}

#[test]
fn python_empty_text_has_no_symbols() {
    assert!(PythonParser.parse_symbols("").is_empty());
    assert!(PythonParser.parse_symbols("# only a comment\n\n").is_empty());
}

#[test]
fn parser_chosen_by_extension() {
    assert_eq!(get_parser("rs"), Some(ParserKind::Rust(RustParser)));
    assert_eq!(get_parser("py"), Some(ParserKind::Python(PythonParser)));
    assert_eq!(get_parser("md"), None);
    assert_eq!(get_parser(""), None);
    assert_eq!(get_parser("RS"), None);
}

#[test]
fn rust_visitor_names_items_by_scope() {
    let mut v = RustVisitor::new();
    v.record_item("top".to_string(), 1, 3);
    v.enter_mod("outer".to_string(), 4, 20, true);
    v.record_item("inner_fn".to_string(), 5, 6);
    v.enter_impl("Vec < u8 >", 7, 12);
    assert_eq!(v.current_path(), "outer::Vec<u8>");
    v.record_impl_fn("len".to_string(), 8, 10);
    v.pop_path();
    v.pop_path();
    v.enter_mod("decl".to_string(), 21, 21, false);
    v.pop_path();
    v.pop_path();
    assert_eq!(v.current_path(), "");
    let items = v.into_items();
    let expected = vec![
        ParsedSymbol { name: "top".into(), start_line: 1, end_line: 3 },
        ParsedSymbol { name: "outer".into(), start_line: 4, end_line: 20 },
        ParsedSymbol { name: "outer::inner_fn".into(), start_line: 5, end_line: 6 },
        ParsedSymbol { name: "outer::Vec<u8>".into(), start_line: 7, end_line: 12 },
        ParsedSymbol { name: "outer::Vec<u8>::len".into(), start_line: 8, end_line: 10 },
    ];
    assert_eq!(items, expected);
}

#[test]
fn rust_visitor_impl_at_top_level() {
    let mut v = RustVisitor::new();
    v.enter_impl("Foo", 1, 5);
    v.record_impl_fn("new".to_string(), 2, 4);
    v.pop_path();
    v.push_path("a".to_string());
    v.push_path("b".to_string());
    assert_eq!(v.current_path(), "a::b");
    let items = v.into_items();
    assert_eq!(items[0].name, "Foo");
    assert_eq!(items[1].name, "Foo::new");
}

#[test]
fn test_lsp_source_location_resolution() {
    let content = "fn my_function() {}";
    let file = syn::parse_file(content).unwrap();
    let mut visitor = RustVisitor::new();
    for item in &file.items {
        if let syn::Item::Fn(f) = item {
            visitor.record_item(f.sig.ident.to_string(), f.span().start().line, f.span().end().line);
        }
    }
    let symbols = visitor.into_items();
    assert!(symbols.iter().any(|s| s.name == "my_function"));
    assert_eq!(symbols[0].start_line, 1);
    assert_eq!(symbols[0].end_line, 1);
}
