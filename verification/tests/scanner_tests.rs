use reqtrace::config::{Config, Paths, TypeMapping};
use reqtrace::languages::python::PythonParser;
use reqtrace::languages::rust::RustParser;
use reqtrace::languages::{ParsedSymbol, ParserKind};
use reqtrace::scanner::{extension, parser_for_path, LineRange, ScanError, Scanner};

fn mock_config() -> Config {
    Config {
        paths: Paths { scan: vec![], ignore: None, db: "db.json".to_string() },
        types: vec![TypeMapping {
            prefix: "REQ-".into(),
            item_type: "Requirement".into(),
            requirement_type: Some("Functional".into()),
        }],
    }
}

fn config_ignoring(patterns: Vec<&str>) -> Config {
    Config {
        paths: Paths {
            scan: vec![],
            ignore: Some(patterns.into_iter().map(|s| s.to_string()).collect()),
            db: "db.json".to_string(),
        },
        types: vec![],
    }
}

#[test]
fn test_scan_markdown() {
    let content = r#"
<!-- @REQ-vapik@ -->
### Login feature
Allows users to login.

<!-- @REQ-sivoh@ (FROM: @REQ-vapik@) -->
### Password hashing
Passwords must be hashed.
"#;
    let scanner = Scanner::new(mock_config()).unwrap();
    let items = scanner.scan_file("test_scan.md", content, None);

    assert_eq!(items.len(), 2);
    assert_eq!(items[0].id, "REQ-vapik");
    assert_eq!(items[0].title, "Login feature");
    assert_eq!(items[1].id, "REQ-sivoh");
    assert_eq!(items[1].derived_from, vec!["REQ-vapik"]);
}

#[test]
fn test_scan_proquint() {
    let content = r#"
<!-- @REQ-lusab-babad@ -->
### Proquint ID
Testing proquint IDs.

<!-- @ARCH-1@ (FROM: @REQ-lusab-babad@) -->
### Legacy ID
Testing legacy ID with proquint as parent.
"#;
    let scanner = Scanner::new(mock_config()).unwrap();
    let items = scanner.scan_file("test_proquint.md", content, None);

    assert_eq!(items.len(), 2);
    assert_eq!(items[0].id, "REQ-lusab-babad");
    assert_eq!(items[1].id, "ARCH-1");
    assert_eq!(items[1].derived_from, vec!["REQ-lusab-babad"]);
}

#[test]
fn test_scan_python() {
    let content = r#"
# @REQ-vapik@
class Parent:
    def method_1(self):
        pass
"#;
    let scanner = Scanner::new(mock_config()).unwrap();
    let items = scanner.scan_source("test_scan.py", content, vec![]);

    assert_eq!(items.len(), 1);
    assert_eq!(items[0].id, "REQ-vapik");
    assert_eq!(items[0].title, "Parent");
}

#[test]
fn test_should_ignore_glob_patterns() {
    let config = config_ignoring(vec![
        "target/**",
        ".git/**",
        "node_modules/**",
        "dist/**",
        ".venv/**",
        "venv/**",
        "**/*.pyc",
        "**/__pycache__/**",
    ]);
    let scanner = Scanner::new(config).unwrap();

    assert!(scanner.should_ignore("src/appmgr/admin/__pycache__/__init__.cpython-313.pyc"));
    assert!(scanner.should_ignore("src/appmgr/__pycache__"));
    assert!(scanner.should_ignore("tests/unit/test.pyc"));
    assert!(scanner.should_ignore("target/debug/reqtrace"));
    assert!(scanner.should_ignore(".git/HEAD"));
    assert!(scanner.should_ignore(".venv/lib/python3.12/site-packages/pkg"));

    assert!(!scanner.should_ignore("src/appmgr/admin/app.py"));
    assert!(!scanner.should_ignore("docs/requirements.md"));
    assert!(!scanner.should_ignore("tests/unit/test_app.py"));
}

#[test]
fn bare_names_are_ignored_anywhere() {
    let scanner = Scanner::new(config_ignoring(vec!["target", " .git ", ""])).unwrap();
    assert!(scanner.should_ignore("target"));
    assert!(scanner.should_ignore("./target/debug/app"));
    assert!(scanner.should_ignore("crates/x/target/release/y"));
    assert!(scanner.should_ignore(".git"));
    assert!(scanner.should_ignore("sub\\.git\\config"));
    assert!(!scanner.should_ignore("src/targets.rs"));
}

#[test]
fn no_ignore_patterns_ignore_nothing() {
    let scanner = Scanner::new(mock_config()).unwrap();
    assert!(!scanner.should_ignore("target/debug/app"));
    assert!(!scanner.should_ignore(""));
}

#[test]
fn invalid_pattern_is_skipped() {
    let scanner = Scanner::new(config_ignoring(vec!["a[", "docs"])).unwrap();
    assert!(scanner.should_ignore("docs/requirements.md"));
    assert!(!scanner.should_ignore("src/a[.rs"));
}

#[test]
fn scanner_keeps_its_configuration() {
    let scanner = Scanner::new(mock_config()).unwrap();
    assert_eq!(scanner.config().types[0].prefix, "REQ-");
    assert_eq!(scanner.config().paths.db, "db.json");
}

#[test]
fn markdown_section_extent_and_comment_references() {
    let content = "# @REQ-a@ heading tag\nTitle A\nbody\n// @REQ-b@ FROM: REQ-a, @REQ-c@\n## Title B\nmore\nsee @REQ-a@ here\n";
    let items = Scanner::new(mock_config()).unwrap().scan_file("docs\\reqs.md", content, None);
    assert_eq!(items.len(), 2);
    assert_eq!(items[0].id, "REQ-a");
    assert_eq!(items[0].title, "Title A");
    assert_eq!(items[0].line_range, LineRange { start: 2, end: 3 });
    assert_eq!(items[0].file_path, "docs/reqs.md");
    assert_eq!(items[1].id, "REQ-b");
    assert_eq!(items[1].title, "Title B");
    assert_eq!(items[1].line_range, LineRange { start: 5, end: 7 });
    assert_eq!(items[1].derived_from, vec!["REQ-a", "REQ-c"]);
}

#[test]
fn raw_string_blocks_are_skipped() {
    let content = "let s = r#\"\n// @REQ-hidden@\n\"#;\n// @REQ-seen@\nfn f() {}\n";
    let parsed = vec![ParsedSymbol { name: "f".into(), start_line: 5, end_line: 5 }];
    let items = Scanner::new(mock_config()).unwrap().scan_file("src/lib.rs", content, Some(parsed));
    assert_eq!(items.len(), 1);
    assert_eq!(items[0].id, "REQ-seen");
    assert_eq!(items[0].title, "f");
    assert_eq!(items[0].line_range, LineRange { start: 5, end: 5 });
}

#[test]
fn parsed_file_picks_the_enclosing_or_next_closest_symbol() {
    let content = "struct S {\n    // @REQ-in@\n    x: u8,\n}\n// @REQ-next@\n\nfn g() {}\n// @REQ-none@\n";
    let parsed = vec![
        ParsedSymbol { name: "S".into(), start_line: 1, end_line: 4 },
        ParsedSymbol { name: "g".into(), start_line: 7, end_line: 7 },
    ];
    let items = Scanner::new(mock_config()).unwrap().scan_file("src/x.rs", content, Some(parsed));
    assert_eq!(items.len(), 3);
    assert_eq!(items[0].title, "S");
    assert_eq!(items[0].line_range, LineRange { start: 1, end: 4 });
    assert_eq!(items[1].title, "g");
    assert_eq!(items[1].line_range, LineRange { start: 7, end: 7 });
    assert_eq!(items[2].title, "");
    assert_eq!(items[2].line_range, LineRange { start: 8, end: 8 });
}

#[test]
fn extension_and_parser_from_path() {
    assert_eq!(extension("src/main.rs"), Some(vec!['r', 's']));
    assert_eq!(extension("a/b.tar.gz"), Some(vec!['g', 'z']));
    assert_eq!(extension(".bashrc"), None);
    assert_eq!(extension("dir/noext"), None);
    assert_eq!(extension("file."), Some(vec![]));
    assert_eq!(parser_for_path("x/y.py"), Some(ParserKind::Python(PythonParser)));
    assert_eq!(parser_for_path("x/y.rs"), Some(ParserKind::Rust(RustParser)));
    assert_eq!(parser_for_path("README.md"), None);
    assert_eq!(parser_for_path("Makefile"), None);
}

#[test]
fn scanner_builds_for_valid_patterns() {
    let result = Scanner::new(mock_config());
    assert!(!matches!(result, Err(ScanError::InvalidPattern(_))));
    assert!(result.is_ok());
}

#[test]
fn unparsable_ignore_pattern_is_skipped_not_an_error() {
    let scanner = Scanner::new(config_ignoring(vec!["[", "target"])).unwrap();
    assert!(scanner.should_ignore("target/x"));
    assert!(!scanner.should_ignore("src/main.rs"));
}

#[test]
fn link_list_keeps_every_tagged_parent() {
    let content = "<!-- @ARC-rimad@ (FROM: @REQ-zaruh@, @REQ-rivil@) -->\n### Extraction & Transformation\n";
    let items = Scanner::new(mock_config()).unwrap().scan_file("docs/architecture.md", content, None);
    assert_eq!(items.len(), 1);
    assert_eq!(items[0].derived_from, vec!["REQ-zaruh", "REQ-rivil"]);
}

#[test]
fn multi_line_link_list_is_read() {
    let content = "// @ARCH-parser@ FROM:\n//   REQ-zaruh (input file name is specified for parser)\n//   REQ1.3 (other)\nfn parse() {}\n// not a list\n";
    let parsed = vec![ParsedSymbol { name: "parse".into(), start_line: 4, end_line: 4 }];
    let items = Scanner::new(mock_config()).unwrap().scan_file("src/p.rs", content, Some(parsed));
    assert_eq!(items.len(), 1);
    assert_eq!(items[0].id, "ARCH-parser");
    assert_eq!(items[0].derived_from, vec!["REQ-zaruh", "REQ1.3"]);
    assert_eq!(items[0].title, "parse");
}

#[test]
fn from_without_list_gives_no_parents() {
    let content = "// @ARCH-x@ FROM:\n// REQ-a is mentioned\nfn f() {}\n";
    let parsed = vec![ParsedSymbol { name: "f".into(), start_line: 3, end_line: 3 }];
    let items = Scanner::new(mock_config()).unwrap().scan_file("src/p.rs", content, Some(parsed));
    assert_eq!(items.len(), 1);
    assert!(items[0].derived_from.is_empty());
}

#[test]
fn source_scan_picks_the_parser_by_extension() {
    let scanner = Scanner::new(mock_config()).unwrap();
    let py = "# @REQ-a@\nclass A:\n    pass\n";
    let direct = scanner.scan_file("m.py", py, Some(PythonParser.parse_symbols(py)));
    assert_eq!(scanner.scan_source("m.py", py, vec![]), direct);
    let md = "<!-- @REQ-b@ -->\n# Title\n";
    let items = scanner.scan_source("notes.md", md, vec![ParsedSymbol { name: "ignored".into(), start_line: 1, end_line: 1 }]);
    assert_eq!(items[0].title, "Title");
    let rs = "// @REQ-c@\nfn f() {}\n";
    let items = scanner.scan_source("lib.rs", rs, vec![ParsedSymbol { name: "f".into(), start_line: 2, end_line: 2 }]);
    assert_eq!(items[0].title, "f");
}
