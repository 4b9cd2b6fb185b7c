use twoslash::assemble::{assemble, place_answers, Answer};
use twoslash::find_queries;
use twoslash::result::{
    display_code, display_offset, visible_errors, visible_quick_infos, Diagnostic, QuickInfo,
};
use twoslash::text::position_of;
use twoslash::QueryKind;

fn diag(message: &str, start: usize, length: usize) -> Diagnostic {
    Diagnostic {
        rendered_message: message.to_string(),
        id: "unused_variables".to_string(),
        category: "Warning".to_string(),
        code: 0,
        start,
        length,
        line: 0,
        character: 0,
    }
}

fn info(target: &str, text: &str, start: usize) -> QuickInfo {
    QuickInfo {
        target: target.to_string(),
        text: text.to_string(),
        start,
        length: target.len(),
        line: 0,
        character: 0,
    }
}

fn hover(text: &str, start: usize, length: usize) -> Answer {
    Answer::Hover {
        text: Some(text.to_string()),
        start,
        length,
    }
}

#[test]
fn position_counts_lines_and_columns() {
    let text = "ab\ncde\n\nf".as_bytes();
    assert_eq!(position_of(text, 0), (0, 0));
    assert_eq!(position_of(text, 2), (0, 2));
    assert_eq!(position_of(text, 3), (1, 0));
    assert_eq!(position_of(text, 5), (1, 2));
    assert_eq!(position_of(text, 8), (3, 0));
    assert_eq!(position_of(text, 9), (3, 1));
}

#[test]
fn display_offset_shifts_by_cut() {
    assert_eq!(display_offset(42, None), Some(42));
    assert_eq!(display_offset(42, Some(10)), Some(32));
    assert_eq!(display_offset(10, Some(10)), Some(0));
    assert_eq!(display_offset(9, Some(10)), None);
}

#[test]
fn display_code_keeps_text_after_cut() {
    assert_eq!(display_code("ab\ncd", None), Some("ab\ncd".to_string()));
    assert_eq!(display_code("ab\ncd", Some(3)), Some("cd".to_string()));
    assert_eq!(display_code("ab", Some(2)), Some(String::new()));
    assert_eq!(display_code("ab", Some(3)), None);
    assert_eq!(display_code("é", Some(1)), None);
}

#[test]
fn errors_are_suppressed_by_pragma() {
    let code = "fn main() {\n    let x = 42;\n}";
    let diags = vec![diag("unused variable", 20, 1)];
    assert!(visible_errors(&diags, true, None, code).is_empty());
    let shown = visible_errors(&diags, false, None, code);
    assert_eq!(shown.len(), 1);
    assert_eq!(shown[0].start, 20);
    assert_eq!(shown[0].line, 1);
    assert_eq!(shown[0].character, 8);
    assert_eq!(shown[0].rendered_message, "unused variable");
}

#[test]
fn errors_before_cut_are_hidden() {
    let display = "fn f() {}\nfn g() {}";
    let diags = vec![
        diag("a", 3, 1),
        diag("b", 77, 3),
        diag("c", 64, 2),
        diag("d", 200, 1),
    ];
    let shown = visible_errors(&diags, false, Some(64), display);
    assert_eq!(shown.len(), 2);
    assert_eq!(shown[0].rendered_message, "b");
    assert_eq!(shown[0].start, 13);
    assert_eq!(shown[0].length, 3);
    assert_eq!((shown[0].line, shown[0].character), (1, 3));
    assert_eq!(shown[1].rendered_message, "c");
    assert_eq!(shown[1].start, 0);
    assert_eq!((shown[1].line, shown[1].character), (0, 0));
}

#[test]
fn quick_infos_before_cut_are_hidden() {
    let display = "pub fn example() {\n    let cfg = Config { name: String::new(), value: 42 };\n}";
    let infos = vec![info("Config", "struct Config", 11), info("cfg", "let cfg: Config", 91)];
    let shown = visible_quick_infos(&infos, Some(64), display);
    assert_eq!(shown.len(), 1);
    assert_eq!(shown[0].target, "cfg");
    assert_eq!(shown[0].start, 27);
    assert_eq!(shown[0].length, 3);
    assert_eq!((shown[0].line, shown[0].character), (1, 8));
    let whole = visible_quick_infos(&infos, None, "struct Config {}\nlet cfg = 1;");
    assert_eq!(whole.len(), 1);
    assert_eq!(whole[0].target, "Config");
    assert_eq!((whole[0].line, whole[0].character), (0, 11));
}

#[test]
fn answers_are_placed_in_query_order() {
    let answers = vec![
        (2, hover("c", 30, 1)),
        (0, hover("a", 10, 1)),
        (5, hover("ignored", 0, 1)),
        (0, hover("late", 11, 1)),
    ];
    let slots = place_answers(3, answers);
    assert_eq!(slots.len(), 3);
    match &slots[0] {
        Some(Answer::Hover { text, start, .. }) => {
            assert_eq!(text.as_deref(), Some("a"));
            assert_eq!(*start, 10);
        }
        _ => panic!("expected the first answer for query 0"),
    }
    assert!(slots[1].is_none());
    match &slots[2] {
        Some(Answer::Hover { text, .. }) => assert_eq!(text.as_deref(), Some("c")),
        _ => panic!("expected an answer for query 2"),
    }
}

#[test]
fn no_errors_source_reports_no_errors() {
    let src = "// @noErrors\nfn main() {\n    let x = 42;\n    let message = \"Hello, Rust!\";\n}";
    let parse = find_queries(src).unwrap();
    assert!(parse.no_errors);
    let diags = vec![diag("unused variable", 20, 1), diag("unused variable", 36, 7)];
    let doc = assemble(&parse, &Vec::new(), Vec::new(), &diags).unwrap();
    assert!(doc.errors.is_empty());
    assert_eq!(
        doc.code,
        "fn main() {\n    let x = 42;\n    let message = \"Hello, Rust!\";\n}"
    );
}

#[test]
fn assembled_document_uses_display_offsets() {
    let src = "pub struct Config {\n    pub name: String,\n    pub value: i32,\n}\n// ---cut---\npub fn example() {\n    let cfg = Config { name: String::new(), value: 42 };\n    //  ^?\n}";
    let parse = find_queries(src).unwrap();
    assert_eq!(parse.cut, Some(64));
    assert_eq!(parse.queries, vec![(QueryKind::Query, 91)]);
    let infos = vec![info("Config", "struct Config", 11), info("cfg", "let cfg: Config", 91)];
    let answers = vec![(0, hover("let cfg: Config", 91, 3))];
    let diags = vec![diag("unused variable", 91, 3)];
    let doc = assemble(&parse, &infos, answers, &diags).unwrap();
    assert_eq!(
        doc.code,
        "pub fn example() {\n    let cfg = Config { name: String::new(), value: 42 };\n}"
    );
    assert!(!doc.code.contains("pub struct Config"));
    assert_eq!(doc.extension, ".rs");
    assert_eq!(doc.playground_url, "https://play.rust-lang.org");
    assert!(doc.highlights.is_empty());
    assert!(doc.tags.is_empty());
    assert_eq!(doc.static_quick_infos.len(), 1);
    assert_eq!(doc.static_quick_infos[0].start, 27);
    assert_eq!(doc.static_quick_infos[0].line, 1);
    assert_eq!(doc.static_quick_infos[0].character, 8);
    assert_eq!(doc.queries.len(), 1);
    assert_eq!(doc.queries[0].kind, QueryKind::Query);
    assert_eq!(doc.queries[0].offset, 27);
    assert_eq!(doc.queries[0].line, 1);
    assert_eq!(doc.queries[0].character, 8);
    match &doc.queries[0].answer {
        Some(Answer::Hover { text, start, length }) => {
            assert_eq!(text.as_deref(), Some("let cfg: Config"));
            assert_eq!(*start, 27);
            assert_eq!(*length, 3);
        }
        _ => panic!("expected a hover answer"),
    }
    assert_eq!(doc.errors.len(), 1);
    assert_eq!(doc.errors[0].start, 27);
    assert_eq!((doc.errors[0].line, doc.errors[0].character), (1, 8));
}

#[test]
fn assembled_queries_follow_source_order() {
    let src = "foo.bar()\n//   ^?\nfoo.b\n//   ^|";
    let parse = find_queries(src).unwrap();
    let answers = vec![
        (
            1,
            Answer::Completions {
                names: vec!["bar".to_string(), "baz".to_string()],
                prefix: "b".to_string(),
            },
        ),
        (0, hover("fn bar()", 4, 3)),
    ];
    let doc = assemble(&parse, &Vec::new(), answers, &Vec::new()).unwrap();
    assert_eq!(doc.queries.len(), 2);
    assert_eq!(doc.queries[0].kind, QueryKind::Query);
    assert_eq!(doc.queries[0].offset, 5);
    assert_eq!((doc.queries[0].line, doc.queries[0].character), (0, 5));
    assert_eq!(doc.queries[1].kind, QueryKind::Completions);
    assert_eq!(doc.queries[1].offset, 14);
    assert_eq!((doc.queries[1].line, doc.queries[1].character), (1, 4));
    match &doc.queries[1].answer {
        Some(Answer::Completions { names, prefix }) => {
            assert_eq!(names, &vec!["bar".to_string(), "baz".to_string()]);
            assert_eq!(prefix, "b");
        }
        _ => panic!("expected completions"),
    }
}
