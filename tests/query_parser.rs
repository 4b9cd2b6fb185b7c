use twoslash::{find_queries, DirectiveError, QueryKind};

#[test]
fn test_find_queries() {
    let src = r#"
foo.bar()
//   ^?

foo {
    dofoobar
    //  ^?
}

foo.b
//   ^|

foo {
    dofo
    //  ^|
}
"#
    .trim();
    let result = find_queries(src).unwrap();

    let pretty_queries: Vec<_> = result
        .queries
        .into_iter()
        .map(|(q, pos)| {
            let word = &result.code[pos - 1..pos + 2];
            (q, word)
        })
        .collect();

    let expected = vec![
        (QueryKind::Query, "bar"),
        (QueryKind::Query, "oob"),
        (QueryKind::Completions, ".b\n"),
        (QueryKind::Completions, "fo\n"),
    ];

    assert_eq!(pretty_queries, expected);
}

#[test]
fn single_hover_marker_points_at_token() {
    let result = find_queries("foo.bar()\n//   ^?").unwrap();
    assert_eq!(result.code, "foo.bar()");
    assert_eq!(result.queries, vec![(QueryKind::Query, 5)]);
    let pos = result.queries[0].1;
    assert_eq!(&result.code[pos - 1..pos + 2], "bar");
    assert!(!result.no_errors);
    assert_eq!(result.cut, None);
}

#[test]
fn markers_are_removed_from_code() {
    let src = "let a = 1;\n//  ^?\nlet b = a.\n//        ^|\n// @noErrors\nlet c = 3;";
    let result = find_queries(src).unwrap();
    assert_eq!(result.code, "let a = 1;\nlet b = a.\nlet c = 3;");
    assert!(!result.code.contains("^?"));
    assert!(!result.code.contains("^|"));
    assert!(!result.code.contains("@noErrors"));
}

#[test]
fn line_count_drops_directive_lines() {
    let src = "abcdef\n// ^?\n// @noErrors\nuvwxyz\n  // ^|\nc";
    let result = find_queries(src).unwrap();
    assert_eq!(src.lines().count(), 6);
    assert_eq!(result.code.lines().count(), 3);
}

#[test]
fn offsets_account_for_earlier_directives() {
    let src = "// @noErrors\nlet a = 1;\n//  ^?\nlet bb = 2;\n//  ^?";
    let result = find_queries(src).unwrap();
    assert_eq!(result.code, "let a = 1;\nlet bb = 2;");
    assert_eq!(
        result.queries,
        vec![(QueryKind::Query, 4), (QueryKind::Query, 15)]
    );
    assert_eq!(&result.code[4..5], "a");
    assert_eq!(&result.code[15..17], "bb");
    assert!(result.no_errors);
}

#[test]
fn completions_marker_targets_column_before_caret() {
    let result = find_queries("x.ab\n//  ^|").unwrap();
    assert_eq!(result.queries, vec![(QueryKind::Completions, 3)]);
    let hover = find_queries("x.ab\n//  ^?").unwrap();
    assert_eq!(hover.queries, vec![(QueryKind::Query, 4)]);
}

#[test]
fn queries_keep_source_order() {
    let src = "aaa\n//^|\nbbb\n// ^?\nccc\n//  ^|";
    let result = find_queries(src).unwrap();
    assert_eq!(
        result.queries,
        vec![
            (QueryKind::Completions, 1),
            (QueryKind::Query, 7),
            (QueryKind::Completions, 11),
        ]
    );
}

#[test]
fn stacked_markers_share_their_line() {
    let result = find_queries("abcdef\n//  ^?\n//   ^|").unwrap();
    assert_eq!(result.code, "abcdef");
    assert_eq!(
        result.queries,
        vec![(QueryKind::Query, 4), (QueryKind::Completions, 4)]
    );
}

#[test]
fn marker_on_first_line_is_malformed() {
    assert_eq!(
        find_queries("//  ^?\nfoo").err(),
        Some(DirectiveError::MalformedDirective)
    );
    assert_eq!(
        find_queries("// @noErrors\n  // ^|\nfoo").err(),
        Some(DirectiveError::MalformedDirective)
    );
}

#[test]
fn marker_past_line_end_is_out_of_range() {
    assert_eq!(
        find_queries("x\n//    ^?").err(),
        Some(DirectiveError::PositionOutOfRange)
    );
    let at_end = find_queries("ab\n//^|").unwrap();
    assert_eq!(at_end.queries, vec![(QueryKind::Completions, 1)]);
}

#[test]
fn no_errors_pragma_sets_flag() {
    let result = find_queries("// @noErrors\nfn main() {}").unwrap();
    assert!(result.no_errors);
    assert_eq!(result.code, "fn main() {}");
    let spaced = find_queries("  //@noErrors  \nfn main() {}").unwrap();
    assert!(spaced.no_errors);
}

#[test]
fn lookalike_comments_stay_in_code() {
    let src = "a\n// ^ ?\n// @noErrors please\n/ ^?\n// note ^?";
    let result = find_queries(src).unwrap();
    assert_eq!(result.code, src);
    assert!(result.queries.is_empty());
    assert!(!result.no_errors);
}

#[test]
fn cut_boundary_marks_display_start() {
    let src = "struct A;\n// ---cut---\nfn f() {}\n//  ^?";
    let result = find_queries(src).unwrap();
    assert_eq!(result.code, "struct A;\nfn f() {}");
    assert_eq!(result.cut, Some(10));
    assert_eq!(&result.code[10..], "fn f() {}");
    assert_eq!(result.queries, vec![(QueryKind::Query, 14)]);
    let last = find_queries("struct A;\n// ---cut---").unwrap();
    assert_eq!(last.cut, Some(9));
}

#[test]
fn carriage_returns_are_dropped() {
    let result = find_queries("abcd\r\n// ^?\r\ncd\r\n").unwrap();
    assert_eq!(result.code, "abcd\ncd");
    assert_eq!(result.queries, vec![(QueryKind::Query, 3)]);
}

#[test]
fn unicode_whitespace_counts_as_indent() {
    let src = "héllo world\n\u{a0}//\u{3000}^?";
    let result = find_queries(src).unwrap();
    assert_eq!(result.code, "héllo world");
    assert_eq!(result.queries, vec![(QueryKind::Query, 7)]);
    assert_eq!(&result.code[7..], "world");
}

#[test]
fn empty_source_gives_empty_code() {
    let result = find_queries("").unwrap();
    assert_eq!(result.code, "");
    assert!(result.queries.is_empty());
}
