use gtllm::md_line::is_block_start;
use gtllm::{
    parse_inline_elements, parse_message_content, ContentSegment, InlineSegment, ListBlock,
    TableAlignment,
};

#[test]
fn parses_block_elements() {
    let content = "# Title\n\n| Name | Score |\n| :--- | ---: |\n| Ada | 10 |\n\n- one\n  - nested\n- two\n\n```rust\nlet x = 1;\n```\n\n$$\na^2 + b^2 = c^2\n$$";
    let segments = parse_message_content(content);

    assert!(matches!(segments[0], ContentSegment::Header { level: 1, .. }));
    assert!(matches!(segments[1], ContentSegment::Table(_)));
    assert!(matches!(segments[2], ContentSegment::List(ListBlock { ordered: false, .. })));
    assert!(matches!(segments[3], ContentSegment::CodeBlock { .. }));
    assert!(matches!(segments[4], ContentSegment::FormulaBlock(_)));
}

#[test]
fn parses_table_alignment_and_rows() {
    let content = "| Name | Value |\n| :--- | ---: |\n| left | right |\n| x | y |";
    let segments = parse_message_content(content);

    match &segments[0] {
        ContentSegment::Table(table) => {
            assert_eq!(table.headers, vec!["Name", "Value"]);
            assert_eq!(table.alignments, vec![TableAlignment::Left, TableAlignment::Right]);
            assert_eq!(table.rows.len(), 2);
            assert_eq!(table.rows[0], vec!["left", "right"]);
        }
        other => panic!("expected table, got {other:?}"),
    }
}

#[test]
fn preserves_escaped_pipes_and_code_pipes_in_table_cells() {
    let content = "| Name | Note |\n| --- | --- |\n| a \\| b | `x | y` and more |";
    let segments = parse_message_content(content);

    match &segments[0] {
        ContentSegment::Table(table) => {
            assert_eq!(table.rows[0][0], "a \\| b");
            assert_eq!(table.rows[0][1], "`x | y` and more");
        }
        other => panic!("expected table, got {other:?}"),
    }
}

#[test]
fn normalizes_html_breaks_in_table_cells() {
    let content = "| Name | Note |\n| --- | --- |\n| Ada | line one<br>line two |";
    let segments = parse_message_content(content);

    match &segments[0] {
        ContentSegment::Table(table) => {
            assert_eq!(table.rows[0][1], "line one\nline two");
        }
        other => panic!("expected table, got {other:?}"),
    }
}

#[test]
fn parses_inline_elements_recursively() {
    let segments = parse_inline_elements("**bold _italic_** and `code` with $x+y$");

    assert!(matches!(segments[0], InlineSegment::Bold(_)));
    assert!(matches!(segments[2], InlineSegment::InlineCode(_)));
    assert!(matches!(segments[4], InlineSegment::Formula(_)));
}

#[test]
fn replies_the_reader_cannot_take() {
    // A line that may start a list and begins with a character that is not
    // ASCII cannot be read.
    assert!(gtllm::try_parse_message_content("Éclair au chocolat").is_none());
    assert!(gtllm::try_parse_message_content("intro\n\n日本語").is_none());
    // Inside code, and after ASCII text, such characters are fine.
    assert!(gtllm::try_parse_message_content("```\nÉclair\n```").is_some());
    assert_eq!(
        gtllm::try_parse_message_content("Un éclair"),
        Some(parse_message_content("Un éclair"))
    );
    assert_eq!(gtllm::try_parse_message_content("   \n\n"), Some(vec![]));
}

#[test]
fn block_starts() {
    let line = |s: &str| s.chars().collect::<Vec<char>>();
    assert!(is_block_start(&line("# Title")));
    assert!(is_block_start(&line("- item")));
    assert!(is_block_start(&line("```")));
    assert!(is_block_start(&line("")));
    assert!(!is_block_start(&line("plain text")));
}

#[test]
fn inline_text_comes_merged() {
    for text in ["plain words", "a \\*not bold\\* b", "x `code` y **z** w", "", "**a**b_c_"] {
        let spans = parse_inline_elements(text);
        for pair in spans.windows(2) {
            assert!(!matches!((&pair[0], &pair[1]), (InlineSegment::Text(_), InlineSegment::Text(_))));
        }
        for s in &spans {
            if let InlineSegment::Text(t) = s {
                assert!(!t.is_empty());
            }
        }
    }
    assert_eq!(
        parse_inline_elements("plain words"),
        vec![InlineSegment::Text("plain words".to_string())]
    );
}

#[test]
fn underscores_inside_words_are_not_emphasis() {
    assert_eq!(
        parse_inline_elements("snake_case_name"),
        vec![InlineSegment::Text("snake_case_name".to_string())]
    );
    assert_eq!(
        parse_inline_elements("ça_va_bien"),
        vec![InlineSegment::Text("ça_va_bien".to_string())]
    );
    assert!(matches!(parse_inline_elements("_it_").as_slice(), [InlineSegment::Italic(_)]));
}

#[test]
fn nested_text_comes_merged_too() {
    let spans = parse_inline_elements("**a \\* b** and [x \\[ y](http://u)");
    match &spans[0] {
        InlineSegment::Bold(inner) => assert_eq!(inner, &vec![InlineSegment::Text("a * b".to_string())]),
        other => panic!("expected bold, got {other:?}"),
    }
    match &spans[2] {
        InlineSegment::Link { text, url } => {
            assert_eq!(text, &vec![InlineSegment::Text("x [ y".to_string())]);
            assert_eq!(url, "http://u");
        }
        other => panic!("expected link, got {other:?}"),
    }
}

#[test]
fn blank_replies_read_as_nothing_and_others_as_something() {
    assert!(parse_message_content(" \r\n\t ").is_empty());
    assert!(!parse_message_content("x").is_empty());
    assert!(!parse_message_content("\n\n---\n").is_empty());
}

#[test]
fn table_rows_join_back() {
    use_row("| a \\| b | `x | y` |");
    use_row("");
    use_row("no pipes");
}

fn use_row(row: &str) {
    let chars: Vec<char> = row.chars().collect();
    let parts = gtllm::md_line::split_table_row(&chars);
    assert!(!parts.is_empty());
    let joined: Vec<String> = parts.iter().map(|p| p.iter().collect()).collect();
    assert_eq!(joined.join("|"), row);
}

#[test]
fn headers_and_lists_have_their_shape() {
    let segs = parse_message_content("## Title ##\n\n- a\n  - b\n- c");
    match &segs[0] {
        ContentSegment::Header { level, text } => {
            assert_eq!(*level, 2);
            assert_eq!(text, "Title");
        }
        other => panic!("expected header, got {other:?}"),
    }
    match &segs[1] {
        ContentSegment::List(l) => {
            assert_eq!(l.items.len(), 2);
            assert_eq!(l.items[0].children[0].items.len(), 1);
        }
        other => panic!("expected list, got {other:?}"),
    }
}
