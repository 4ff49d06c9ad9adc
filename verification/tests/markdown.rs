use deordinal::{Diagnostic, Language, LineIndex, Severity, check};

fn hits(source: &str) -> Vec<Diagnostic> {
    check(source, Language::Markdown)
}

fn line_column(source: &str, byte: usize) -> (usize, usize) {
    LineIndex::new(source).line_column(source, byte)
}

#[test]
fn text_positions_and_structures() {
    let src = "# 1. 見出し\r\n\r\n> Step 1: 引用\r\n- [ ] 2: タスク\r\n普通の段落\n3: 続き\n";
    let ds = hits(src);
    assert_eq!(ds.len(), 4, "{ds:?}");
    assert_eq!(line_column(src, ds[0].start), (1, 3));
    assert_eq!(line_column(src, ds[1].start), (3, 3));
    assert_eq!(line_column(src, ds[2].start), (4, 7));
    assert_eq!(line_column(src, ds[3].start), (6, 1));
}

#[test]
fn bom_without_frontmatter() {
    let src = "\u{feff}# Step 1\n";
    let ds = hits(src);
    assert_eq!(ds.len(), 1, "{ds:?}");
    assert_eq!(line_column(src, ds[0].start), (1, 4));
}

#[test]
fn each_ordered_list_once_including_nested() {
    let src = "1. first\n2. second\n   1. nested\n   2. nested\n3. third\n";
    let ds = hits(src);
    assert_eq!(
        ds.iter()
            .filter(|d| d.rule == "deordinal/ordered-list")
            .count(),
        2,
        "{ds:?}"
    );
    assert_eq!(ds.len(), 2, "{ds:?}");
    assert_eq!(line_column(src, ds[1].start), (3, 4));
}

#[test]
fn excluded_markdown_regions() {
    let src = "---\ntitle: 1. no\n---\n\n```ts\n// Step 1\n1. code\n```\n\n    2. indented code\n\n`1. no`\n**1.** 概要\n| 1. col | Step 1 |\n| --- | --- |\n| x | y |\n<!-- Step 1 -->\n<div>Step 1</div>\n";
    assert!(hits(src).is_empty(), "{:?}", hits(src));
}

#[test]
fn directives_boundaries_and_errors() {
    let src = "# Step 1\n<!-- deordinal-ignore-start: 必須 -->\n1. suppressed\n<!-- deordinal-ignore-end -->\n# Phase A\n";
    let ds = hits(src);
    assert_eq!(ds.len(), 2, "{ds:?}");
    assert_eq!(line_column(src, ds[1].start).0, 5);

    let bad = "<!-- deordinal-ignore-start: -->\n<!-- deordinal-ignore-end -->\n<!-- deordinal-ignore -->\n<!-- deordinal-ignore-file: late -->\n<!-- deordinal-ignore-start: outer -->\n<!-- deordinal-ignore-start: inner -->\n";
    let errors: Vec<_> = hits(bad)
        .into_iter()
        .filter(|d| d.severity == Severity::Error)
        .collect();
    assert_eq!(errors.len(), 6, "{errors:?}");
}

#[test]
fn crlf_range_never_suppresses_ignore_errors() {
    let src = "<!-- deordinal-ignore-start: 必須 -->\r\n# Step 1\r\n<!-- deordinal-ignore -->\r\n<!-- deordinal-ignore-end -->\r\n# Phase A\r\n";
    let ds = hits(src);
    assert_eq!(ds.len(), 2, "{ds:?}");
    assert_eq!(ds[0].rule, "deordinal/ignore");
    assert_eq!(line_column(src, ds[1].start), (5, 3));
}

#[test]
fn file_ignore_only_at_start_with_reason() {
    let src = "\u{feff}\n<!-- deordinal-ignore-file: 手順書 -->\n# Step 1\n";
    assert!(hits(src).is_empty(), "{:?}", hits(src));
    let src = "# Step 1\n<!-- deordinal-ignore-file: 手順書 -->\n";
    assert_eq!(hits(src).len(), 2);
}

#[test]
fn consecutive_directives_and_nested_lists() {
    let src = "<!-- deordinal-ignore-start: 手順 -->\n<!-- note -->\n1. first\n   1. nested\n<!-- deordinal-ignore-end -->\n# Step 1\n";
    let ds = hits(src);
    assert_eq!(ds.len(), 1, "{ds:?}");
    assert_eq!(line_column(src, ds[0].start).0, 6);
}

#[test]
fn adjacent_and_multiline_directives() {
    let adjacent =
        "<!-- deordinal-ignore-start: 手順 -->\n<!-- deordinal-ignore-end -->\n# Step 1\n";
    let ds = hits(adjacent);
    assert_eq!(ds.len(), 1, "{ds:?}");
    assert_eq!(ds[0].rule, "deordinal/keyword-prefix");

    let multiline = "<!-- deordinal-ignore-start: 手順\n-->\n# Step 1\n";
    let ds = hits(multiline);
    assert_eq!(ds.len(), 2, "{ds:?}");
    assert_eq!(ds[0].rule, "deordinal/ignore");
}

#[test]
fn blockquotes_and_unordered_lists() {
    let src = "> 1. first\n> 2. second\n\n- Step 1\n- 1: note\n";
    let ds = hits(src);
    assert_eq!(ds.len(), 3, "{ds:?}");
    assert_eq!(ds[0].rule, "deordinal/ordered-list");
    assert_eq!(line_column(src, ds[0].start), (1, 3));
}

#[test]
fn empty_and_escaped_input() {
    assert!(hits("").is_empty());
    assert!(hits("# \\1. escaped\n**1.** 装飾付き\n").is_empty());
}

#[test]
fn inline_code_is_not_a_directive() {
    let src = "`<!-- deordinal-ignore-file: reason -->`\n# Step 1\n";
    assert_eq!(hits(src).len(), 1);
}
