use deordinal::{Language, LineIndex, check, fix_unsafe};

#[test]
fn diagnostic_rules_use_public_names() {
    let diagnostics = check(
        "# 1. 概要\n\n1. first\n2. second\n# Step 1\n<!-- deordinal-ignore -->\n",
        Language::Markdown,
    );
    let rules: Vec<_> = diagnostics
        .iter()
        .map(|diagnostic| diagnostic.rule.name())
        .collect();
    assert_eq!(
        rules,
        ["prefix", "ordered-list", "keyword-prefix", "ignore"]
    );
}

#[test]
fn fixes_markdown_prose_without_changing_syntax() {
    let source = "\u{feff}# 1. 概要\r\n> Phase A: 計画\r\n- Step 1: 準備\r\n- [ ] 2: 確認\r\n普通の段落\r\n3: 続き\r\n";
    let expected = "\u{feff}# 概要\r\n> 計画\r\n- 準備\r\n- [ ] 確認\r\n普通の段落\r\n続き\r\n";
    assert_eq!(
        fix_unsafe(source, Language::Markdown).as_deref(),
        Some(expected)
    );
    assert!(fix_unsafe(expected, Language::Markdown).is_none());
}

#[test]
fn leaves_unsupported_markdown_unchanged() {
    let source = "# Step 1\n# Step 2 <!-- note -->\n1. first\n2. second\n- Step 3\n```\n# Step 4: code\n```\n";
    assert!(fix_unsafe(source, Language::Markdown).is_none());
    assert_eq!(check(source, Language::Markdown).len(), 4);
}

#[test]
fn fixes_headings_with_formatted_prose() {
    let source = "# 1. **Strong**\n## Step 1: [Link](target)\n";
    let expected = "# **Strong**\n## [Link](target)\n";
    assert_eq!(
        fix_unsafe(source, Language::Markdown).as_deref(),
        Some(expected)
    );
}

#[test]
fn honors_ignore_and_rejects_invalid_directives() {
    let source = "# Step 1: before\n<!-- deordinal-ignore-start: required -->\n# Step 2: ignored\n<!-- deordinal-ignore-end -->\n# Step 3: after\n";
    let expected = "# before\n<!-- deordinal-ignore-start: required -->\n# Step 2: ignored\n<!-- deordinal-ignore-end -->\n# after\n";
    assert_eq!(
        fix_unsafe(source, Language::Markdown).as_deref(),
        Some(expected)
    );
    let invalid = "# Step 1: keep\n<!-- deordinal-ignore -->\n";
    assert!(fix_unsafe(invalid, Language::Markdown).is_none());
}

#[test]
fn skips_markdown_fixes_that_change_parsing_without_losing_other_edits() {
    let source = "1: ---\n# Step 1: Title\n";
    assert_eq!(
        fix_unsafe(source, Language::Markdown).as_deref(),
        Some("1: ---\n# Title\n")
    );
}

#[test]
fn fixes_stacked_labels_in_one_run() {
    let markdown = "# 1: Phase A: Plan\n";
    let code = "// 1: Step 2: Setup\n";
    assert_eq!(
        fix_unsafe(markdown, Language::Markdown).as_deref(),
        Some("# Plan\n")
    );
    assert_eq!(
        fix_unsafe(code, Language::JavaScript).as_deref(),
        Some("// Setup\n")
    );
    assert!(fix_unsafe("# Plan\n", Language::Markdown).is_none());
}

#[test]
fn fixes_only_comments_not_strings_or_docstrings() {
    for language in [
        Language::JavaScript,
        Language::Jsx,
        Language::TypeScript,
        Language::Tsx,
    ] {
        let source = "const x = '// Step 1: literal'; // 1. 初期化\n// someCode()\n// 2. 実行\n/* Phase A: 準備 */\n/* Step 1 */\n";
        let expected = "const x = '// Step 1: literal'; // 初期化\n// someCode()\n// 実行\n/* 準備 */\n/* Step 1 */\n";
        assert_eq!(
            fix_unsafe(source, language).as_deref(),
            Some(expected),
            "{language:?}"
        );
        assert!(fix_unsafe(expected, language).is_none());
    }
    let python = "\"\"\"Step 1: docstring\"\"\"\n# ① 準備\nvalue = '1. ordinary'\n";
    let expected = "\"\"\"Step 1: docstring\"\"\"\n# 準備\nvalue = '1. ordinary'\n";
    assert_eq!(
        fix_unsafe(python, Language::Python).as_deref(),
        Some(expected)
    );
}

#[test]
fn unicode_column_and_crlf() {
    let text = "あ🐱: Step 1\r\n# Phase A\n";
    let index = LineIndex::new(text);
    assert_eq!(index.line_column(text, text.find("Step").unwrap()), (1, 5));
    assert_eq!(index.line_column(text, text.find("Phase").unwrap()), (2, 3));
}
