use deordinal::{Language, LineIndex, check};

#[test]
fn javascript_and_typescript_only_comments() {
    for lang in [
        Language::JavaScript,
        Language::Jsx,
        Language::TypeScript,
        Language::Tsx,
    ] {
        let source =
            "const s = '// 1. not a comment'; // 1. note\n/* 2. block\n * Step 3: next */\n";
        let hits = check(source, lang);
        assert_eq!(hits.len(), 3, "{lang:?}: {hits:?}");
        assert_eq!(
            LineIndex::new(source).line_column(source, hits[0].start),
            (1, 37)
        );
    }
}

#[test]
fn jsx_and_tsx_syntax() {
    for lang in [Language::Jsx, Language::Tsx] {
        let src = "const el = <div>{/* Step 1 */}1. text</div>; // Phase A\n";
        assert_eq!(check(src, lang).len(), 2, "{lang:?}");
    }
}

#[test]
fn python_docstrings_and_comments() {
    let src = "\"\"\"Step 1\n2. module\"\"\"\nvalue = \"\"\"3. ordinary\"\"\"\n# 4. comment\nclass A:\n    # preface\n    \"\"\"5. class\"\"\"\n    def f(self):\n        '6. function'\n        x = '''7. ordinary'''; return x\n    async def g(self):\n        r\"\"\"8. async\"\"\"\n";
    let hits = check(src, Language::Python);
    assert_eq!(hits.len(), 6, "{hits:?}");
}

#[test]
fn parenthesized_docstring() {
    let src = "def f():\n    (\"\"\"Step 1\"\"\")\n";
    let hits = check(src, Language::Python);
    assert_eq!(hits.len(), 1, "{hits:?}");
}

#[test]
fn docstring_positions_with_crlf() {
    let src = "class A:\r\n    \"\"\"Overview\r\n    Step 1: setup\r\n    2. ready\"\"\"\r\n";
    let hits = check(src, Language::Python);
    assert_eq!(hits.len(), 2, "{hits:?}");
    assert_eq!(LineIndex::new(src).line_column(src, hits[0].start), (3, 5));
    assert_eq!(LineIndex::new(src).line_column(src, hits[1].start), (4, 5));
}

#[test]
fn not_docstrings_when_not_first_or_not_literal() {
    let src = "def f():\n    x = 1\n    '1. not docstring'\n\ndef g():\n    f'2. interpolated'\n\ndef h():\n    '3. string' + '4. string'\n";
    assert!(check(src, Language::Python).is_empty());
}

#[test]
fn multiline_comments_without_stars_and_ordinary_strings() {
    let src = "const value = `// 1. literal`; /* 2. first\n 3. next\n * 4. last */\n";
    let hits = check(src, Language::TypeScript);
    assert_eq!(hits.len(), 3, "{hits:?}");
}

#[test]
fn markdown_ignore_comments_have_no_special_meaning_in_code() {
    let src = "// deordinal-ignore-start: reason\n// Step 1\n// deordinal-ignore-end\n";
    let hits = check(src, Language::JavaScript);
    assert_eq!(hits.len(), 1, "{hits:?}");
    assert_eq!(hits[0].rule, "keyword-prefix");
}

#[test]
fn invalid_syntax_does_not_trigger_fallback() {
    let src = "const broken = '// 1. literal'; // 2. real\n???";
    let hits = check(src, Language::JavaScript);
    assert_eq!(hits.len(), 1, "{hits:?}");
}
