use deordinal::config::{
    Config, ConfigError, Lookup, Pattern, git_ignore_default, init_error, is_plain_relative, lookup,
};
use deordinal::code::code_diagnostics;
use deordinal::html::html_diagnostics;
use deordinal::markdown::{markdown_diagnostics, parse_directives_in, structural_prefix};
use deordinal::order::{order_errors, sort_errors};
use deordinal::syntax::SyntaxNode;
use deordinal::text::Text;
use deordinal::paths::normalize;
use deordinal::report::{
    ErrorReport, FileReport, FixPlan, decimal_string, exit_status, fix_plan, hint_line,
};
use deordinal::{Language, LineIndex, Rule, Severity, check, fix_unsafe};

#[test]
fn languages_by_extension() {
    assert_eq!(Language::from_path("docs/guide.md"), Some(Language::Markdown));
    assert_eq!(Language::from_path("index.htm"), Some(Language::Html));
    assert_eq!(Language::from_path("a/b.html"), Some(Language::Html));
    assert_eq!(Language::from_path("x.cjs"), Some(Language::JavaScript));
    assert_eq!(Language::from_path("x.jsx"), Some(Language::Jsx));
    assert_eq!(Language::from_path("x.mts"), Some(Language::TypeScript));
    assert_eq!(Language::from_path("x.tsx"), Some(Language::Tsx));
    assert_eq!(Language::from_path("x.pyi"), Some(Language::Python));
    assert_eq!(Language::from_path("README"), None);
    assert_eq!(Language::from_path("notes.txt"), None);
    assert_eq!(Language::from_path(".md"), None);
}

#[test]
fn diagnostics_are_ordered_by_start_then_rule() {
    let source = "1. Step 1\n2. two\n# 3. three\n";
    let ds = check(source, Language::Markdown);
    assert!(ds.len() >= 2, "{ds:?}");
    for pair in ds.windows(2) {
        assert!(
            pair[0].start < pair[1].start
                || (pair[0].start == pair[1].start && pair[0].rule.rank() <= pair[1].rule.rank()),
            "{ds:?}"
        );
    }
}

#[test]
fn file_ignore_leaves_only_errors() {
    let source = "<!-- deordinal-ignore-file: 手順書 -->\n# Step 1\n1. one\n<!-- deordinal-ignore-end -->\n";
    let ds = check(source, Language::Markdown);
    assert_eq!(ds.len(), 1, "{ds:?}");
    assert!(ds.iter().all(|d| d.severity == Severity::Error));
    assert_eq!(ds[0].message, "ignore-end has no matching ignore-start");
}

#[test]
fn ignored_range_silences_only_inside() {
    let source = "# Step 1\n<!-- deordinal-ignore-start: 理由 -->\n# Step 2\n<!-- deordinal-ignore-end -->\n# Step 3\n";
    let ds = check(source, Language::Markdown);
    let lines: Vec<_> = ds
        .iter()
        .map(|d| LineIndex::new(source).line_column(source, d.start).0)
        .collect();
    assert_eq!(lines, [1, 5]);
}

#[test]
fn every_directive_error_message() {
    let source = "<!-- deordinal-ignore-start: -->\n<!-- deordinal-ignore-end -->\n<!-- deordinal-ignore -->\n<!-- deordinal-ignore-file: late -->\n<!-- deordinal-ignore-file: -->\n<!-- deordinal-ignore-start: outer -->\n<!-- deordinal-ignore-start: inner -->\n";
    let messages: Vec<_> = check(source, Language::Markdown)
        .into_iter()
        .filter(|d| d.severity == Severity::Error)
        .map(|d| d.message)
        .collect();
    for expected in [
        "ignore-start requires a reason",
        "ignore-end has no matching ignore-start",
        "invalid or unsupported ignore directive",
        "ignore-file must be at the start of the document",
        "ignore-file requires a reason",
        "ignore-start cannot be nested",
        "ignore-start is not closed",
    ] {
        assert!(messages.iter().any(|m| m == expected), "{expected}: {messages:?}");
    }
}

#[test]
fn warning_messages_per_rule() {
    let ds = check("# Step 1\n# 1. x\n\n1. a\n2. b\n", Language::Markdown);
    for d in &ds {
        let expected = match d.rule {
            Rule::Prefix => "Leading ordering label",
            Rule::KeywordPrefix => "Leading phase label",
            Rule::OrderedList => "Ordered list used",
            Rule::Ignore => unreachable!(),
        };
        assert_eq!(d.message, expected);
        assert_eq!(d.severity, Severity::Warning);
    }
    assert_eq!(ds.len(), 3, "{ds:?}");
}

#[test]
fn fixing_is_idempotent_and_shortens() {
    for (source, language) in [
        ("# Step 1: Plan\n1. first\n2. second\n", Language::Markdown),
        ("// ① 準備\nlet x = 1; // Phase B: run\n", Language::JavaScript),
        ("# (a) note\n", Language::Python),
        ("<!-- 1: note -->\n", Language::Html),
    ] {
        let fixed = fix_unsafe(source, language).expect(source);
        assert!(fixed.chars().count() < source.chars().count());
        assert!(fix_unsafe(&fixed, language).is_none(), "{fixed}");
    }
}

#[test]
fn errors_block_fixes() {
    let source = "# Step 1: keep\n<!-- deordinal-ignore-start: open -->\n";
    assert!(check(source, Language::Markdown).iter().any(|d| d.severity == Severity::Error));
    assert!(fix_unsafe(source, Language::Markdown).is_none());
}

#[test]
fn label_without_following_text_is_not_fixed() {
    assert!(fix_unsafe("# Step 1\n", Language::Markdown).is_none());
    assert_eq!(check("# Step 1\n", Language::Markdown).len(), 1);
}

#[test]
fn line_columns_count_characters() {
    let text = "ab\ncdé\n\nxyz";
    let index = LineIndex::new(text);
    assert_eq!(index.line_column(text, 0), (1, 1));
    assert_eq!(index.line_column(text, 2), (1, 3));
    assert_eq!(index.line_column(text, 3), (2, 1));
    assert_eq!(index.line_column(text, 8), (3, 1));
    assert_eq!(index.line_column(text, 9), (4, 1));
    assert_eq!(index.line_column(text, text.len()), (4, 4));
}

#[test]
fn decimal_notation() {
    assert_eq!(decimal_string(0), "0");
    assert_eq!(decimal_string(7), "7");
    assert_eq!(decimal_string(10), "10");
    assert_eq!(decimal_string(4096), "4096");
    assert_eq!(decimal_string(usize::MAX), usize::MAX.to_string());
}

#[test]
fn error_reports_display() {
    let whole = ErrorReport::path("a/b.md", "Invalid UTF-8".to_string());
    assert_eq!(whole.line, 0);
    assert_eq!(whole.display(), "a/b.md: Invalid UTF-8");
    let placed = ErrorReport { path: "x.md".to_string(), line: 12, column: 3, message: "ignore: bad".to_string() };
    assert_eq!(placed.display(), "x.md:12:3: ignore: bad");
}

#[test]
fn file_report_splits_errors_and_groups_warnings() {
    let source = "# Step 1\n# Step 2\n<!-- deordinal-ignore -->\n# 1. x\n";
    let ds = check(source, Language::Markdown);
    let report = FileReport::new("doc.md", source, ds);
    assert_eq!(report.error_count(), 1);
    assert_eq!(report.warning_count(), 3);
    assert_eq!(report.warnings.len(), 2);
    assert_eq!(report.warnings[0].rule, "keyword-prefix");
    assert_eq!(report.warnings[0].locations, [(1, 3), (2, 3)]);
    assert_eq!(report.warnings[1].locations, [(4, 3)]);
    let errors = report.into_errors();
    assert_eq!(errors.len(), 1);
    assert_eq!(errors[0].display(), "doc.md:3:1: ignore: invalid or unsupported ignore directive");
}

#[test]
fn normalized_paths() {
    assert_eq!(normalize("."), ".");
    assert_eq!(normalize("./"), ".");
    assert_eq!(normalize(""), ".");
    assert_eq!(normalize("./src/./lib.rs"), "src/lib.rs");
    assert_eq!(normalize("a//b/"), "a/b");
    assert_eq!(normalize("/tmp/./x"), "/tmp/x");
    assert_eq!(normalize("../up"), "../up");
    assert_eq!(normalize("/"), "/");
}

#[test]
fn pattern_parsing_and_errors() {
    let p = Pattern::parse("cfg.json", 0, "!./././dist/**").ok().unwrap();
    assert!(p.exclude());
    assert_eq!(p.glob(), "dist/**");
    let p = Pattern::parse("cfg.json", 1, "src/**").ok().unwrap();
    assert!(!p.exclude());
    for bad in ["", "!", "!!dist", "../other/**", "a/../b", "/abs/**", "./"] {
        let err: ConfigError = Pattern::parse("cfg.json", 3, bad).err().expect(bad);
        assert_eq!(err.path, "cfg.json");
        assert_eq!(err.message, format!("includes[3]: 無効な相対 glob: {bad:?}"));
    }
    let err = Pattern::parse("cfg.json", 12, "[").err().unwrap();
    assert!(err.message.starts_with("includes[12]: "), "{}", err.message);
    assert!(err.message.contains("error parsing glob"), "{}", err.message);
    assert!(Pattern::parse("cfg.json", 0, "..foo/**").is_ok());
}

#[test]
fn patterns_match_paths_and_their_directories() {
    let p = Pattern::parse("c", 0, "dist").ok().unwrap();
    assert!(p.matches("dist/index.md"));
    assert!(p.matches("dist"));
    assert!(!p.matches("src/dist.md"));
    let p = Pattern::parse("c", 0, "**/*.generated.ts").ok().unwrap();
    assert!(p.matches("src/a.generated.ts"));
    assert!(!p.matches("src/a.ts"));
    let p = Pattern::parse("c", 0, "src/*").ok().unwrap();
    assert!(p.matches("src/a.md"));
    assert!(p.matches("src/nested/b.md"));
    assert!(!p.matches("lib/a.md"));
}

#[test]
fn last_matching_pattern_wins() {
    let patterns: Vec<String> = ["src/**", "dist/**", "!**/*.generated.ts", "!dist", "src/keep.generated.ts"]
        .iter()
        .map(|s| s.to_string())
        .collect();
    let config = Config::from_values("/r/deordinal.json", "/r".to_string(), true, Some(patterns)).ok().unwrap();
    assert!(config.has_includes());
    assert!(config.includes(Some("src/main.ts")));
    assert!(config.includes(Some("src/keep.generated.ts")));
    assert!(!config.includes(Some("src/file.generated.ts")));
    assert!(!config.includes(Some("dist/index.md")));
    assert!(!config.includes(Some("elsewhere.md")));
    assert!(!config.includes(None));
    let empty = Config::from_values("/r/deordinal.json", "/r".to_string(), false, Some(Vec::new())).ok().unwrap();
    assert!(!empty.includes(Some("file.md")));
    assert!(!empty.use_git_ignore_file);
    let all = Config::from_values("/r/deordinal.json", "/r".to_string(), true, None).ok().unwrap();
    assert!(!all.has_includes());
    assert!(all.includes(None));
    let default = Config::default_at("/r".to_string());
    assert!(default.includes(Some("x.md")) && default.use_git_ignore_file);
}

#[test]
fn first_bad_pattern_is_reported() {
    let patterns: Vec<String> = ["src/**", "../x", "["].iter().map(|s| s.to_string()).collect();
    let err = Config::from_values("/r/deordinal.json", "/r".to_string(), true, Some(patterns)).err().unwrap();
    assert_eq!(err.path, "/r/deordinal.json");
    assert_eq!(err.message, "includes[1]: 無効な相対 glob: \"../x\"");
}

#[test]
fn configuration_lookup_and_errors() {
    assert!(git_ignore_default());
    assert!(matches!(lookup("/r", false, false), Ok(Lookup::Continue)));
    assert!(matches!(lookup("/r", true, false), Ok(Lookup::Read { jsonc: false })));
    assert!(matches!(lookup("/r", false, true), Ok(Lookup::Read { jsonc: true })));
    let err = lookup("/r", true, true).err().unwrap();
    assert_eq!(err.path, "/r");
    assert!(err.message.contains("同じ場所"));
    let exists = init_error("/r/deordinal.jsonc", true, "File exists".to_string());
    assert_eq!(exists.message, "設定ファイルが既に存在します（上書きしません）");
    let other = init_error("/r/deordinal.jsonc", false, "Permission denied".to_string());
    assert_eq!(other.message, "Permission denied");
    assert_eq!(other.path, "/r/deordinal.jsonc");
}

#[test]
fn warning_lines_group_locations() {
    let mut source = String::new();
    for _ in 0..10 {
        source.push_str("# Step 1\n");
    }
    source.push_str("# 1. x\n");
    let report = FileReport::new("g.md", &source, check(&source, Language::Markdown));
    let lines = report.warning_lines("g.md");
    assert_eq!(
        lines,
        [
            "✖ g.md:1:3: keyword-prefix: Leading phase label (10 occurrences)",
            "  also at 2:3, 3:3, 4:3, 5:3, 6:3, 7:3, 8:3, 9:3",
            "  also at 10:3",
            "✖ g.md:11:3: prefix: Leading ordering label",
        ]
    );
}

#[test]
fn exit_status_by_counts() {
    assert_eq!(exit_status(0, 0), 0);
    assert_eq!(exit_status(0, 5), 1);
    assert_eq!(exit_status(1, 0), 2);
    assert_eq!(exit_status(3, 7), 2);
}

fn config_with(patterns: &[&str]) -> Config {
    let patterns: Vec<String> = patterns.iter().map(|s| s.to_string()).collect();
    Config::from_values("/p/deordinal.jsonc", "/p".to_string(), true, Some(patterns))
        .ok()
        .unwrap()
}

#[test]
fn ordered_globs_and_directory_exclusions_by_relative_path() {
    let config = config_with(&[
        "src/**",
        "scripts/**",
        "dist/**",
        "coverage/**",
        "!**/*.generated.ts",
        "!dist",
        "!coverage",
        "src/keep.generated.ts",
    ]);
    for name in [
        "src/main.ts",
        "src/nested/file.md",
        "src/keep.generated.ts",
        "scripts/run.py",
    ] {
        assert!(config.includes(Some(name)), "{name}");
    }
    for name in [
        "src/file.generated.ts",
        "dist/index.md",
        "coverage/report.md",
        "elsewhere.md",
    ] {
        assert!(!config.includes(Some(name)), "{name}");
    }
}

#[test]
fn empty_and_only_negative_includes_by_relative_path() {
    assert!(!config_with(&[]).includes(Some("file.md")));
    assert!(!config_with(&["!**/*.md"]).includes(Some("file.md")));
    assert!(config_with(&["**", "!**/*.md", "file.md"]).includes(Some("file.md")));
    assert!(config_with(&["./**"]).includes(Some("file.md")));
}

#[test]
fn bad_patterns_are_rejected() {
    for pattern in ["[", "../other/**", "!!dist", ""] {
        let patterns = vec![pattern.to_string()];
        let result = Config::from_values("/p/deordinal.json", "/p".to_string(), true, Some(patterns));
        let err = result.err().expect(pattern);
        assert_eq!(err.path, "/p/deordinal.json");
        assert!(err.message.starts_with("includes[0]: "), "{}", err.message);
    }
}

#[test]
fn markdown_fixes_leave_code_and_tables_alone() {
    let source = "# Step 1: Title\n```\n# Step 2: code\n```\n| 1. cell | x |\n| --- | --- |\n| 2. y | z |\n";
    assert_eq!(
        fix_unsafe(source, Language::Markdown).as_deref(),
        Some("# Title\n```\n# Step 2: code\n```\n| 1. cell | x |\n| --- | --- |\n| 2. y | z |\n")
    );
}

#[test]
fn code_fixes_leave_strings_alone() {
    let source = "x = \"# Step 1: s\"  # Step 2: note\n";
    assert_eq!(
        fix_unsafe(source, Language::Python).as_deref(),
        Some("x = \"# Step 1: s\"  # note\n")
    );
}

#[test]
fn extensions_as_std_reads_them() {
    for path in [
        "a.md", "dir/a.md", "a", ".md", ".hidden.md", "a.", "a.b.c", "dir.d/file", "dir/", "a.md/",
        "a.md/.", "./a.md", "a/..", "..", ".", "/", "", "//x.py", "x.tar.gz", "dir/.git", "a..b",
    ] {
        let expected = std::path::Path::new(path)
            .extension()
            .and_then(|e| e.to_str())
            .map(|e| e.to_string());
        let language = match expected.as_deref() {
            Some("md") => Some(Language::Markdown),
            Some("html" | "htm") => Some(Language::Html),
            Some("js" | "mjs" | "cjs") => Some(Language::JavaScript),
            Some("jsx") => Some(Language::Jsx),
            Some("ts" | "mts" | "cts") => Some(Language::TypeScript),
            Some("tsx") => Some(Language::Tsx),
            Some("py" | "pyi") => Some(Language::Python),
            _ => None,
        };
        assert_eq!(Language::from_path(path), language, "{path}");
    }
}

fn node(kind: &str, start: usize, end: usize, depth: u32) -> SyntaxNode {
    SyntaxNode { kind: kind.to_string(), start, end, depth, named: true }
}

#[test]
fn markdown_logic_over_given_events() {
    let source = "# Step 1: x
";
    let text = Text::new(source);
    let heading = vec![
        ("Start(Heading { level: H1, id: None, classes: [], attrs: [] })".to_string(), 0, 12),
        ("Text(Borrowed(\"Step 1: x\"))".to_string(), 2, 11),
        ("End(Heading(H1))".to_string(), 0, 12),
    ];
    let ds = markdown_diagnostics(&text, &heading);
    assert_eq!(ds.len(), 1, "{ds:?}");
    assert_eq!(ds[0].rule, "keyword-prefix");
    assert_eq!((ds[0].start, ds[0].fix), (2, Some((2, 10))));
    let in_table = vec![
        ("Start(Table([None]))".to_string(), 0, 12),
        ("Text(Borrowed(\"Step 1: x\"))".to_string(), 2, 11),
        ("End(Table)".to_string(), 0, 12),
    ];
    assert!(markdown_diagnostics(&text, &in_table).is_empty());
    let list = vec![("Start(List(Some(1)))".to_string(), 0, 12)];
    let ds = markdown_diagnostics(&Text::new("1. one\n"), &list);
    assert_eq!(ds.len(), 1);
    assert_eq!(ds[0].rule, "ordered-list");
}

#[test]
fn code_and_html_logic_over_given_nodes() {
    let text = Text::new("// Step 1: go\n");
    let nodes = vec![node("program", 0, 14, 0), node("comment", 0, 13, 1)];
    let ds = code_diagnostics(&text, &nodes, false);
    assert_eq!(ds.len(), 1, "{ds:?}");
    assert_eq!((ds[0].start, ds[0].fix), (3, Some((3, 11))));
    let strings = vec![node("program", 0, 14, 0), node("string", 0, 13, 1)];
    assert!(code_diagnostics(&text, &strings, false).is_empty());
    let html = Text::new("<!-- 1. x -->");
    let nodes = vec![node("document", 0, 13, 0), node("comment", 0, 13, 1)];
    let ds = html_diagnostics(&html, &nodes);
    assert_eq!(ds.len(), 1, "{ds:?}");
    assert_eq!((ds[0].start, ds[0].fix), (5, Some((5, 8))));
}

#[test]
fn fix_plans_and_hint() {
    assert_eq!(fix_plan(false, true, false), FixPlan::Leave);
    assert_eq!(fix_plan(true, false, true), FixPlan::Write);
    assert_eq!(fix_plan(false, true, true), FixPlan::Hint);
    assert_eq!(fix_plan(false, false, true), FixPlan::Leave);
    assert_eq!(
        hint_line(),
        "Hint: Re-run this check with `--write --unsafe` to apply supported fixes (review the diff)."
    );
}

#[test]
fn plain_relative_paths() {
    for path in ["", "a", "a/b.md", "src/.hidden", "a/..b"] {
        assert!(is_plain_relative(path), "{path}");
    }
    for path in ["/a", "a/", "a//b", "./a", "a/./b", "a/.", "."] {
        assert!(!is_plain_relative(path), "{path}");
    }
}

#[test]
fn large_globs_do_not_panic() {
    let long = "a".repeat(300_000);
    let p = Pattern::parse("c", 0, &long).ok().unwrap();
    assert!(p.matches(&long));
    let wild = "?".repeat(200_000);
    match Pattern::parse("c", 0, &wild) {
        Ok(p) => assert!(!p.matches("x")),
        Err(err) => assert!(err.message.starts_with("includes[0]: "), "{}", err.message),
    }
}

#[test]
fn structural_prefixes_join() {
    let parts = ["> ", "- ", "## ", "[x] ", "1. ", "  ", ""];
    for a in parts {
        for b in parts {
            let joined: Vec<char> = format!("{a}{b}").chars().collect();
            assert!(structural_prefix(&joined, 0, joined.len()), "{a:?} {b:?}");
        }
    }
    let text: Vec<char> = "> x".chars().collect();
    assert!(!structural_prefix(&text, 0, text.len()));
}

#[test]
fn warning_count_is_distinct_warnings() {
    let source = "# Step 1\n# Step 2\n# 1. x\n";
    let mut ds = check(source, Language::Markdown);
    let copies: Vec<_> = ds.iter().map(|d| d.clone()).collect();
    ds.extend(copies);
    ds.sort_by_key(|d| d.start);
    let report = FileReport::new("d.md", source, ds);
    assert_eq!(report.warning_count(), 3);
}

fn error_at(path: &str, line: usize, column: usize, message: &str) -> ErrorReport {
    ErrorReport { path: path.to_string(), line, column, message: message.to_string() }
}

#[test]
fn errors_sort_by_path_components() {
    let paths = ["b.md", "a.md", "a-b.md", "a/b.md", "../up.md", "./here.md", "/abs.md"];
    let errors: Vec<ErrorReport> = paths.iter().map(|p| ErrorReport::path(p, "x".to_string())).collect();
    let sorted: Vec<String> = sort_errors(errors).into_iter().map(|e| e.path).collect();
    assert_eq!(sorted, vec!["/abs.md", "./here.md", "../up.md", "a/b.md", "a-b.md", "a.md", "b.md"]);
    let mut by_std: Vec<std::path::PathBuf> = paths.iter().map(std::path::PathBuf::from).collect();
    by_std.sort();
    let by_std: Vec<String> = by_std.iter().map(|p| p.to_str().unwrap().to_string()).collect();
    assert_eq!(sorted, by_std);
}

#[test]
fn errors_sort_by_line_column_message_and_stay_stable() {
    let errors = vec![
        error_at("a.md", 10, 1, "late"),
        error_at("a.md", 2, 5, "b"),
        error_at("a.md", 2, 5, "a"),
        error_at("a.md", 2, 1, "first"),
        error_at("a//x.md", 0, 0, "one"),
        error_at("a/x.md", 0, 0, "one"),
    ];
    let sorted: Vec<(String, usize, usize, String)> = sort_errors(errors)
        .into_iter()
        .map(|e| (e.path, e.line, e.column, e.message))
        .collect();
    let expected = vec![
        ("a//x.md".to_string(), 0, 0, "one".to_string()),
        ("a/x.md".to_string(), 0, 0, "one".to_string()),
        ("a.md".to_string(), 2, 1, "first".to_string()),
        ("a.md".to_string(), 2, 5, "a".to_string()),
        ("a.md".to_string(), 2, 5, "b".to_string()),
        ("a.md".to_string(), 10, 1, "late".to_string()),
    ];
    assert_eq!(sorted, expected);
}

#[test]
fn error_order_of_two_reports() {
    assert_eq!(order_errors(&error_at("a/b.md", 0, 0, "x"), &error_at("a.md", 0, 0, "x")), -1);
    assert_eq!(order_errors(&error_at("a.md", 3, 0, "x"), &error_at("a.md", 2, 9, "x")), 1);
    assert_eq!(order_errors(&error_at("./a.md", 1, 1, "x"), &error_at("./a.md", 1, 1, "x")), 0);
    assert_eq!(order_errors(&error_at("a.md", 1, 1, "é"), &error_at("a.md", 1, 1, "z")), 1);
}

fn line_range(source: &str, line: &str) -> (usize, usize) {
    let start = source.find(line).unwrap();
    (start, start + line.len())
}

#[test]
fn directives_by_byte_range() {
    let source = "é\n<!-- deordinal-ignore-start: legacy -->\n1. x\n<!-- deordinal-ignore-end -->\nb\n";
    let open = line_range(source, "<!-- deordinal-ignore-start: legacy -->");
    let close = line_range(source, "<!-- deordinal-ignore-end -->");
    assert_eq!(open.0, 3);
    let (ranges, file_ignored, errors) = parse_directives_in(source, &vec![open, close]);
    assert_eq!(ranges, vec![(open.1, close.0)]);
    assert!(!file_ignored);
    assert!(errors.is_empty(), "{errors:?}");
}

#[test]
fn directive_errors_by_byte_range() {
    let source = "日本\n<!-- deordinal-ignore-start: -->\n<!-- deordinal-ignore-end -->\n";
    let open = line_range(source, "<!-- deordinal-ignore-start: -->");
    let close = line_range(source, "<!-- deordinal-ignore-end -->");
    let (ranges, file_ignored, errors) = parse_directives_in(source, &vec![open, close]);
    assert!(ranges.is_empty());
    assert!(!file_ignored);
    assert_eq!(errors.len(), 2, "{errors:?}");
    assert_eq!(errors[0].message, "ignore-start requires a reason");
    assert_eq!((errors[0].start, errors[0].end), open);
    assert_eq!(errors[0].severity, Severity::Error);
    assert_eq!(errors[1].message, "ignore-end has no matching ignore-start");
    assert_eq!((errors[1].start, errors[1].end), close);
}

#[test]
fn file_directive_by_byte_range() {
    let source = "<!-- deordinal-ignore-file: generated -->\n# 1. x\n";
    let line = line_range(source, "<!-- deordinal-ignore-file: generated -->");
    let (ranges, file_ignored, errors) = parse_directives_in(source, &vec![line]);
    assert!(ranges.is_empty());
    assert!(file_ignored);
    assert!(errors.is_empty(), "{errors:?}");
}
