use deordinal::report::FileReport;
use deordinal::{Language, check};

#[test]
fn repeated_locations_are_counted_once_without_hiding_distinct_ones() {
    let source = "# 1. First\n# 2. Second\n";
    let mut diagnostics = check(source, Language::Markdown);
    diagnostics.insert(1, diagnostics[0].clone());
    let report = FileReport::new("example.md", source, diagnostics);
    assert_eq!(report.warning_count(), 2);
    assert_eq!(report.warnings.len(), 1);
    assert_eq!(report.warnings[0].locations, [(1, 3), (2, 3)]);
}
