//! Reports of a checked file: warnings grouped by rule and message, and
//! errors with their place.

use vstd::prelude::*;

use crate::diagnostic::{DiagView, Diagnostic, Rule, Severity, diag_views};
use crate::text::{char_at_byte, fits};
use crate::{LineIndex, line_column_of, line_feeds};

verus! {

/// The decimal digit `d`.
pub open spec fn digit(d: nat) -> char {
    seq!['0', '1', '2', '3', '4', '5', '6', '7', '8', '9'][d as int]
}

/// The decimal notation of `n`, without leading zeros.
pub open spec fn decimal(n: nat) -> Seq<char>
    decreases n,
{
    if n < 10 {
        seq![digit(n)]
    } else {
        decimal(n / 10).push(digit(n % 10))
    }
}

fn digit_char(d: usize) -> (c: char)
    requires
        d < 10,
    ensures
        c == digit(d as nat),
{
    if d == 0 {
        '0'
    } else if d == 1 {
        '1'
    } else if d == 2 {
        '2'
    } else if d == 3 {
        '3'
    } else if d == 4 {
        '4'
    } else if d == 5 {
        '5'
    } else if d == 6 {
        '6'
    } else if d == 7 {
        '7'
    } else if d == 8 {
        '8'
    } else {
        '9'
    }
}

/// The decimal notation of `n`.
pub fn decimal_string(n: usize) -> (r: String)
    ensures
        r@ == decimal(n as nat),
    decreases n,
{
    if n < 10 {
        let mut r = String::new();
        r.push(digit_char(n));
        proof {
            assert(r@ =~= seq![digit(n as nat)]);
        }
        r
    } else {
        let mut r = decimal_string(n / 10);
        r.push(digit_char(n % 10));
        r
    }
}

/// An error to report: a file, a place in it (line 0 for the file as a
/// whole) and a message. Errors are reported in the order of
/// [`crate::order::sort_errors`].
#[derive(Debug, PartialEq, Eq)]
pub struct ErrorReport {
    pub path: String,
    pub line: usize,
    pub column: usize,
    pub message: String,
}

/// An error report as plain values: path, line, column and message.
pub type ErrorView = (Seq<char>, int, int, Seq<char>);

/// How an error is shown: `path: message` for a file as a whole, else
/// `path:line:column: message`.
pub open spec fn error_text(e: ErrorView) -> Seq<char> {
    if e.1 == 0 {
        e.0 + ": "@ + e.3
    } else {
        e.0 + ":"@ + decimal(e.1 as nat) + ":"@ + decimal(e.2 as nat) + ": "@ + e.3
    }
}

impl ErrorReport {
    pub open spec fn view(&self) -> ErrorView {
        (self.path@, self.line as int, self.column as int, self.message@)
    }

    /// An error about the file at `path` as a whole.
    pub fn path(path: &str, message: String) -> (r: ErrorReport)
        ensures
            r@ == (path@, 0int, 0int, message@),
    {
        ErrorReport { path: path.to_owned(), line: 0, column: 0, message }
    }

    /// The report as one line of text; see [`error_text`].
    pub fn display(&self) -> (r: String)
        ensures
            r@ == error_text(self@),
    {
        let mut r = self.path.clone();
        if self.line == 0 {
            r.append(": ");
            r.append(self.message.as_str());
        } else {
            r.append(":");
            let line = decimal_string(self.line);
            r.append(line.as_str());
            r.append(":");
            let column = decimal_string(self.column);
            r.append(column.as_str());
            r.append(": ");
            r.append(self.message.as_str());
        }
        proof {
            reveal_strlit(": ");
            reveal_strlit(":");
        }
        r
    }
}

/// The warnings of one rule and message, with where they occur.
pub struct WarningGroup {
    pub rule: Rule,
    pub message: String,
    /// Line and column of each occurrence, in order.
    pub locations: Vec<(usize, usize)>,
}

/// A warning group as plain values: rule, message and locations.
pub type GroupView = (Rule, Seq<char>, Seq<(int, int)>);

impl WarningGroup {
    pub open spec fn view(&self) -> GroupView {
        (
            self.rule,
            self.message@,
            self.locations@.map_values(|p: (usize, usize)| (p.0 as int, p.1 as int)),
        )
    }
}

pub open spec fn group_views(v: Seq<WarningGroup>) -> Seq<GroupView> {
    v.map_values(|g: WarningGroup| g.view())
}

pub open spec fn error_views(v: Seq<ErrorReport>) -> Seq<ErrorView> {
    v.map_values(|e: ErrorReport| e.view())
}

/// The report of a file.
pub struct FileReport {
    pub warnings: Vec<WarningGroup>,
    pub errors: Vec<ErrorReport>,
}

/// A file report as plain values: warning groups and errors.
pub type ReportView = (Seq<GroupView>, Seq<ErrorView>);

/// The index of the first group of `gs`, from `i` on, for `rule` and
/// `message`.
pub open spec fn find_group(gs: Seq<GroupView>, rule: Rule, message: Seq<char>, i: int) -> Option<
    int,
>
    decreases gs.len() - i,
{
    if i < 0 || i >= gs.len() {
        None
    } else if gs[i].0 == rule && gs[i].1 == message {
        Some(i)
    } else {
        find_group(gs, rule, message, i + 1)
    }
}

/// The report after one more diagnostic of the text `s` of the file at
/// `path`. An error is added with its place and the message
/// `rule: message`. A warning joins the group of its rule and message, or
/// opens one; its place is added unless it repeats the group's last place.
pub open spec fn report_step(path: Seq<char>, s: Seq<char>, r: ReportView, d: DiagView) -> ReportView {
    let lc = line_column_of(s, char_at_byte(s, d.2).unwrap());
    match d.4 {
        Severity::Error => (r.0, r.1.push((path, lc.0, lc.1, d.0.spec_name() + ": "@ + d.1))),
        Severity::Warning => match find_group(r.0, d.0, d.1, 0) {
            Some(k) => if r.0[k].2.len() > 0 && r.0[k].2.last() == lc {
                r
            } else {
                (r.0.update(k, (r.0[k].0, r.0[k].1, r.0[k].2.push(lc))), r.1)
            },
            None => (r.0.push((d.0, d.1, seq![lc])), r.1),
        },
    }
}

/// The report of the diagnostics `ds` of the text `s` of the file at `path`.
pub open spec fn report_of(path: Seq<char>, s: Seq<char>, ds: Seq<DiagView>) -> ReportView
    decreases ds.len(),
{
    if ds.len() == 0 {
        (seq![], seq![])
    } else {
        report_step(path, s, report_of(path, s, ds.drop_last()), ds.last())
    }
}

/// The number of locations in the groups.
pub open spec fn location_count(gs: Seq<GroupView>) -> nat
    decreases gs.len(),
{
    if gs.len() == 0 {
        0
    } else {
        location_count(gs.drop_last()) + gs.last().2.len()
    }
}

impl FileReport {
    pub open spec fn view(&self) -> ReportView {
        (group_views(self.warnings@), error_views(self.errors@))
    }

    /// The report of the diagnostics of `source`, the text of the file at
    /// `path`; see [`report_of`].
    pub fn new(path: &str, source: &str, diagnostics: Vec<Diagnostic>) -> (r: FileReport)
        requires
            fits(source@),
            forall|k: int|
                0 <= k < diagnostics@.len() ==> char_at_byte(
                    source@,
                    (#[trigger] diagnostics@[k]).start as int,
                ) is Some,
        ensures
            r@ == report_of(path@, source@, diag_views(diagnostics@)),
    {
        let index = LineIndex::new(source);
        let ghost dv = diag_views(diagnostics@);
        let mut report = FileReport { warnings: Vec::new(), errors: Vec::new() };
        let mut k: usize = 0;
        proof {
            assert(dv.take(0) =~= Seq::<DiagView>::empty());
            assert(report@ == (Seq::<GroupView>::empty(), Seq::<ErrorView>::empty())) by {
                assert(group_views(report.warnings@) =~= Seq::<GroupView>::empty());
                assert(error_views(report.errors@) =~= Seq::<ErrorView>::empty());
            }
        }
        while k < diagnostics.len()
            invariant
                index.wf(),
                index@ == source@,
                dv == diag_views(diagnostics@),
                k <= diagnostics@.len(),
                forall|j: int|
                    0 <= j < diagnostics@.len() ==> char_at_byte(
                        source@,
                        (#[trigger] diagnostics@[j]).start as int,
                    ) is Some,
                report@ == report_of(path@, source@, dv.take(k as int)),
            decreases diagnostics@.len() - k,
        {
            let d = &diagnostics[k];
            proof {
                assert(dv.take(k + 1).drop_last() =~= dv.take(k as int));
                assert(dv.take(k + 1).last() == d.view());
            }
            let (line, column) = index.line_column(source, d.start);
            match d.severity {
                Severity::Error => {
                    let mut message = String::from_str(d.rule.name());
                    message.append(": ");
                    message.append(d.message.as_str());
                    let e = ErrorReport { path: path.to_owned(), line, column, message };
                    proof {
                        reveal_strlit(": ");
                        assert(error_views(report.errors@.push(e)) =~= error_views(report.errors@).push(
                            e@,
                        ));
                    }
                    report.errors.push(e);
                },
                Severity::Warning => {
                    let ghost gv = group_views(report.warnings@);
                    let mut g: usize = 0;
                    while g < report.warnings.len() && !(report.warnings[g].rule.same(&d.rule)
                        && report.warnings[g].message == d.message)
                        invariant
                            gv == group_views(report.warnings@),
                            g <= gv.len(),
                            find_group(gv, d.rule, d.message@, 0) == find_group(
                                gv,
                                d.rule,
                                d.message@,
                                g as int,
                            ),
                        decreases gv.len() - g,
                    {
                        g = g + 1;
                    }
                    if g < report.warnings.len() {
                        let n = report.warnings[g].locations.len();
                        let repeated = n > 0 && report.warnings[g].locations[n - 1].0 == line
                            && report.warnings[g].locations[n - 1].1 == column;
                        proof {
                            if n > 0 {
                                assert(gv[g as int].2.last() == (
                                    report.warnings@[g as int].locations@[n - 1].0 as int,
                                    report.warnings@[g as int].locations@[n - 1].1 as int,
                                ));
                            }
                        }
                        if !repeated {
                            let mut group = report.warnings.remove(g);
                            group.locations.push((line, column));
                            proof {
                                assert(group@.2 =~= gv[g as int].2.push((line as int, column as int)));
                            }
                            report.warnings.insert(g, group);
                            proof {
                                assert(group_views(report.warnings@) =~= gv.update(
                                    g as int,
                                    (gv[g as int].0, gv[g as int].1, gv[g as int].2.push(
                                        (line as int, column as int),
                                    )),
                                ));
                            }
                        }
                    } else {
                        let mut locations: Vec<(usize, usize)> = Vec::new();
                        locations.push((line, column));
                        let group = WarningGroup {
                            rule: d.rule,
                            message: d.message.clone(),
                            locations,
                        };
                        proof {
                            assert(group@.2 =~= seq![(line as int, column as int)]);
                            assert(group_views(report.warnings@.push(group)) =~= gv.push(group@));
                        }
                        report.warnings.push(group);
                    }
                },
            }
            k = k + 1;
        }
        proof {
            assert(dv.take(diagnostics@.len() as int) =~= dv);
        }
        report
    }

    /// The number of warnings: every location of every group.
    pub fn warning_count(&self) -> (r: usize)
        requires
            location_count(group_views(self.warnings@)) <= usize::MAX,
        ensures
            r == location_count(group_views(self.warnings@)),
    {
        let ghost gv = group_views(self.warnings@);
        let mut total: usize = 0;
        let mut k: usize = 0;
        proof {
            assert(gv.take(0) =~= Seq::<GroupView>::empty());
        }
        while k < self.warnings.len()
            invariant
                gv == group_views(self.warnings@),
                location_count(gv) <= usize::MAX,
                k <= gv.len(),
                total == location_count(gv.take(k as int)),
            decreases gv.len() - k,
        {
            proof {
                assert(gv.take(k + 1).drop_last() =~= gv.take(k as int));
                lemma_location_count_prefix(gv, k + 1);
            }
            total = total + self.warnings[k].locations.len();
            k = k + 1;
        }
        proof {
            assert(gv.take(gv.len() as int) =~= gv);
        }
        total
    }

    /// The number of errors.
    pub fn error_count(&self) -> (r: usize)
        ensures
            r == self.errors@.len(),
    {
        self.errors.len()
    }

    /// The errors of the report.
    pub fn into_errors(self) -> (r: Vec<ErrorReport>)
        ensures
            r@ == self.errors@,
    {
        self.errors
    }
}

/// A location as `line:column`.
pub open spec fn location_text(l: (int, int)) -> Seq<char> {
    decimal(l.0 as nat) + ":"@ + decimal(l.1 as nat)
}

/// The locations as text, separated by `, `.
pub open spec fn joined(ls: Seq<(int, int)>) -> Seq<char>
    decreases ls.len(),
{
    if ls.len() == 0 {
        seq![]
    } else if ls.len() == 1 {
        location_text(ls[0])
    } else {
        joined(ls.drop_last()) + ", "@ + location_text(ls.last())
    }
}

/// The `also at` lines for further locations, eight to a line.
pub open spec fn also_lines(ls: Seq<(int, int)>) -> Seq<Seq<char>>
    decreases ls.len(),
{
    if ls.len() == 0 {
        seq![]
    } else if ls.len() <= 8 {
        seq!["  also at "@ + joined(ls)]
    } else {
        seq!["  also at "@ + joined(ls.take(8))] + also_lines(ls.skip(8))
    }
}

/// The lines that show a warning group of the file at `path`: the first
/// location with rule and message, the number of occurrences where there
/// are more, and then the other locations.
pub open spec fn group_lines(path: Seq<char>, g: GroupView) -> Seq<Seq<char>> {
    let ls = g.2;
    let head = "✖ "@ + path + ":"@ + location_text(ls[0]) + ": "@ + g.0.spec_name() + ": "@ + g.1;
    if ls.len() == 1 {
        seq![head]
    } else {
        seq![head + " ("@ + decimal(ls.len()) + " occurrences)"@] + also_lines(ls.skip(1))
    }
}

/// The lines of all the groups, in order.
pub open spec fn report_lines(path: Seq<char>, gs: Seq<GroupView>) -> Seq<Seq<char>>
    decreases gs.len(),
{
    if gs.len() == 0 {
        seq![]
    } else {
        report_lines(path, gs.drop_last()) + group_lines(path, gs.last())
    }
}

pub open spec fn string_views(v: Seq<String>) -> Seq<Seq<char>> {
    v.map_values(|s: String| s@)
}

fn append_location(r: &mut String, l: (usize, usize))
    ensures
        final(r)@ == old(r)@ + location_text((l.0 as int, l.1 as int)),
{
    let line = decimal_string(l.0);
    r.append(line.as_str());
    r.append(":");
    let column = decimal_string(l.1);
    r.append(column.as_str());
    proof {
        reveal_strlit(":");
        assert(final(r)@ =~= old(r)@ + location_text((l.0 as int, l.1 as int)));
    }
}

impl FileReport {
    /// The lines that show the warnings of the file at `path`; see
    /// [`group_lines`].
    pub fn warning_lines(&self, path: &str) -> (r: Vec<String>)
        requires
            forall|k: int| 0 <= k < self.warnings@.len() ==> (#[trigger] self.warnings@[k]).locations@.len() > 0,
        ensures
            string_views(r@) == report_lines(path@, group_views(self.warnings@)),
    {
        let ghost gv = group_views(self.warnings@);
        let mut out: Vec<String> = Vec::new();
        let mut k: usize = 0;
        proof {
            assert(gv.take(0) =~= Seq::<GroupView>::empty());
            assert(string_views(out@) =~= Seq::<Seq<char>>::empty());
        }
        while k < self.warnings.len()
            invariant
                gv == group_views(self.warnings@),
                k <= gv.len(),
                forall|j: int| 0 <= j < self.warnings@.len() ==> (#[trigger] self.warnings@[j]).locations@.len() > 0,
                string_views(out@) == report_lines(path@, gv.take(k as int)),
            decreases gv.len() - k,
        {
            let g = &self.warnings[k];
            let ghost ls = gv[k as int].2;
            let n = g.locations.len();
            let mut head = String::from_str("✖ ");
            head.append(path);
            head.append(":");
            append_location(&mut head, g.locations[0]);
            head.append(": ");
            head.append(g.rule.name());
            head.append(": ");
            head.append(g.message.as_str());
            proof {
                reveal_strlit("✖ ");
                reveal_strlit(":");
                reveal_strlit(": ");
                assert(ls[0] == (g.locations@[0].0 as int, g.locations@[0].1 as int));
            }
            let ghost before = string_views(out@);
            if n == 1 {
                proof {
                    assert(string_views(out@.push(head)) =~= before.push(head@));
                }
                out.push(head);
            } else {
                head.append(" (");
                let count = decimal_string(n);
                head.append(count.as_str());
                head.append(" occurrences)");
                proof {
                    reveal_strlit(" (");
                    reveal_strlit(" occurrences)");
                    assert(string_views(out@.push(head)) =~= before.push(head@));
                }
                out.push(head);
                // Further locations, eight to a line.
                let mut i: usize = 1;
                proof {
                    assert(ls.skip(1) =~= ls.skip(i as int));
                }
                while i < n
                    invariant
                        gv == group_views(self.warnings@),
                        k < gv.len(),
                        ls == gv[k as int].2,
                        g == self.warnings@[k as int],
                        n == ls.len(),
                        1 <= i <= n,
                        string_views(out@) + also_lines(ls.skip(i as int)) == before + group_lines(
                            path@,
                            gv[k as int],
                        ),
                    decreases n - i,
                {
                    let end = if n - i > 8 {
                        i + 8
                    } else {
                        n
                    };
                    let mut line = String::from_str("  also at ");
                    let mut j: usize = i;
                    proof {
                        reveal_strlit("  also at ");
                        assert(ls.subrange(i as int, i as int) =~= Seq::<(int, int)>::empty());
                    }
                    while j < end
                        invariant
                            ls == gv[k as int].2,
                            gv == group_views(self.warnings@),
                            k < gv.len(),
                            g == self.warnings@[k as int],
                            n == ls.len(),
                            i <= j <= end <= n,
                            line@ == "  also at "@ + joined(ls.subrange(i as int, j as int)),
                        decreases end - j,
                    {
                        if j > i {
                            line.append(", ");
                        }
                        append_location(&mut line, g.locations[j]);
                        proof {
                            reveal_strlit(", ");
                            let sub = ls.subrange(i as int, j + 1);
                            assert(sub.drop_last() =~= ls.subrange(i as int, j as int));
                            assert(sub.last() == (g.locations@[j as int].0 as int, g.locations@[j as int].1 as int));
                            if j == i {
                                assert(sub =~= seq![sub[0]]);
                            }
                            assert(line@ =~= "  also at "@ + joined(sub));
                        }
                        j = j + 1;
                    }
                    proof {
                        let rest = ls.skip(i as int);
                        if rest.len() <= 8 {
                            assert(ls.subrange(i as int, end as int) =~= rest);
                            assert(ls.skip(end as int) =~= Seq::<(int, int)>::empty());
                        } else {
                            assert(ls.subrange(i as int, end as int) =~= rest.take(8));
                            assert(rest.skip(8) =~= ls.skip(end as int));
                        }
                        assert(string_views(out@.push(line)) =~= string_views(out@).push(line@));
                    }
                    out.push(line);
                    i = end;
                }
                proof {
                    assert(ls.skip(n as int) =~= Seq::<(int, int)>::empty());
                }
            }
            proof {
                assert(gv.take(k + 1).drop_last() =~= gv.take(k as int));
                assert(gv.take(k + 1).last() == gv[k as int]);
            }
            k = k + 1;
        }
        proof {
            assert(gv.take(gv.len() as int) =~= gv);
        }
        out
    }
}

/// What a check does about the fixes of a file.
#[derive(Debug, Clone, Copy, PartialEq, Eq, Structural)]
pub enum FixPlan {
    /// Write the fixed text.
    Write,
    /// Suggest writing the fixes.
    Hint,
    /// Nothing.
    Leave,
}

/// The plan for a file that fixing would change where `changes`: writing
/// where the check may write, else a hint where the file is a regular file
/// (writing through a symlink is refused), else nothing.
pub fn fix_plan(write: bool, regular_file: bool, changes: bool) -> (r: FixPlan)
    ensures
        r == if !changes {
            FixPlan::Leave
        } else if write {
            FixPlan::Write
        } else if regular_file {
            FixPlan::Hint
        } else {
            FixPlan::Leave
        },
{
    if !changes {
        FixPlan::Leave
    } else if write {
        FixPlan::Write
    } else if regular_file {
        FixPlan::Hint
    } else {
        FixPlan::Leave
    }
}

/// The hint printed once where some file could be fixed.
pub open spec fn hint_text() -> Seq<char> {
    "Hint: Re-run this check with `--write --unsafe` to apply supported fixes (review the diff)."@
}

pub fn hint_line() -> (r: String)
    ensures
        r@ == hint_text(),
{
    String::from_str("Hint: Re-run this check with `--write --unsafe` to apply supported fixes (review the diff).")
}

/// The exit status of a check: 2 where there are errors, else 1 where
/// there are warnings, else 0.
pub fn exit_status(errors: usize, warnings: usize) -> (r: u8)
    ensures
        r == if errors > 0 {
            2u8
        } else if warnings > 0 {
            1u8
        } else {
            0u8
        },
{
    if errors > 0 {
        2
    } else if warnings > 0 {
        1
    } else {
        0
    }
}

proof fn lemma_location_count_prefix(gs: Seq<GroupView>, k: int)
    requires
        0 <= k <= gs.len(),
    ensures
        location_count(gs.take(k)) <= location_count(gs),
    decreases gs.len() - k,
{
    if k < gs.len() {
        lemma_location_count_prefix(gs, k + 1);
        assert(gs.take(k + 1).drop_last() =~= gs.take(k));
    } else {
        assert(gs.take(k) =~= gs);
    }
}

// ---------------------------------------------------------------------------
// Counting warnings
// ---------------------------------------------------------------------------
/// The line and column of the byte offset `b`.
#[verifier::opaque]
pub open spec fn location_at(s: Seq<char>, b: int) -> (int, int) {
    line_column_of(s, char_at_byte(s, b).unwrap())
}

/// The line and column where a diagnostic starts.
pub open spec fn location_of(s: Seq<char>, d: DiagView) -> (int, int) {
    location_at(s, d.2)
}

/// Two warnings of one rule and message at one location.
pub open spec fn same_warning(s: Seq<char>, d: DiagView, e: DiagView) -> bool {
    &&& d.4 == Severity::Warning
    &&& e.4 == Severity::Warning
    &&& d.0 == e.0
    &&& d.1 == e.1
    &&& location_of(s, d) == location_of(s, e)
}

/// The warning at `k` repeats one before it.
pub open spec fn repeats(s: Seq<char>, ds: Seq<DiagView>, k: int) -> bool {
    exists|j: int| 0 <= j < k && #[trigger] same_warning(s, ds[j], ds[k])
}

/// The number of distinct warnings among `ds`, by rule, message and
/// location: the warnings that repeat none before them.
pub open spec fn distinct_warnings(s: Seq<char>, ds: Seq<DiagView>) -> nat
    decreases ds.len(),
{
    if ds.len() == 0 {
        0
    } else {
        distinct_warnings(s, ds.drop_last()) + if ds.last().4 == Severity::Warning && !repeats(
            s,
            ds,
            ds.len() - 1,
        ) {
            1nat
        } else {
            0nat
        }
    }
}

proof fn lemma_line_feeds_step(s: Seq<char>, n: int)
    requires
        0 <= n < s.len(),
    ensures
        line_feeds(s.take(n + 1)) == line_feeds(s.take(n)) + if s[n] == '\n' {
            1nat
        } else {
            0nat
        },
{
    assert(s.take(n + 1).drop_last() =~= s.take(n));
}

/// Between `i` and `e`: more line feeds where a line feed lies between,
/// else the same line start.
proof fn lemma_line_between(s: Seq<char>, i: int, e: int)
    requires
        0 <= i <= e <= s.len(),
    ensures
        line_feeds(s.take(i)) <= line_feeds(s.take(e)),
        (exists|m: int| i <= m < e && s[m] == '\n') ==> line_feeds(s.take(i)) < line_feeds(
            s.take(e),
        ),
        (forall|m: int| i <= m < e ==> s[m] != '\n') ==> crate::markdown::line_start(s, e)
            == crate::markdown::line_start(s, i),
    decreases e - i,
{
    if e > i {
        lemma_line_between(s, i, e - 1);
        lemma_line_feeds_step(s, e - 1);
        if exists|m: int| i <= m < e && s[m] == '\n' {
            let m = choose|m: int| i <= m < e && s[m] == '\n';
            if m < e - 1 {
                assert(i <= m < e - 1 && s[m] == '\n');
            }
        }
    }
}

/// Distinct characters have distinct lines and columns.
pub proof fn lemma_line_column_injective(s: Seq<char>, i: int, e: int)
    requires
        0 <= i < e <= s.len(),
    ensures
        line_column_of(s, i) != line_column_of(s, e),
{
    lemma_line_between(s, i, e);
    if !(exists|m: int| i <= m < e && s[m] == '\n') {
        assert forall|m: int| i <= m < e implies s[m] != '\n' by {
            if s[m] == '\n' {
                assert(i <= m < e && s[m] == '\n');
            }
        }
    }
}

/// Diagnostics at one location start at one byte.
proof fn lemma_same_location(s: Seq<char>, d: DiagView, e: DiagView)
    requires
        char_at_byte(s, d.2) is Some,
        char_at_byte(s, e.2) is Some,
        location_of(s, d) == location_of(s, e),
    ensures
        d.2 == e.2,
{
    reveal(location_at);
    let a = char_at_byte(s, d.2).unwrap();
    let b = char_at_byte(s, e.2).unwrap();
    assert(0 <= a <= s.len() && crate::text::byte_at(s, a) == d.2);
    assert(0 <= b <= s.len() && crate::text::byte_at(s, b) == e.2);
    if a < b {
        lemma_line_column_injective(s, a, b);
    } else if b < a {
        lemma_line_column_injective(s, b, a);
    }
}

proof fn lemma_location_count_update(gs: Seq<GroupView>, k: int, g: GroupView)
    requires
        0 <= k < gs.len(),
    ensures
        location_count(gs.update(k, g)) == location_count(gs) - gs[k].2.len() + g.2.len(),
    decreases gs.len(),
{
    if k < gs.len() - 1 {
        assert(gs.update(k, g).drop_last() =~= gs.drop_last().update(k, g));
        lemma_location_count_update(gs.drop_last(), k, g);
    } else {
        assert(gs.update(k, g).drop_last() =~= gs.drop_last());
    }
}

proof fn lemma_find_group(gs: Seq<GroupView>, rule: Rule, message: Seq<char>, i: int)
    requires
        0 <= i,
    ensures
        find_group(gs, rule, message, i) matches Some(k) ==> i <= k < gs.len() && gs[k].0 == rule
            && gs[k].1 == message,
        find_group(gs, rule, message, i) is None ==> forall|k: int|
            i <= k < gs.len() ==> !(gs[k].0 == rule && gs[k].1 == message),
    decreases gs.len() - i,
{
    if i < gs.len() && !(gs[i].0 == rule && gs[i].1 == message) {
        lemma_find_group(gs, rule, message, i + 1);
    }
}

/// `d` is a warning of the rule and message of `g`.
spec fn warns(d: DiagView, g: GroupView) -> bool {
    d.4 == Severity::Warning && d.0 == g.0 && d.1 == g.1
}

/// `ds[j]` is the warning of `g`'s rule and message that starts last.
#[verifier::opaque]
spec fn latest(ds: Seq<DiagView>, g: GroupView, j: int) -> bool {
    &&& 0 <= j < ds.len()
    &&& warns(ds[j], g)
    &&& forall|i: int| 0 <= i < ds.len() && warns(#[trigger] ds[i], g) ==> ds[i].2 <= ds[j].2
}

/// The group's last location is that of the last warning of its rule and
/// message.
#[verifier::opaque]
spec fn group_ok(s: Seq<char>, ds: Seq<DiagView>, g: GroupView) -> bool {
    g.2.len() > 0 && exists|j: int| latest(ds, g, j) && location_of(s, ds[j]) == g.2.last()
}

#[verifier::opaque]
spec fn keys_distinct(gs: Seq<GroupView>) -> bool {
    forall|k1: int, k2: int|
        0 <= k1 < k2 < gs.len() ==> !(#[trigger] gs[k1].0 == #[trigger] gs[k2].0 && gs[k1].1
            == gs[k2].1)
}

/// Each warning has a group.
#[verifier::opaque]
spec fn covered(ds: Seq<DiagView>, gs: Seq<GroupView>) -> bool {
    forall|i: int|
        0 <= i < ds.len() && (#[trigger] ds[i]).4 == Severity::Warning ==> exists|k: int|
            0 <= k < gs.len() && warns(ds[i], #[trigger] gs[k])
}

#[verifier::opaque]
spec fn groups_ok(s: Seq<char>, ds: Seq<DiagView>, gs: Seq<GroupView>) -> bool {
    forall|k: int| 0 <= k < gs.len() ==> group_ok(s, ds, #[trigger] gs[k])
}

/// Sorted by start, each start on a character boundary.
pub open spec fn sorted_starts(s: Seq<char>, ds: Seq<DiagView>) -> bool {
    &&& forall|k: int| 0 <= k < ds.len() ==> char_at_byte(s, (#[trigger] ds[k]).2) is Some
    &&& forall|j: int, k: int| 0 <= j <= k < ds.len() ==> #[trigger] ds[j].2 <= #[trigger] ds[k].2
}

proof fn lemma_latest_extend(ds: Seq<DiagView>, d: DiagView, g: GroupView, j: int)
    requires
        latest(ds, g, j),
        !warns(d, g) || d.2 <= ds[j].2,
    ensures
        latest(ds.push(d), g, j),
{
    reveal(latest);
    let e = ds.push(d);
    assert forall|i: int| 0 <= i < e.len() && warns(#[trigger] e[i], g) implies e[i].2 <= e[j].2 by {
        if i < ds.len() {
            assert(e[i] == ds[i]);
        }
    }
}

proof fn lemma_group_extend(s: Seq<char>, ds: Seq<DiagView>, d: DiagView, g: GroupView)
    requires
        group_ok(s, ds, g),
        !warns(d, g),
    ensures
        group_ok(s, ds.push(d), g),
{
    reveal(group_ok);
    reveal(latest);
    let j = choose|j: int| latest(ds, g, j) && location_of(s, ds[j]) == g.2.last();
    lemma_latest_extend(ds, d, g, j);
    assert(ds.push(d)[j] == ds[j]);
}

proof fn lemma_groups_extend(s: Seq<char>, ds: Seq<DiagView>, d: DiagView, gs: Seq<GroupView>, skip: int)
    requires
        groups_ok(s, ds, gs),
        forall|k: int| 0 <= k < gs.len() && k != skip ==> !warns(d, #[trigger] gs[k]),
    ensures
        forall|k: int| 0 <= k < gs.len() && k != skip ==> group_ok(s, ds.push(d), #[trigger] gs[k]),
{
    reveal(groups_ok);
    assert forall|k: int| 0 <= k < gs.len() && k != skip implies group_ok(s, ds.push(d), #[trigger] gs[k]) by {
        lemma_group_extend(s, ds, d, gs[k]);
    }
}

proof fn lemma_covered_extend(ds: Seq<DiagView>, d: DiagView, gs: Seq<GroupView>, k: int, g: GroupView)
    requires
        covered(ds, gs),
        0 <= k <= gs.len(),
        k < gs.len() ==> gs[k].0 == g.0 && gs[k].1 == g.1,
        d.4 == Severity::Warning ==> d.0 == g.0 && d.1 == g.1,
    ensures
        covered(ds.push(d), if k < gs.len() { gs.update(k, g) } else { gs.push(g) }),
{
    reveal(covered);
    let ng = if k < gs.len() { gs.update(k, g) } else { gs.push(g) };
    let e = ds.push(d);
    assert forall|i: int| 0 <= i < e.len() && (#[trigger] e[i]).4 == Severity::Warning implies exists|m: int|
        0 <= m < ng.len() && warns(e[i], #[trigger] ng[m]) by {
        if i < ds.len() {
            assert(e[i] == ds[i]);
            let m = choose|m: int| 0 <= m < gs.len() && warns(ds[i], #[trigger] gs[m]);
            if m == k {
                assert(warns(e[i], ng[k]));
            } else {
                assert(ng[m] == gs[m]);
                assert(warns(e[i], ng[m]));
            }
        } else {
            assert(warns(e[i], ng[k]));
        }
    }
}

/// A warning whose rule and message have no group repeats no earlier one.
#[verifier::rlimit(30)]
proof fn lemma_repeats_none(s: Seq<char>, ds: Seq<DiagView>, gs: Seq<GroupView>)
    requires
        ds.len() > 0,
        covered(ds.drop_last(), gs),
        forall|m: int| 0 <= m < gs.len() ==> !(#[trigger] gs[m].0 == ds.last().0 && gs[m].1 == ds.last().1),
    ensures
        !repeats(s, ds, ds.len() - 1),
{
    reveal(covered);
    let n = ds.len() - 1;
    let prev = ds.drop_last();
    if repeats(s, ds, n) {
        let j = choose|j: int| 0 <= j < n && #[trigger] same_warning(s, ds[j], ds[n]);
        assert(prev[j] == ds[j]);
        let m = choose|m: int| 0 <= m < gs.len() && warns(prev[j], #[trigger] gs[m]);
        assert(gs[m].0 == ds.last().0);
    }
}

/// A warning whose rule and message have a group repeats an earlier one
/// exactly where it is at the group's last location.
#[verifier::rlimit(30)]
proof fn lemma_repeats_some(s: Seq<char>, ds: Seq<DiagView>, g: GroupView)
    requires
        ds.len() > 0,
        sorted_starts(s, ds),
        group_ok(s, ds.drop_last(), g),
        ds.last().4 == Severity::Warning,
        g.0 == ds.last().0 && g.1 == ds.last().1,
    ensures
        g.2.len() > 0,
        repeats(s, ds, ds.len() - 1) <==> g.2.last() == location_of(s, ds.last()),
        g.2.last() == location_of(s, ds.last()) ==> group_ok(s, ds, g),
{
    reveal(group_ok);
    reveal(latest);
    let n = ds.len() - 1;
    let prev = ds.drop_last();
    let d = ds[n];
    assert(prev.push(d) =~= ds);
    let w = choose|j: int| latest(prev, g, j) && location_of(s, prev[j]) == g.2.last();
    assert(prev[w] == ds[w]);
    if g.2.last() == location_of(s, d) {
        assert(same_warning(s, ds[w], ds[n]));
        lemma_same_location(s, ds[w], d);
        lemma_latest_extend(prev, d, g, w);
    }
    if repeats(s, ds, n) {
        let j = choose|j: int| 0 <= j < n && #[trigger] same_warning(s, ds[j], ds[n]);
        assert(prev[j] == ds[j]);
        assert(warns(prev[j], g));
        assert(ds[j].2 <= ds[w].2);
        assert(ds[w].2 <= ds[n].2);
        lemma_same_location(s, ds[j], d);
    }
}

/// The invariants of the report of `ds`.
spec fn report_inv(s: Seq<char>, ds: Seq<DiagView>, gs: Seq<GroupView>) -> bool {
    &&& keys_distinct(gs)
    &&& covered(ds, gs)
    &&& groups_ok(s, ds, gs)
    &&& location_count(gs) == distinct_warnings(s, ds)
}

proof fn lemma_step_error(s: Seq<char>, prev: Seq<DiagView>, d: DiagView, gs: Seq<GroupView>)
    requires
        report_inv(s, prev, gs),
        d.4 == Severity::Error,
    ensures
        report_inv(s, prev.push(d), gs),
{
    reveal(groups_ok);
    reveal(covered);
    let ds = prev.push(d);
    assert(ds.drop_last() =~= prev);
    lemma_groups_extend(s, prev, d, gs, -1);
    assert forall|i: int| 0 <= i < ds.len() && (#[trigger] ds[i]).4 == Severity::Warning implies exists|m: int|
        0 <= m < gs.len() && warns(ds[i], #[trigger] gs[m]) by {
        assert(ds[i] == prev[i]);
    }
}

proof fn lemma_step_repeat(s: Seq<char>, prev: Seq<DiagView>, d: DiagView, gs: Seq<GroupView>, k: int)
    requires
        report_inv(s, prev, gs),
        d.4 == Severity::Warning,
        0 <= k < gs.len(),
        gs[k].0 == d.0 && gs[k].1 == d.1,
        group_ok(s, prev.push(d), gs[k]),
        repeats(s, prev.push(d), prev.len() as int),
    ensures
        report_inv(s, prev.push(d), gs),
{
    reveal(keys_distinct);
    reveal(groups_ok);
    let ds = prev.push(d);
    assert(ds.drop_last() =~= prev);
    assert forall|m: int| 0 <= m < gs.len() && m != k implies !warns(d, #[trigger] gs[m]) by {
        if m < k {
            assert(!(gs[m].0 == gs[k].0 && gs[m].1 == gs[k].1));
        } else {
            assert(!(gs[k].0 == gs[m].0 && gs[k].1 == gs[m].1));
        }
    }
    lemma_groups_extend(s, prev, d, gs, k);
    lemma_covered_extend(prev, d, gs, k, gs[k]);
    assert(gs.update(k, gs[k]) =~= gs);
}

#[verifier::rlimit(30)]
proof fn lemma_step_append(s: Seq<char>, prev: Seq<DiagView>, d: DiagView, gs: Seq<GroupView>, k: int)
    requires
        report_inv(s, prev, gs),
        sorted_starts(s, prev.push(d)),
        d.4 == Severity::Warning,
        0 <= k < gs.len(),
        gs[k].0 == d.0 && gs[k].1 == d.1,
        !repeats(s, prev.push(d), prev.len() as int),
    ensures
        report_inv(s, prev.push(d), gs.update(k, (gs[k].0, gs[k].1, gs[k].2.push(location_of(s, d))))),
{
    reveal(keys_distinct);
    reveal(groups_ok);
    reveal(group_ok);
    reveal(latest);
    let ds = prev.push(d);
    let n = prev.len() as int;
    assert(ds.drop_last() =~= prev);
    let ng = (gs[k].0, gs[k].1, gs[k].2.push(location_of(s, d)));
    let r = gs.update(k, ng);
    assert forall|m: int| 0 <= m < gs.len() && m != k implies !warns(d, #[trigger] gs[m]) by {
        if m < k {
            assert(!(gs[m].0 == gs[k].0 && gs[m].1 == gs[k].1));
        } else {
            assert(!(gs[k].0 == gs[m].0 && gs[k].1 == gs[m].1));
        }
    }
    lemma_groups_extend(s, prev, d, gs, k);
    lemma_covered_extend(prev, d, gs, k, ng);
    lemma_location_count_update(gs, k, ng);
    assert(ds[n] == d);
    assert forall|i: int| 0 <= i < ds.len() && warns(#[trigger] ds[i], ng) implies ds[i].2 <= ds[n].2 by {}
    assert(latest(ds, ng, n));
    assert(group_ok(s, ds, ng));
    assert forall|m: int| 0 <= m < r.len() implies group_ok(s, ds, #[trigger] r[m]) by {
        if m != k {
            assert(r[m] == gs[m]);
        }
    }
    assert forall|k1: int, k2: int| 0 <= k1 < k2 < r.len() implies !(#[trigger] r[k1].0
        == #[trigger] r[k2].0 && r[k1].1 == r[k2].1) by {
        assert(r[k1].0 == gs[k1].0 && r[k1].1 == gs[k1].1);
        assert(r[k2].0 == gs[k2].0 && r[k2].1 == gs[k2].1);
    }
}

proof fn lemma_new_latest(prev: Seq<DiagView>, d: DiagView, gs: Seq<GroupView>, ng: GroupView)
    requires
        covered(prev, gs),
        d.4 == Severity::Warning,
        ng.0 == d.0 && ng.1 == d.1,
        forall|m: int| 0 <= m < gs.len() ==> !(#[trigger] gs[m].0 == d.0 && gs[m].1 == d.1),
    ensures
        latest(prev.push(d), ng, prev.len() as int),
{
    reveal(covered);
    reveal(latest);
    let ds = prev.push(d);
    let n = prev.len() as int;
    assert(ds[n] == d);
    assert forall|i: int| 0 <= i < ds.len() && warns(#[trigger] ds[i], ng) implies ds[i].2 <= ds[n].2 by {
        if i < n {
            assert(ds[i] == prev[i]);
            let m = choose|m: int| 0 <= m < gs.len() && warns(prev[i], #[trigger] gs[m]);
            assert(gs[m].0 == d.0);
        }
    }
}

#[verifier::rlimit(30)]
proof fn lemma_step_new(s: Seq<char>, prev: Seq<DiagView>, d: DiagView, gs: Seq<GroupView>)
    requires
        report_inv(s, prev, gs),
        d.4 == Severity::Warning,
        forall|m: int| 0 <= m < gs.len() ==> !(#[trigger] gs[m].0 == d.0 && gs[m].1 == d.1),
        !repeats(s, prev.push(d), prev.len() as int),
    ensures
        report_inv(s, prev.push(d), gs.push((d.0, d.1, seq![location_of(s, d)]))),
{
    reveal(keys_distinct);
    reveal(groups_ok);
    reveal(group_ok);
    let ds = prev.push(d);
    let n = prev.len() as int;
    assert(ds.drop_last() =~= prev);
    let ng = (d.0, d.1, seq![location_of(s, d)]);
    let r = gs.push(ng);
    assert forall|m: int| 0 <= m < gs.len() implies !warns(d, #[trigger] gs[m]) by {}
    lemma_groups_extend(s, prev, d, gs, -1);
    lemma_covered_extend(prev, d, gs, gs.len() as int, ng);
    lemma_new_latest(prev, d, gs, ng);
    assert(ds[n] == d);
    assert(group_ok(s, ds, ng));
    assert forall|m: int| 0 <= m < r.len() implies group_ok(s, ds, #[trigger] r[m]) by {
        if m < gs.len() {
            assert(r[m] == gs[m]);
        }
    }
    assert forall|k1: int, k2: int| 0 <= k1 < k2 < r.len() implies !(#[trigger] r[k1].0
        == #[trigger] r[k2].0 && r[k1].1 == r[k2].1) by {
        assert(r[k1] == gs[k1]);
        if k2 < gs.len() {
            assert(r[k2] == gs[k2]);
        }
    }
    assert(r.drop_last() =~= gs);
}

proof fn lemma_report_inv(path: Seq<char>, s: Seq<char>, ds: Seq<DiagView>)
    requires
        sorted_starts(s, ds),
    ensures
        report_inv(s, ds, report_of(path, s, ds).0),
    decreases ds.len(),
{
    reveal(location_at);
    if ds.len() == 0 {
        reveal(keys_distinct);
        reveal(covered);
        reveal(groups_ok);
    }
    if ds.len() > 0 {
        let n = ds.len() - 1;
        let prev = ds.drop_last();
        let d = ds[n];
        assert(prev.push(d) =~= ds);
        assert(sorted_starts(s, prev)) by {
            assert forall|k: int| 0 <= k < prev.len() implies char_at_byte(s, (#[trigger] prev[k]).2) is Some by {
                assert(prev[k] == ds[k]);
            }
            assert forall|j: int, k: int| 0 <= j <= k < prev.len() implies #[trigger] prev[j].2 <= #[trigger] prev[k].2 by {
                assert(prev[j] == ds[j] && prev[k] == ds[k]);
            }
        }
        lemma_report_inv(path, s, prev);
        let gs = report_of(path, s, prev).0;
        let r = report_of(path, s, ds).0;
        if d.4 == Severity::Error {
            assert(r == gs);
            lemma_step_error(s, prev, d, gs);
        } else {
            lemma_find_group(gs, d.0, d.1, 0);
            match find_group(gs, d.0, d.1, 0) {
                Some(k) => {
                    assert(group_ok(s, prev, gs[k])) by {
                        reveal(groups_ok);
                    }
                    lemma_repeats_some(s, ds, gs[k]);
                    if gs[k].2.len() > 0 && gs[k].2.last() == location_of(s, d) {
                        assert(r == gs);
                        lemma_step_repeat(s, prev, d, gs, k);
                    } else {
                        lemma_step_append(s, prev, d, gs, k);
                        assert(r == gs.update(k, (gs[k].0, gs[k].1, gs[k].2.push(location_of(s, d)))));
                    }
                },
                None => {
                    lemma_repeats_none(s, ds, gs);
                    lemma_step_new(s, prev, d, gs);
                    assert(r == gs.push((d.0, d.1, seq![location_of(s, d)])));
                },
            }
        }
    }
}

/// Where the diagnostics come sorted by start, as `check` returns them, the
/// report counts each distinct warning once: by rule, message and location.
pub proof fn lemma_warning_count_distinct(path: Seq<char>, s: Seq<char>, ds: Seq<DiagView>)
    requires
        sorted_starts(s, ds),
    ensures
        location_count(report_of(path, s, ds).0) == distinct_warnings(s, ds),
{
    lemma_report_inv(path, s, ds);
}

} // verus!
