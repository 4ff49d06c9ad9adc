//! Finds ordering labels (`1.`, `(a)`, `①`, `Step 1:`) at the start of prose
//! in Markdown, HTML comments and code comments, and removes them where that
//! is safe.

use vstd::prelude::*;

pub mod code;
pub mod config;
pub mod diagnostic;
pub mod fix;
pub mod html;
pub mod markdown;
pub mod order;
pub mod paths;
pub mod report;
pub mod rules;
pub mod sorting;
pub mod syntax;
pub mod text;

pub use diagnostic::{Diagnostic, KEYWORD_PREFIX, ORDERED_LIST, ORDINAL_PREFIX, Rule, Severity};
pub use rules::check_line;

use diagnostic::{DiagView, diag_views};
use sorting::sort_by;
use syntax::Grammar;
use markdown::line_start;
use text::{Text, char_at_byte, fits};

verus! {

/// The kinds of file that are checked.
#[derive(Debug, Clone, Copy, PartialEq, Eq, Structural)]
pub enum Language {
    Markdown,
    Html,
    JavaScript,
    Jsx,
    TypeScript,
    Tsx,
    Python,
}

/// The file name of a path: its last segment between slashes, empty and
/// `.` segments left out; none where there is none or it is `..`.
pub open spec fn file_name(path: Seq<char>) -> Option<Seq<char>> {
    let segs = paths::kept_segments(path);
    if segs.len() == 0 || segs.last() == seq!['.', '.'] {
        None
    } else {
        Some(segs.last())
    }
}

/// The index of the last `.` of `n` before `e`, or -1.
pub open spec fn last_dot(n: Seq<char>, e: int) -> int
    decreases e,
{
    if e <= 0 {
        -1
    } else if n[e - 1] == '.' {
        e - 1
    } else {
        last_dot(n, e - 1)
    }
}

/// The extension of a path, as `std::path::Path::extension` gives it on
/// Unix: the text of the file name after its last `.`, none where the file
/// name has no `.` but a leading one.
pub open spec fn path_extension(path: Seq<char>) -> Option<Seq<char>> {
    match file_name(path) {
        Some(n) => if last_dot(n, n.len() as int) > 0 {
            Some(n.skip(last_dot(n, n.len() as int) + 1))
        } else {
            None
        },
        None => None,
    }
}

/// The extension of `path`; see [`path_extension`].
fn extension_of(path: &str) -> (r: Option<Vec<char>>)
    ensures
        match r {
            Some(e) => path_extension(path@) == Some(e@),
            None => path_extension(path@) is None,
        },
{
    let segs = paths::segments(path);
    if segs.len() == 0 {
        return None;
    }
    let name = &segs[segs.len() - 1];
    proof {
        assert(paths::seg_views(segs@).last() == name@);
        if name@.len() == 2 && name@[0] == '.' && name@[1] == '.' {
            assert(name@ =~= seq!['.', '.']);
        }
    }
    if name.len() == 2 && name[0] == '.' && name[1] == '.' {
        return None;
    }
    let mut d = name.len();
    while d > 0 && name[d - 1] != '.'
        invariant
            d <= name@.len(),
            last_dot(name@, name@.len() as int) == last_dot(name@, d as int),
        decreases d,
    {
        d = d - 1;
    }
    // `d - 1` is the last dot, where `d > 0`.
    if d <= 1 {
        return None;
    }
    let mut e: Vec<char> = Vec::new();
    let mut i = d;
    while i < name.len()
        invariant
            d <= i <= name@.len(),
            e@ == name@.subrange(d as int, i as int),
        decreases name@.len() - i,
    {
        e.push(name[i]);
        proof {
            assert(name@.subrange(d as int, i + 1) =~= name@.subrange(d as int, i as int).push(name@[i as int]));
        }
        i = i + 1;
    }
    proof {
        assert(name@.subrange(d as int, name@.len() as int) =~= name@.skip(d as int));
    }
    Some(e)
}

/// The language of files with the extension `e`.
pub open spec fn language_of_extension(e: Seq<char>) -> Option<Language> {
    if e == "md"@ {
        Some(Language::Markdown)
    } else if e == "html"@ || e == "htm"@ {
        Some(Language::Html)
    } else if e == "js"@ || e == "mjs"@ || e == "cjs"@ {
        Some(Language::JavaScript)
    } else if e == "jsx"@ {
        Some(Language::Jsx)
    } else if e == "ts"@ || e == "mts"@ || e == "cts"@ {
        Some(Language::TypeScript)
    } else if e == "tsx"@ {
        Some(Language::Tsx)
    } else if e == "py"@ || e == "pyi"@ {
        Some(Language::Python)
    } else {
        None
    }
}

/// Each supported extension selects its language and no other does: `md`
/// Markdown; `html`, `htm` HTML; `js`, `mjs`, `cjs` JavaScript; `jsx` JSX;
/// `ts`, `mts`, `cts` TypeScript; `tsx` TSX; `py`, `pyi` Python.
pub proof fn lemma_extension_languages(e: Seq<char>)
    ensures
        (language_of_extension(e) == Some(Language::Markdown)) == (e == seq!['m', 'd']),
        (language_of_extension(e) == Some(Language::Html)) == (e == seq!['h', 't', 'm', 'l'] || e
            == seq!['h', 't', 'm']),
        (language_of_extension(e) == Some(Language::JavaScript)) == (e == seq!['j', 's'] || e
            == seq!['m', 'j', 's'] || e == seq!['c', 'j', 's']),
        (language_of_extension(e) == Some(Language::Jsx)) == (e == seq!['j', 's', 'x']),
        (language_of_extension(e) == Some(Language::TypeScript)) == (e == seq!['t', 's'] || e
            == seq!['m', 't', 's'] || e == seq!['c', 't', 's']),
        (language_of_extension(e) == Some(Language::Tsx)) == (e == seq!['t', 's', 'x']),
        (language_of_extension(e) == Some(Language::Python)) == (e == seq!['p', 'y'] || e
            == seq!['p', 'y', 'i']),
{
    reveal_strlit("md");
    reveal_strlit("html");
    reveal_strlit("htm");
    reveal_strlit("js");
    reveal_strlit("mjs");
    reveal_strlit("cjs");
    reveal_strlit("jsx");
    reveal_strlit("ts");
    reveal_strlit("mts");
    reveal_strlit("cts");
    reveal_strlit("tsx");
    reveal_strlit("py");
    reveal_strlit("pyi");
    assert("md"@ =~= seq!['m', 'd']);
    assert("html"@ =~= seq!['h', 't', 'm', 'l']);
    assert("htm"@ =~= seq!['h', 't', 'm']);
    assert("js"@ =~= seq!['j', 's']);
    assert("mjs"@ =~= seq!['m', 'j', 's']);
    assert("cjs"@ =~= seq!['c', 'j', 's']);
    assert("jsx"@ =~= seq!['j', 's', 'x']);
    assert("ts"@ =~= seq!['t', 's']);
    assert("mts"@ =~= seq!['m', 't', 's']);
    assert("cts"@ =~= seq!['c', 't', 's']);
    assert("tsx"@ =~= seq!['t', 's', 'x']);
    assert("py"@ =~= seq!['p', 'y']);
    assert("pyi"@ =~= seq!['p', 'y', 'i']);
}

fn str_is(a: &Vec<char>, b: &str) -> (r: bool)
    ensures
        r == (a@ == b@),
{
    diagnostic::chars_equal(a, &text::chars_of(b))
}

impl Language {
    /// The language of the file at `path`, by its extension.
    pub fn from_path(path: &str) -> (r: Option<Language>)
        ensures
            r == (match path_extension(path@) {
                Some(e) => language_of_extension(e),
                None => None,
            }),
    {
        let e = match extension_of(path) {
            Some(e) => e,
            None => return None,
        };
        if str_is(&e, "md") {
            Some(Language::Markdown)
        } else if str_is(&e, "html") || str_is(&e, "htm") {
            Some(Language::Html)
        } else if str_is(&e, "js") || str_is(&e, "mjs") || str_is(&e, "cjs") {
            Some(Language::JavaScript)
        } else if str_is(&e, "jsx") {
            Some(Language::Jsx)
        } else if str_is(&e, "ts") || str_is(&e, "mts") || str_is(&e, "cts") {
            Some(Language::TypeScript)
        } else if str_is(&e, "tsx") {
            Some(Language::Tsx)
        } else if str_is(&e, "py") || str_is(&e, "pyi") {
            Some(Language::Python)
        } else {
            None
        }
    }
}

/// The grammar that code of a language is parsed with.
pub open spec fn grammar_of(language: Language) -> Grammar {
    match language {
        Language::TypeScript => Grammar::TypeScript,
        Language::Tsx => Grammar::Tsx,
        Language::Python => Grammar::Python,
        Language::Html => Grammar::Html,
        _ => Grammar::JavaScript,
    }
}

fn grammar(language: Language) -> (g: Grammar)
    ensures
        g == grammar_of(language),
{
    match language {
        Language::TypeScript => Grammar::TypeScript,
        Language::Tsx => Grammar::Tsx,
        Language::Python => Grammar::Python,
        Language::Html => Grammar::Html,
        _ => Grammar::JavaScript,
    }
}

/// The diagnostics of a text in a language, in the order that they are found.
pub open spec fn findings(s: Seq<char>, language: Language) -> Seq<DiagView> {
    match language {
        Language::Markdown => markdown::markdown_check(s),
        Language::Html => html::html_check(s),
        _ => code::code_check(s, grammar_of(language)),
    }
}

/// Orders diagnostics by start, then by rule.
pub open spec fn diag_le() -> spec_fn(DiagView, DiagView) -> bool {
    |a: DiagView, b: DiagView| a.2 < b.2 || (a.2 == b.2 && a.0.spec_rank() <= b.0.spec_rank())
}

/// The diagnostics of a text in a language: those found, in a stable order
/// by start and rule.
pub open spec fn spec_check(s: Seq<char>, language: Language) -> Seq<DiagView> {
    sort_by(findings(s, language), diag_le())
}

fn diag_before(a: &Diagnostic, b: &Diagnostic) -> (r: bool)
    ensures
        r == diag_le()(a.view(), b.view()),
{
    a.start < b.start || (a.start == b.start && a.rule.rank() <= b.rule.rank())
}

/// Sorts diagnostics by start and rule, stably.
fn sort_diagnostics(v: Vec<Diagnostic>) -> (r: Vec<Diagnostic>)
    ensures
        diag_views(r@) == sort_by(diag_views(v@), diag_le()),
{
    let mut out: Vec<Diagnostic> = Vec::new();
    let ghost dv = diag_views(v@);
    let mut i: usize = 0;
    proof {
        assert(dv.take(0) =~= Seq::<DiagView>::empty());
        assert(diag_views(out@) =~= Seq::<DiagView>::empty());
    }
    while i < v.len()
        invariant
            dv == diag_views(v@),
            i <= v@.len(),
            diag_views(out@) == sort_by(dv.take(i as int), diag_le()),
            out@.len() == i,
        decreases v@.len() - i,
    {
        let d = v[i].clone();
        proof {
            assert(dv.take(i + 1).drop_last() =~= dv.take(i as int));
            assert(dv.take(i + 1).last() == d.view());
        }
        let mut p = out.len();
        while p > 0 && !diag_before(&out[p - 1], &d)
            invariant
                p <= out@.len(),
                forall|j: int| p <= j < out@.len() ==> !diag_le()(
                    #[trigger] diag_views(out@)[j],
                    d.view(),
                ),
            decreases p,
        {
            p = p - 1;
        }
        proof {
            let o = diag_views(out@);
            sorting::lemma_insert_at(o, d.view(), diag_le(), p as int);
            assert(diag_views(out@.insert(p as int, d)) =~= o.take(p as int) + seq![d.view()]
                + o.skip(p as int));
        }
        out.insert(p, d);
        i = i + 1;
    }
    proof {
        assert(dv.take(v@.len() as int) =~= dv);
    }
    out
}

/// Checks a text in a language: labels at the start of prose (Markdown) or
/// of comment and docstring lines (code, HTML), ordered lists (Markdown),
/// and errors in ignore directives (Markdown), ordered by where they start
/// and then by rule.
pub fn check(source: &str, language: Language) -> (r: Vec<Diagnostic>)
    requires
        fits(source@),
    ensures
        diag_views(r@) == spec_check(source@, language),
{
    let text = Text::new(source);
    let found = match language {
        Language::Markdown => markdown::check(&text),
        Language::Html => html::check(source, &text),
        _ => code::check(source, &text, grammar(language)),
    };
    sort_diagnostics(found)
}

/// Diagnostics in `spec_check` order: by start, then by rule.
pub proof fn lemma_check_ordered(s: Seq<char>, language: Language)
    ensures
        sorting::ordered_by(spec_check(s, language), diag_le()),
        spec_check(s, language).to_multiset() == findings(s, language).to_multiset(),
{
    assert(sorting::total(diag_le())) by {
        assert forall|a: DiagView, b: DiagView| #[trigger] diag_le()(a, b) || diag_le()(b, a) by {}
    }
    sorting::lemma_sort_ordered(findings(s, language), diag_le());
    sorting::lemma_sort_multiset(findings(s, language), diag_le());
}

/// In code and HTML, the removals of a round of fixes each lie inside a
/// comment: strings, docstrings, markup and the code itself are never
/// edited. In code, a round cuts all of them, from the end of the text back.
pub proof fn lemma_fix_round_in_comments(s: Seq<char>, language: Language)
    requires
        language != Language::Markdown,
    ensures
        language != Language::Html ==> (fix::fix_once_spec(s, language) matches Some(r) ==> r
            == fix::cut_all(s, fix::fix_cuts(s, language))),
        fix::desc_within(fix::fix_cuts(s, language), s.len() as int),
        forall|k: int|
            0 <= k < fix::fix_cuts(s, language).len() ==> code::in_comment(
                syntax::syntax_nodes(s, grammar_of(language)),
                text::byte_at(s, (#[trigger] fix::fix_cuts(s, language)[k]).0) as int,
                text::byte_at(s, fix::fix_cuts(s, language)[k].1) as int,
            ),
{
    fix::lemma_fix_cuts_source(s, language);
    code::lemma_code_fixes_in_comments(s, grammar_of(language));
    html::lemma_html_fixes_in_comments(s);
    let cuts = fix::fix_cuts(s, language);
    let f = findings(s, language);
    assert forall|k: int| 0 <= k < cuts.len() implies code::in_comment(
        syntax::syntax_nodes(s, grammar_of(language)),
        text::byte_at(s, (#[trigger] cuts[k]).0) as int,
        text::byte_at(s, cuts[k].1) as int,
    ) by {
        let j = choose|j: int| 0 <= j < f.len() && (#[trigger] f[j]).5 == Some(
            (text::byte_at(s, cuts[k].0) as int, text::byte_at(s, cuts[k].1) as int),
        );
        if language == Language::Html {
            assert(f[j] == html::html_check(s)[j]);
        } else {
            assert(f[j] == code::code_check(s, grammar_of(language))[j]);
        }
    }
}

/// In Markdown, the removals of a round of fixes each lie inside a text
/// event of prose: code blocks, tables, markup and HTML are never edited.
pub proof fn lemma_markdown_fix_round_in_prose(s: Seq<char>)
    ensures
        fix::desc_within(fix::fix_cuts(s, Language::Markdown), s.len() as int),
        forall|k: int|
            0 <= k < fix::fix_cuts(s, Language::Markdown).len() ==> markdown::in_prose_text(
                s,
                markdown::frontmatter_end(s),
                markdown::markdown_events(s.skip(markdown::frontmatter_end(s))),
                text::byte_at(s, (#[trigger] fix::fix_cuts(s, Language::Markdown)[k]).0) as int,
                text::byte_at(s, fix::fix_cuts(s, Language::Markdown)[k].1) as int,
            ),
{
    fix::lemma_fix_cuts_source(s, Language::Markdown);
    markdown::lemma_markdown_fixes_in_prose(s);
    let cuts = fix::fix_cuts(s, Language::Markdown);
    let f = findings(s, Language::Markdown);
    assert forall|k: int| 0 <= k < cuts.len() implies markdown::in_prose_text(
        s,
        markdown::frontmatter_end(s),
        markdown::markdown_events(s.skip(markdown::frontmatter_end(s))),
        text::byte_at(s, (#[trigger] cuts[k]).0) as int,
        text::byte_at(s, cuts[k].1) as int,
    ) by {
        let j = choose|j: int| 0 <= j < f.len() && (#[trigger] f[j]).5 == Some(
            (text::byte_at(s, cuts[k].0) as int, text::byte_at(s, cuts[k].1) as int),
        );
        assert(f[j] == markdown::markdown_check(s)[j]);
    }
}

proof fn lemma_check_members(s: Seq<char>, language: Language)
    ensures
        forall|d: DiagView| #[trigger] spec_check(s, language).contains(d) <==> findings(s, language).contains(d),
{
    broadcast use vstd::seq_lib::group_to_multiset_ensures;

    lemma_check_ordered(s, language);
    assert forall|d: DiagView| #[trigger] spec_check(s, language).contains(d) <==> findings(s, language).contains(d) by {
        assert(spec_check(s, language).to_multiset().count(d) == findings(s, language).to_multiset().count(d));
    }
}

/// In Markdown, a valid `ignore-file` directive leaves only errors.
pub proof fn lemma_check_ignore_file(s: Seq<char>)
    requires
        markdown::ignores_file(s),
    ensures
        forall|k: int|
            0 <= k < spec_check(s, Language::Markdown).len() ==> (#[trigger] spec_check(
                s,
                Language::Markdown,
            )[k]).4 == Severity::Error,
{
    markdown::lemma_ignore_file_silences(s);
    markdown::lemma_directive_errors_reported(s);
    lemma_check_members(s, Language::Markdown);
    assert forall|k: int| 0 <= k < spec_check(s, Language::Markdown).len() implies (#[trigger] spec_check(
        s,
        Language::Markdown,
    )[k]).4 == Severity::Error by {
        let d = spec_check(s, Language::Markdown)[k];
        assert(spec_check(s, Language::Markdown).contains(d));
        let j = choose|j: int| 0 <= j < markdown::markdown_check(s).len() && markdown::markdown_check(s)[j] == d;
        assert(markdown::directive_errors(s)[j] == d);
    }
}

/// In Markdown, no warning starts inside a range between valid
/// `ignore-start` and `ignore-end` directives, and every error of the
/// directives is reported.
pub proof fn lemma_check_ignore_ranges(s: Seq<char>)
    ensures
        forall|k: int|
            0 <= k < spec_check(s, Language::Markdown).len() && (#[trigger] spec_check(
                s,
                Language::Markdown,
            )[k]).4 == Severity::Warning ==> !markdown::in_ranges(
                markdown::ignored_ranges(s),
                spec_check(s, Language::Markdown)[k].2,
            ),
        forall|k: int|
            0 <= k < markdown::directive_errors(s).len() ==> spec_check(s, Language::Markdown).contains(
                #[trigger] markdown::directive_errors(s)[k],
            ),
{
    markdown::lemma_ignored_ranges_silence(s);
    markdown::lemma_directive_errors_reported(s);
    lemma_check_members(s, Language::Markdown);
    let m = markdown::markdown_check(s);
    let n = m.len() - markdown::directive_errors(s).len();
    assert forall|k: int|
        0 <= k < spec_check(s, Language::Markdown).len() && (#[trigger] spec_check(s, Language::Markdown)[k]).4
            == Severity::Warning implies !markdown::in_ranges(
        markdown::ignored_ranges(s),
        spec_check(s, Language::Markdown)[k].2,
    ) by {
        let d = spec_check(s, Language::Markdown)[k];
        assert(spec_check(s, Language::Markdown).contains(d));
        let j = choose|j: int| 0 <= j < m.len() && m[j] == d;
        assert(m[j].4 == Severity::Warning);
    }
    assert forall|k: int| 0 <= k < markdown::directive_errors(s).len() implies spec_check(
        s,
        Language::Markdown,
    ).contains(#[trigger] markdown::directive_errors(s)[k]) by {
        assert(m[n + k] == markdown::directive_errors(s)[k]);
        assert(m.contains(m[n + k]));
    }
}

/// Number of line feeds in `s`.
pub open spec fn line_feeds(s: Seq<char>) -> nat
    decreases s.len(),
{
    if s.len() == 0 {
        0
    } else {
        line_feeds(s.drop_last()) + if s.last() == '\n' {
            1nat
        } else {
            0nat
        }
    }
}

/// The indices where the lines of `s.take(n)` start: 0, and each index just
/// after a line feed.
pub open spec fn line_starts_upto(s: Seq<char>, n: int) -> Seq<int>
    decreases n,
{
    if n <= 0 {
        seq![0]
    } else {
        let p = line_starts_upto(s, n - 1);
        if s[n - 1] == '\n' {
            p.push(n)
        } else {
            p
        }
    }
}

/// The 1-based line and column of the character at index `i` of `s`: one
/// more than the line feeds before it, and one more than the characters
/// between the start of its line and it.
pub open spec fn line_column_of(s: Seq<char>, i: int) -> (int, int) {
    (1 + line_feeds(s.take(i)) as int, i - line_start(s, i) + 1)
}

pub open spec fn ints(v: Seq<usize>) -> Seq<int> {
    v.map_values(|x: usize| x as int)
}

proof fn lemma_line_starts_shape(s: Seq<char>, n: int)
    requires
        0 <= n <= s.len(),
    ensures
        line_starts_upto(s, n).len() == 1 + line_feeds(s.take(n)),
        line_starts_upto(s, n)[0] == 0,
        line_starts_upto(s, n).last() == line_start(s, n),
        forall|j: int, k: int|
            0 <= j < k < line_starts_upto(s, n).len() ==> line_starts_upto(s, n)[j]
                < line_starts_upto(s, n)[k],
        forall|j: int|
            0 <= j < line_starts_upto(s, n).len() ==> 0 <= #[trigger] line_starts_upto(s, n)[j]
                <= n,
    decreases n,
{
    if n > 0 {
        lemma_line_starts_shape(s, n - 1);
        assert(s.take(n).drop_last() =~= s.take(n - 1));
        assert(s.take(n).last() == s[n - 1]);
    } else {
        assert(s.take(n) =~= Seq::<char>::empty());
    }
}

proof fn lemma_line_starts_prefix(s: Seq<char>, i: int, n: int)
    requires
        0 <= i <= n <= s.len(),
    ensures
        line_starts_upto(s, i).len() <= line_starts_upto(s, n).len(),
        line_starts_upto(s, n).take(line_starts_upto(s, i).len() as int) == line_starts_upto(s, i),
        forall|j: int|
            line_starts_upto(s, i).len() <= j < line_starts_upto(s, n).len() ==> i
                < #[trigger] line_starts_upto(s, n)[j],
    decreases n - i,
{
    if n > i {
        lemma_line_starts_prefix(s, i, n - 1);
        let l = line_starts_upto(s, i).len() as int;
        assert(line_starts_upto(s, n).take(l) =~= line_starts_upto(s, n - 1).take(l));
    } else {
        assert(line_starts_upto(s, n).take(line_starts_upto(s, n).len() as int) =~= line_starts_upto(
            s,
            n,
        ));
    }
}

/// Finds the line and column of byte offsets in a text.
pub struct LineIndex {
    text: Text,
    /// The character indices where lines start.
    starts: Vec<usize>,
}

impl LineIndex {
    pub closed spec fn wf(&self) -> bool {
        &&& self.text.wf()
        &&& self.text@.len() < usize::MAX
        &&& ints(self.starts@) == line_starts_upto(self.text@, self.text@.len() as int)
    }

    /// The text that the index is for.
    pub closed spec fn view(&self) -> Seq<char> {
        self.text@
    }

    /// The index of `source`.
    pub fn new(source: &str) -> (r: LineIndex)
        requires
            fits(source@),
        ensures
            r.wf(),
            r@ == source@,
    {
        let text = Text::new(source);
        // One offset per character and one for the end: fewer characters than `usize::MAX`.
        let offsets = text.bytes.len();
        let mut starts: Vec<usize> = Vec::new();
        starts.push(0);
        let mut k: usize = 0;
        proof {
            assert(ints(starts@) =~= seq![0int]);
        }
        while k < text.chars.len()
            invariant
                text.wf(),
                k <= text.chars@.len(),
                ints(starts@) == line_starts_upto(text@, k as int),
            decreases text.chars@.len() - k,
        {
            if text.chars[k] == '\n' {
                let next = k + 1;
                proof {
                    assert(ints(starts@.push(next)) =~= ints(starts@).push(next as int));
                }
                starts.push(next);
            }
            k = k + 1;
        }
        proof {
            assert(offsets == text.chars@.len() + 1);
        }
        LineIndex { text, starts }
    }

    /// The 1-based line and column (counted in characters) of the byte
    /// offset `byte` of `source`, which the index was made for.
    pub fn line_column(&self, source: &str, byte: usize) -> (r: (usize, usize))
        requires
            self.wf(),
            source@ == self@,
            char_at_byte(source@, byte as int) is Some,
        ensures
            (r.0 as int, r.1 as int) == line_column_of(
                source@,
                char_at_byte(source@, byte as int).unwrap(),
            ),
    {
        let i = self.text.char_index(byte).unwrap();
        let ghost s = self.text@;
        let ghost n = s.len() as int;
        let ghost ls = line_starts_upto(s, n);
        proof {
            lemma_line_starts_shape(s, n);
            lemma_line_starts_shape(s, i as int);
            lemma_line_starts_prefix(s, i as int, n);
        }
        // The number of line starts at or before `i`.
        let mut lo: usize = 0;
        let mut hi: usize = self.starts.len();
        while lo < hi
            invariant
                ints(self.starts@) == ls,
                lo <= hi <= ls.len(),
                forall|j: int, k: int| 0 <= j < k < ls.len() ==> ls[j] < ls[k],
                forall|j: int| 0 <= j < lo ==> ls[j] <= i,
                forall|j: int| hi <= j < ls.len() ==> ls[j] > i,
            decreases hi - lo,
        {
            let mid = lo + (hi - lo) / 2;
            proof {
                assert(ls[mid as int] == self.starts@[mid as int]);
            }
            if self.starts[mid] <= i {
                lo = mid + 1;
            } else {
                hi = mid;
            }
        }
        let ghost li = line_starts_upto(s, i as int);
        proof {
            assert(ls.take(li.len() as int)[li.len() - 1] == li[li.len() - 1]);
            if lo < li.len() {
                assert(ls.take(li.len() as int)[lo as int] == li[lo as int]);
                assert(li[lo as int] <= i);
            }
            if lo > li.len() {
                assert(ls[li.len() as int] > i);
            }
            assert(lo == li.len());
            assert(ls[lo - 1] == self.starts@[lo - 1]);
        }
        let line = lo;
        let column = i - self.starts[lo - 1] + 1;
        (line, column)
    }
}

/// Applies the fixes that the diagnostics offer, round after round, until a
/// round changes nothing. A round applies nothing where the text has an
/// error, and keeps the text's structure (see [`fix::fix_once_spec`]).
/// Returns `None` when nothing can be changed.
pub fn fix_unsafe(source: &str, language: Language) -> (r: Option<String>)
    requires
        fits(source@),
    ensures
        match r {
            Some(t) => fix::fix_unsafe_spec(source@, language) == Some(t@),
            None => fix::fix_unsafe_spec(source@, language) is None,
        },
{
    let mut result = match fix::fix_once(source, language) {
        Some(r) => r,
        None => return None,
    };
    proof {
        fix::lemma_fix_once(source@, language);
    }
    loop
        invariant
            fits(result@),
            fix::fix_unsafe_spec(source@, language) == Some(fix::fix_rest(result@, language)),
        ensures
            fix::fix_once_spec(result@, language) is None,
        decreases result@.len(),
    {
        proof {
            fix::lemma_fix_once(result@, language);
        }
        match fix::fix_once(result.as_str(), language) {
            Some(next) => {
                result = next;
            },
            None => {
                break;
            },
        }
    }
    Some(result)
}

} // verus!
