//! Markdown: labels in prose, ordered lists, and the ignore directives.

use vstd::prelude::*;

use crate::diagnostic::{
    DiagView, Diagnostic, Rule, Severity, collect, diag_views, lemma_views_push,
};
use crate::rules::{
    CharClass, back_run, back_run_len, in_class, is_blank, is_digit, lemma_run_bound,
    lemma_run_exact, run, run_len,
};
use crate::text::{
    byte_at, char_at_byte, chars_of, int_pairs, lemma_byte_at_mono, trim_cr_end, Text,
};

verus! {

// ---------------------------------------------------------------------------
// Lines
// ---------------------------------------------------------------------------
/// The index where the line holding `at` begins: just after the last line
/// feed before `at`, or 0.
pub open spec fn line_start(s: Seq<char>, at: int) -> int
    decreases at,
{
    if at <= 0 {
        0
    } else if s[at - 1] == '\n' {
        at
    } else {
        line_start(s, at - 1)
    }
}

/// The index of the first line feed at or after `at`, or the end.
pub open spec fn line_end(s: Seq<char>, at: int) -> int {
    at + run(s, at, CharClass::NotNewline)
}

pub proof fn lemma_line_start(s: Seq<char>, at: int)
    requires
        0 <= at <= s.len(),
    ensures
        0 <= line_start(s, at) <= at,
        forall|j: int| line_start(s, at) <= j < at ==> s[j] != '\n',
        line_start(s, at) > 0 ==> s[line_start(s, at) - 1] == '\n',
    decreases at,
{
    if at > 0 && s[at - 1] != '\n' {
        lemma_line_start(s, at - 1);
    }
}

pub fn line_start_at(s: &[char], at: usize) -> (r: usize)
    requires
        at <= s@.len(),
    ensures
        r == line_start(s@, at as int),
        r <= at,
{
    let mut i = at;
    while i > 0 && s[i - 1] != '\n'
        invariant
            i <= at <= s@.len(),
            line_start(s@, at as int) == line_start(s@, i as int),
        decreases i,
    {
        i = i - 1;
    }
    i
}

pub fn line_end_at(s: &[char], at: usize) -> (r: usize)
    requires
        at <= s@.len(),
    ensures
        r == line_end(s@, at as int),
        at <= r <= s@.len(),
{
    at + run_len(s, at, CharClass::NotNewline)
}

// ---------------------------------------------------------------------------
// Front matter
// ---------------------------------------------------------------------------
/// 1 where the text begins with a byte order mark, else 0.
pub open spec fn bom_len(s: Seq<char>) -> int {
    if s.len() > 0 && s[0] == '\u{feff}' {
        1
    } else {
        0
    }
}

/// The line `s[a..line_end]` without trailing carriage returns.
pub open spec fn line_text(s: Seq<char>, a: int) -> Seq<char> {
    s.subrange(a, trim_cr_end(s, a, line_end(s, a)))
}

pub open spec fn is_fence(d: Seq<char>) -> bool {
    d == seq!['-', '-', '-'] || d == seq!['+', '+', '+']
}

/// The end of the line that closes front matter opened by `d`, searching
/// from `at`: just after its line feed, or the end of the text.
pub open spec fn closing_fence(s: Seq<char>, at: int, d: Seq<char>) -> Option<int>
    decreases s.len() - at,
{
    if at < 0 || at >= s.len() {
        None
    } else {
        proof {
            lemma_run_bound(s, at, CharClass::NotNewline);
        }
        let end = line_end(s, at);
        if line_text(s, at) == d {
            Some(
                if end == s.len() {
                    end
                } else {
                    end + 1
                },
            )
        } else if end >= s.len() {
            None
        } else {
            closing_fence(s, end + 1, d)
        }
    }
}

/// Where the Markdown body begins: after a byte order mark, and after front
/// matter fenced by `---` or `+++` lines when the text opens with such a
/// fence and a later line closes it.
pub open spec fn frontmatter_end(s: Seq<char>) -> int {
    let first = bom_len(s);
    let d = line_text(s, first);
    let after = line_end(s, first);
    if is_fence(d) && after < s.len() {
        match closing_fence(s, after + 1, d) {
            Some(e) => e,
            None => first,
        }
    } else {
        first
    }
}

fn trim_cr(s: &[char], a: usize, e: usize) -> (r: usize)
    requires
        a <= e <= s@.len(),
    ensures
        r == trim_cr_end(s@, a as int, e as int),
        a <= r <= e,
{
    let mut r = e;
    while r > a && s[r - 1] == '\r'
        invariant
            a <= r <= e <= s@.len(),
            trim_cr_end(s@, a as int, e as int) == trim_cr_end(s@, a as int, r as int),
        decreases r,
    {
        r = r - 1;
    }
    r
}

fn fence_at(s: &[char], a: usize) -> (r: bool)
    requires
        a <= s@.len(),
    ensures
        r == is_fence(line_text(s@, a as int)),
{
    let e = trim_cr(s, a, line_end_at(s, a));
    proof {
        lemma_run_bound(s@, a as int, CharClass::NotNewline);
    }
    if e - a != 3 {
        proof {
            assert(line_text(s@, a as int).len() == e - a);
        }
        return false;
    }
    let r = (s[a] == '-' && s[a + 1] == '-' && s[a + 2] == '-') || (s[a] == '+' && s[a + 1]
        == '+' && s[a + 2] == '+');
    proof {
        let t = line_text(s@, a as int);
        if r {
            assert(t =~= seq![s@[a as int], s@[a + 1], s@[a + 2]]);
        } else {
            assert(t.len() == 3 && t[0] == s@[a as int] && t[1] == s@[a + 1] && t[2] == s@[a + 2]);
        }
    }
    r
}

fn same_line_text(s: &[char], a: usize, b: usize) -> (r: bool)
    requires
        a <= s@.len(),
        b <= s@.len(),
    ensures
        r == (line_text(s@, a as int) == line_text(s@, b as int)),
{
    let ea = trim_cr(s, a, line_end_at(s, a));
    let eb = trim_cr(s, b, line_end_at(s, b));
    if ea - a != eb - b {
        proof {
            assert(line_text(s@, a as int).len() != line_text(s@, b as int).len());
        }
        return false;
    }
    let ghost ta = line_text(s@, a as int);
    let ghost tb = line_text(s@, b as int);
    let mut i: usize = 0;
    while i < ea - a
        invariant
            a <= ea <= s@.len(),
            b <= eb <= s@.len(),
            ea - a == eb - b,
            ta == s@.subrange(a as int, ea as int),
            tb == s@.subrange(b as int, eb as int),
            ta == line_text(s@, a as int),
            tb == line_text(s@, b as int),
            i <= ea - a,
            forall|j: int| 0 <= j < i ==> #[trigger] ta[j] == tb[j],
        decreases ea - a - i,
    {
        if s[a + i] != s[b + i] {
            proof {
                assert(ta[i as int] != tb[i as int]);
                assert(ta != tb);
            }
            return false;
        }
        i = i + 1;
    }
    proof {
        assert(ta =~= tb);
    }
    true
}

/// Where the Markdown body of `s` begins; see [`frontmatter_end`].
pub fn body_start(s: &[char]) -> (r: usize)
    ensures
        r == frontmatter_end(s@),
        r <= s@.len(),
{
    let n = s.len();
    let first: usize = if n > 0 && s[0] == '\u{feff}' {
        1
    } else {
        0
    };
    let after = line_end_at(s, first);
    if !fence_at(s, first) || after >= n {
        return first;
    }
    let mut at = after + 1;
    while at < n
        invariant
            n == s@.len(),
            first == bom_len(s@),
            after == line_end(s@, first as int),
            is_fence(line_text(s@, first as int)),
            after < n,
            after + 1 <= at <= n,
            closing_fence(s@, after + 1, line_text(s@, first as int)) == closing_fence(
                s@,
                at as int,
                line_text(s@, first as int),
            ),
        decreases n - at,
    {
        let end = line_end_at(s, at);
        if same_line_text(s, at, first) {
            return if end == n {
                end
            } else {
                end + 1
            };
        }
        if end >= n {
            return first;
        }
        at = end + 1;
    }
    first
}

// ---------------------------------------------------------------------------
// Ordered list markers and structural prefixes
// ---------------------------------------------------------------------------
/// The marker of an ordered list whose line begins at `start`: after blanks
/// and `>`, one to nine digits and `.` or `)`, followed by a blank, a line
/// break or the end.
pub open spec fn list_marker(s: Seq<char>, start: int) -> Option<(int, int)> {
    let at = start + run(s, start, CharClass::Indent);
    let digits = run(s, at, CharClass::Digit) as int;
    let end = at + digits + 1;
    if digits == 0 || digits > 9 || !(at + digits < s.len() && (s[at + digits] == '.' || s[at
        + digits] == ')')) {
        None
    } else if end == s.len() || (end < s.len() && (s[end] == ' ' || s[end] == '\t' || s[end]
        == '\r' || s[end] == '\n')) {
        Some((at, end))
    } else {
        None
    }
}

/// One to nine digits at the start of a line, then `.` or `)`, then a
/// blank, a line break or the end, are the marker of an ordered list, from
/// the first digit to the delimiter.
pub proof fn lemma_list_marker_delimiters(s: Seq<char>, start: int, k: int)
    requires
        0 <= start,
        1 <= k <= 9,
        start + k < s.len(),
        forall|j: int| start <= j < start + k ==> is_digit(#[trigger] s[j]),
        s[start + k] == '.' || s[start + k] == ')',
        start + k + 1 == s.len() || s[start + k + 1] == ' ' || s[start + k + 1] == '\t' || s[start
            + k + 1] == '\r' || s[start + k + 1] == '\n',
    ensures
        list_marker(s, start) == Some((start, start + k + 1)),
{
    assert(is_digit(s[start]));
    lemma_run_exact(s, start, 0, CharClass::Indent);
    lemma_run_exact(s, start, k, CharClass::Digit);
}

pub fn list_marker_at(s: &[char], start: usize) -> (r: Option<(usize, usize)>)
    requires
        start <= s@.len(),
    ensures
        match r {
            Some((a, e)) => list_marker(s@, start as int) == Some((a as int, e as int)) && a < e
                <= s@.len(),
            None => list_marker(s@, start as int) is None,
        },
{
    let at = start + run_len(s, start, CharClass::Indent);
    let digits = run_len(s, at, CharClass::Digit);
    if digits == 0 || digits > 9 || !(at + digits < s.len() && (s[at + digits] == '.' || s[at
        + digits] == ')')) {
        return None;
    }
    let end = at + digits + 1;
    if end == s.len() || (end < s.len() && (s[end] == ' ' || s[end] == '\t' || s[end] == '\r'
        || s[end] == '\n')) {
        Some((at, end))
    } else {
        None
    }
}

/// The number of `#` from `i` on.
pub open spec fn hashes(p: Seq<char>, i: int) -> int {
    run(p, i, CharClass::Hash) as int
}

/// What may stand before prose on its line for the prose to begin a block:
/// blanks, `>`, up to six `#` and a blank, `-`, `+` or `*` and a blank, a task
/// box `[ ]`, `[x]`, `[X]`, or digits, `.` or `)` and a blank, in any
/// sequence. Read from index `i` on.
pub open spec fn structural_from(p: Seq<char>, i: int) -> bool
    decreases p.len() - i,
{
    let j = i + run(p, i, CharClass::Blank);
    let h = hashes(p, j);
    let d = run(p, j, CharClass::Digit) as int;
    if i < 0 || j >= p.len() {
        true
    } else if p[j] == '>' {
        structural_from(p, j + 1)
    } else if p[j] == '#' && h <= 6 && j + h < p.len() && is_blank(p[j + h]) {
        structural_from(p, j + h)
    } else if (p[j] == '-' || p[j] == '+' || p[j] == '*') && j + 1 < p.len() && is_blank(
        p[j + 1],
    ) {
        structural_from(p, j + 1)
    } else if j + 3 <= p.len() && p[j] == '[' && (p[j + 1] == ' ' || p[j + 1] == 'x' || p[j
        + 1] == 'X') && p[j + 2] == ']' {
        structural_from(p, j + 3)
    } else if d > 0 && j + d + 1 < p.len() && (p[j + d] == '.' || p[j + d] == ')') && is_blank(
        p[j + d + 1],
    ) {
        structural_from(p, j + d + 1)
    } else {
        false
    }
}

/// The text before prose on its line lets the prose begin a block.
pub open spec fn is_structural_prefix(p: Seq<char>) -> bool {
    structural_from(p, bom_len(p))
}

proof fn lemma_run_shift(a: Seq<char>, b: Seq<char>, k: int, c: CharClass)
    requires
        0 <= k <= b.len(),
    ensures
        run(a + b, a.len() + k, c) == run(b, k, c),
    decreases b.len() - k,
{
    if k < b.len() {
        lemma_run_shift(a, b, k + 1, c);
    }
}

proof fn lemma_run_into(a: Seq<char>, b: Seq<char>, i: int, c: CharClass)
    requires
        0 <= i <= a.len(),
        i + run(a, i, c) == a.len(),
    ensures
        run(a + b, i, c) == (a.len() - i) + run(b, 0, c),
    decreases a.len() - i,
{
    if i < a.len() {
        lemma_run_into(a, b, i + 1, c);
    } else {
        lemma_run_shift(a, b, 0, c);
    }
}

proof fn lemma_run_within(a: Seq<char>, b: Seq<char>, i: int, c: CharClass)
    requires
        0 <= i <= a.len(),
        i + run(a, i, c) < a.len(),
    ensures
        run(a + b, i, c) == run(a, i, c),
    decreases a.len() - i,
{
    if in_class(a[i], c) {
        lemma_run_within(a, b, i + 1, c);
    }
}

proof fn lemma_structural_skip(p: Seq<char>, i: int)
    requires
        0 <= i <= p.len(),
    ensures
        structural_from(p, i) == structural_from(p, i + run(p, i, CharClass::Blank)),
{
    lemma_run_bound(p, i, CharClass::Blank);
}

proof fn lemma_structural_shift(a: Seq<char>, b: Seq<char>, k: int)
    requires
        0 <= k <= b.len(),
    ensures
        structural_from(a + b, a.len() + k) == structural_from(b, k),
    decreases b.len() - k,
{
    let p = a + b;
    let la = a.len() as int;
    lemma_run_bound(b, k, CharClass::Blank);
    lemma_run_shift(a, b, k, CharClass::Blank);
    let j = k + run(b, k, CharClass::Blank);
    if j < b.len() {
        lemma_run_bound(b, j, CharClass::Hash);
        lemma_run_bound(b, j, CharClass::Digit);
        lemma_run_shift(a, b, j, CharClass::Hash);
        lemma_run_shift(a, b, j, CharClass::Digit);
        let h = hashes(b, j);
        let d = run(b, j, CharClass::Digit) as int;
        assert(p[la + j] == b[j]);
        if h > 0 && j + h < b.len() {
            assert(p[la + j + h] == b[j + h]);
            lemma_structural_shift(a, b, j + h);
        }
        if j + 1 < b.len() {
            assert(p[la + j + 1] == b[j + 1]);
        }
        if j + 2 < b.len() {
            assert(p[la + j + 2] == b[j + 2]);
        }
        if j + d + 1 < b.len() {
            assert(p[la + j + d] == b[j + d]);
            assert(p[la + j + d + 1] == b[j + d + 1]);
            lemma_structural_shift(a, b, j + d + 1);
        }
        lemma_structural_shift(a, b, j + 1);
        if j + 3 <= b.len() {
            lemma_structural_shift(a, b, j + 3);
        }
    }
}

proof fn lemma_structural_concat(a: Seq<char>, b: Seq<char>, i: int)
    requires
        0 <= i <= a.len(),
        structural_from(a, i),
        structural_from(b, 0),
    ensures
        structural_from(a + b, i),
    decreases a.len() - i,
{
    let p = a + b;
    let la = a.len() as int;
    lemma_run_bound(a, i, CharClass::Blank);
    let j = i + run(a, i, CharClass::Blank);
    if j >= la {
        lemma_run_into(a, b, i, CharClass::Blank);
        lemma_run_bound(b, 0, CharClass::Blank);
        lemma_structural_skip(p, i);
        lemma_structural_shift(a, b, run(b, 0, CharClass::Blank) as int);
        lemma_structural_skip(b, 0);
    } else {
        lemma_run_within(a, b, i, CharClass::Blank);
        lemma_run_bound(a, j, CharClass::Hash);
        lemma_run_bound(a, j, CharClass::Digit);
        let h = hashes(a, j);
        let d = run(a, j, CharClass::Digit) as int;
        if j + h < la {
            lemma_run_within(a, b, j, CharClass::Hash);
        }
        if j + d < la {
            lemma_run_within(a, b, j, CharClass::Digit);
        }
        if a[j] == '>' {
            lemma_structural_concat(a, b, j + 1);
        } else if a[j] == '#' && h <= 6 && j + h < la && is_blank(a[j + h]) {
            lemma_structural_concat(a, b, j + h);
        } else if (a[j] == '-' || a[j] == '+' || a[j] == '*') && j + 1 < la && is_blank(a[j + 1]) {
            lemma_structural_concat(a, b, j + 1);
        } else if j + 3 <= la && a[j] == '[' && (a[j + 1] == ' ' || a[j + 1] == 'x' || a[j + 1]
            == 'X') && a[j + 2] == ']' {
            lemma_structural_concat(a, b, j + 3);
        } else {
            lemma_structural_concat(a, b, j + d + 1);
        }
    }
}

/// Two structural prefixes, one after the other, make a structural prefix,
/// where the second does not begin with a byte order mark.
pub proof fn lemma_structural_prefix_concat(a: Seq<char>, b: Seq<char>)
    requires
        is_structural_prefix(a),
        is_structural_prefix(b),
        b.len() == 0 || b[0] != '\u{feff}',
    ensures
        is_structural_prefix(a + b),
{
    if a.len() == 0 {
        assert(a + b =~= b);
    } else {
        assert((a + b)[0] == a[0]);
        lemma_structural_concat(a, b, bom_len(a));
    }
}

/// A bullet marker `-`, `+` or `*` and a blank, after any structural
/// prefix, still make a structural prefix: prose after a bullet of any kind
/// begins a block.
pub proof fn lemma_bullet_structural(a: Seq<char>, c: char, b: char)
    requires
        is_structural_prefix(a),
        c == '-' || c == '+' || c == '*',
        b == ' ' || b == '\t',
    ensures
        is_structural_prefix(a + seq![c, b]),
{
    let p = seq![c, b];
    lemma_run_exact(p, 1, 1, CharClass::Blank);
    assert(structural_from(p, 1));
    lemma_run_exact(p, 0, 0, CharClass::Blank);
    assert(structural_from(p, 0));
    assert(is_structural_prefix(p));
    lemma_structural_prefix_concat(a, p);
}

/// Whether `s[lo..hi]` is a structural prefix.
pub fn structural_prefix(s: &[char], lo: usize, hi: usize) -> (r: bool)
    requires
        lo <= hi <= s@.len(),
    ensures
        r == is_structural_prefix(s@.subrange(lo as int, hi as int)),
{
    let p = &s[lo..hi];
    let n = p.len();
    let mut i: usize = if n > 0 && p[0] == '\u{feff}' {
        1
    } else {
        0
    };
    loop
        invariant
            p@ == s@.subrange(lo as int, hi as int),
            n == p@.len(),
            i <= n,
            is_structural_prefix(p@) == structural_from(p@, i as int),
        decreases n - i,
    {
        let j = i + run_len(p, i, CharClass::Blank);
        if j >= n {
            return true;
        }
        let h = run_len(p, j, CharClass::Hash);
        let d = run_len(p, j, CharClass::Digit);
        if p[j] == '>' {
            i = j + 1;
        } else if p[j] == '#' && h <= 6 && j + h < n && (p[j + h] == ' ' || p[j + h] == '\t') {
            i = j + h;
        } else if (p[j] == '-' || p[j] == '+' || p[j] == '*') && j + 1 < n && (p[j + 1] == ' '
            || p[j + 1] == '\t') {
            i = j + 1;
        } else if n - j >= 3 && p[j] == '[' && (p[j + 1] == ' ' || p[j + 1] == 'x' || p[j + 1]
            == 'X') && p[j + 2] == ']' {
            i = j + 3;
        } else if d > 0 && j + d < n && j + d + 1 < n && (p[j + d] == '.' || p[j + d] == ')') && (p[j + d + 1]
            == ' ' || p[j + d + 1] == '\t') {
            i = j + d + 1;
        } else {
            return false;
        }
    }
}


// ---------------------------------------------------------------------------
// Ignore directives
// ---------------------------------------------------------------------------
/// `t` without leading and trailing white space.
pub open spec fn trimmed(t: Seq<char>) -> Seq<char> {
    let a = run(t, 0, CharClass::Whitespace) as int;
    let b = t.len() - back_run(t, t.len() as int, CharClass::Whitespace);
    if a >= b {
        seq![]
    } else {
        t.subrange(a, b)
    }
}

/// The inside of a directive comment `<!-- ... -->`.
pub open spec fn directive_body(t: Seq<char>) -> Option<Seq<char>> {
    if t.len() >= 9 && t.take(5) == "<!-- "@ && t.skip(t.len() - 4) == " -->"@ {
        Some(t.subrange(5, t.len() - 4))
    } else {
        None
    }
}

/// The reason that follows `name:` in a directive body.
pub open spec fn reason(body: Option<Seq<char>>, name: Seq<char>) -> Option<Seq<char>> {
    match body {
        Some(b) => if b.len() > name.len() && b.take(name.len() as int) == name && b[name.len()
            as int] == ':' {
            Some(trimmed(b.skip(name.len() + 1int)))
        } else {
            None
        },
        None => None,
    }
}

/// The first character of the document that is not blank or a line break,
/// after a byte order mark.
pub open spec fn first_content(s: Seq<char>) -> Option<int> {
    let k = bom_len(s) + run(s, bom_len(s), CharClass::Gap);
    if k < s.len() {
        Some(k)
    } else {
        None
    }
}

/// The offset of the first `<` in `t`, or 0.
pub open spec fn comment_offset(t: Seq<char>) -> int {
    let k = run(t, 0, CharClass::NotLt) as int;
    if k < t.len() {
        k
    } else {
        0
    }
}

/// The error that a directive on the line `s[lo..hi]` gets.
pub open spec fn directive_error(s: Seq<char>, lo: int, hi: int, message: Seq<char>) -> DiagView {
    (Rule::Ignore, message, byte_at(s, lo) as int, byte_at(s, hi) as int, Severity::Error, None)
}

/// What reading the directives gives: the open `ignore-start` line, the
/// byte ranges that are ignored, whether the whole file is, and the errors.
pub type Directives = (Option<(int, int)>, Seq<(int, int)>, bool, Seq<DiagView>);

/// Reads the directive on the line `s[lo..hi]`.
pub open spec fn directive_step(s: Seq<char>, st: Directives, lo: int, hi: int) -> Directives {
    let (open, ranges, file_ignored, errors) = st;
    let body = directive_body(trimmed(s.subrange(lo, hi)));
    let err = |m: Seq<char>| (open, ranges, file_ignored, errors.push(directive_error(s, lo, hi, m)));
    match reason(body, "deordinal-ignore-start"@) {
        Some(r) => if r.len() == 0 {
            err("ignore-start requires a reason"@)
        } else if open is Some {
            err("ignore-start cannot be nested"@)
        } else {
            (Some((lo, hi)), ranges, file_ignored, errors)
        },
        None => if body == Some("deordinal-ignore-end"@) {
            match open {
                Some((olo, ohi)) => (
                    None,
                    ranges.push((byte_at(s, ohi) as int, byte_at(s, lo) as int)),
                    file_ignored,
                    errors,
                ),
                None => err("ignore-end has no matching ignore-start"@),
            }
        } else {
            match reason(body, "deordinal-ignore-file"@) {
                Some(r) => if r.len() == 0 {
                    err("ignore-file requires a reason"@)
                } else if first_content(s) != Some(lo + comment_offset(s.subrange(lo, hi))) {
                    err("ignore-file must be at the start of the document"@)
                } else {
                    (open, ranges, true, errors)
                },
                None => err("invalid or unsupported ignore directive"@),
            }
        },
    }
}

/// Reads the directives on the lines `ds`, in order.
pub open spec fn read_directives(s: Seq<char>, ds: Seq<(int, int)>) -> Directives
    decreases ds.len(),
{
    if ds.len() == 0 {
        (None, seq![], false, seq![])
    } else {
        let (lo, hi) = ds.last();
        directive_step(s, read_directives(s, ds.drop_last()), lo, hi)
    }
}

/// The ignored byte ranges, whether the whole file is ignored, and the
/// errors, with one for an `ignore-start` that no `ignore-end` closes.
pub open spec fn directive_outcome(s: Seq<char>, ds: Seq<(int, int)>) -> (
    Seq<(int, int)>,
    bool,
    Seq<DiagView>,
) {
    let (open, ranges, file_ignored, errors) = read_directives(s, ds);
    (
        ranges,
        file_ignored,
        match open {
            Some((lo, hi)) => errors.push(
                directive_error(s, lo, hi, "ignore-start is not closed"@),
            ),
            None => errors,
        },
    )
}

/// `s[a..b]` trimmed of white space, as an index range.
pub fn trim_bounds(s: &[char], a: usize, b: usize) -> (r: (usize, usize))
    requires
        a <= b <= s@.len(),
    ensures
        r.0 <= r.1 <= s@.len(),
        s@.subrange(r.0 as int, r.1 as int) == trimmed(s@.subrange(a as int, b as int)),
{
    let t = &s[a..b];
    let x = run_len(t, 0, CharClass::Whitespace);
    let y = t.len() - back_run_len(t, t.len(), CharClass::Whitespace);
    if x >= y {
        proof {
            assert(s@.subrange(a as int, a as int) =~= Seq::<char>::empty());
        }
        (a, a)
    } else {
        proof {
            assert(s@.subrange(a + x, a + y) =~= t@.subrange(x as int, y as int));
        }
        (a + x, a + y)
    }
}

/// Whether `s[a..b]` begins with `w`.
pub fn begins(s: &[char], a: usize, b: usize, w: &[char]) -> (r: bool)
    requires
        a <= b <= s@.len(),
    ensures
        r == (w@.len() <= b - a && s@.subrange(a as int, a + w@.len()) == w@),
{
    if w.len() > b - a {
        return false;
    }
    let mut i: usize = 0;
    while i < w.len()
        invariant
            w@.len() <= b - a,
            a <= b <= s@.len(),
            i <= w@.len(),
            forall|j: int| 0 <= j < i ==> s@[a + j] == #[trigger] w@[j],
        decreases w@.len() - i,
    {
        if s[a + i] != w[i] {
            proof {
                assert(s@.subrange(a as int, a + w@.len())[i as int] != w@[i as int]);
            }
            return false;
        }
        i = i + 1;
    }
    proof {
        assert(s@.subrange(a as int, a + w@.len()) =~= w@);
    }
    true
}

/// Whether `s[a..b]` ends with `w`.
pub fn ends(s: &[char], a: usize, b: usize, w: &[char]) -> (r: bool)
    requires
        a <= b <= s@.len(),
    ensures
        r == (w@.len() <= b - a && s@.subrange(b - w@.len(), b as int) == w@),
{
    if w.len() > b - a {
        return false;
    }
    let r = begins(s, b - w.len(), b, w);
    proof {
        assert(b - w@.len() + w@.len() == b);
    }
    r
}

/// The reason after `name:` in the body `s[a..b]`, as an index range.
fn reason_bounds(s: &[char], body: Option<(usize, usize)>, name: &[char]) -> (r: Option<
    (usize, usize),
>)
    requires
        body matches Some((a, b)) ==> a <= b <= s@.len(),
    ensures
        match r {
            Some((x, y)) => x <= y <= s@.len() && reason(
                match body {
                    Some((a, b)) => Some(s@.subrange(a as int, b as int)),
                    None => None,
                },
                name@,
            ) == Some(s@.subrange(x as int, y as int)),
            None => reason(
                match body {
                    Some((a, b)) => Some(s@.subrange(a as int, b as int)),
                    None => None,
                },
                name@,
            ) is None,
        },
{
    match body {
        None => None,
        Some((a, b)) => {
            let ghost bs = s@.subrange(a as int, b as int);
            if b - a > name.len() && begins(s, a, b, name) && s[a + name.len()] == ':' {
                proof {
                    assert(bs.take(name@.len() as int) =~= s@.subrange(a as int, a + name@.len()));
                    assert(bs.skip(name@.len() + 1int) =~= s@.subrange(a + name@.len() + 1, b as int));
                }
                Some(trim_bounds(s, a + name.len() + 1, b))
            } else {
                proof {
                    if bs.len() > name@.len() && bs.take(name@.len() as int) == name@ {
                        assert(bs.take(name@.len() as int) =~= s@.subrange(a as int, a + name@.len()));
                    }
                }
                None
            }
        },
    }
}

/// The byte range of the line `text[lo..hi]` with an error message.
fn directive_error_at(text: &Text, lo: usize, hi: usize, message: &str) -> (d: Diagnostic)
    requires
        text.wf(),
        lo <= hi <= text@.len(),
    ensures
        d.view() == directive_error(text@, lo as int, hi as int, message@),
{
    Diagnostic::error(String::from_str(message), text.byte(lo), text.byte(hi))
}

pub open spec fn opt_pair(o: Option<(usize, usize)>) -> Option<(int, int)> {
    match o {
        Some((a, b)) => Some((a as int, b as int)),
        None => None,
    }
}

/// The directive lines given as byte ranges of `s`, as character ranges.
pub open spec fn char_lines(s: Seq<char>, v: Seq<(usize, usize)>) -> Seq<(int, int)> {
    v.map_values(
        |r: (usize, usize)|
            (char_at_byte(s, r.0 as int).unwrap(), char_at_byte(s, r.1 as int).unwrap()),
    )
}

/// Reads the directives on the lines of `source` given as byte ranges (each
/// from a character boundary to a later one): the byte ranges that they
/// ignore, whether they ignore the whole file, and the errors in them; see
/// [`parse_directives`].
pub fn parse_directives_in(source: &str, directives: &Vec<(usize, usize)>) -> (r: (
    Vec<(usize, usize)>,
    bool,
    Vec<Diagnostic>,
))
    requires
        crate::text::fits(source@),
        forall|k: int|
            0 <= k < directives@.len() ==> {
                &&& char_at_byte(source@, (#[trigger] directives@[k]).0 as int) is Some
                &&& char_at_byte(source@, directives@[k].1 as int) is Some
                &&& directives@[k].0 <= directives@[k].1
            },
    ensures
        int_pairs(r.0@) == directive_outcome(source@, char_lines(source@, directives@)).0,
        r.1 == directive_outcome(source@, char_lines(source@, directives@)).1,
        diag_views(r.2@) == directive_outcome(source@, char_lines(source@, directives@)).2,
{
    let text = Text::new(source);
    let mut ds: Vec<(usize, usize)> = Vec::new();
    let mut k: usize = 0;
    while k < directives.len()
        invariant
            text.wf(),
            text@ == source@,
            k <= directives@.len(),
            forall|j: int|
                0 <= j < directives@.len() ==> {
                    &&& char_at_byte(source@, (#[trigger] directives@[j]).0 as int) is Some
                    &&& char_at_byte(source@, directives@[j].1 as int) is Some
                    &&& directives@[j].0 <= directives@[j].1
                },
            int_pairs(ds@) == char_lines(source@, directives@).take(k as int),
            forall|j: int| 0 <= j < ds@.len() ==> (#[trigger] ds@[j]).0 <= ds@[j].1 <= text@.len(),
        decreases directives@.len() - k,
    {
        let (b1, b2) = directives[k];
        let a = text.char_index(b1).unwrap();
        let b = text.char_index(b2).unwrap();
        proof {
            if b < a {
                lemma_byte_at_mono(text@, b as int, a as int);
            }
            assert(char_at_byte(source@, b1 as int) == Some(a as int));
            assert(char_at_byte(source@, b2 as int) == Some(b as int));
            assert(char_lines(source@, directives@)[k as int] == (a as int, b as int));
            assert(char_lines(source@, directives@).take(k + 1) =~= char_lines(source@, directives@).take(k as int).push((a as int, b as int)));
            assert(int_pairs(ds@.push((a, b))) =~= int_pairs(ds@).push((a as int, b as int)));
        }
        ds.push((a, b));
        k = k + 1;
    }
    proof {
        assert(char_lines(source@, directives@).take(directives@.len() as int) =~= char_lines(
            source@,
            directives@,
        ));
    }
    parse_directives(&text, &ds)
}

/// Reads the ignore directives on the lines `ds` (index ranges, in order):
/// the byte ranges that they ignore, whether they ignore the whole file, and
/// the errors in them.
pub fn parse_directives(text: &Text, ds: &Vec<(usize, usize)>) -> (r: (
    Vec<(usize, usize)>,
    bool,
    Vec<Diagnostic>,
))
    requires
        text.wf(),
        forall|k: int| 0 <= k < ds@.len() ==> (#[trigger] ds@[k]).0 <= ds@[k].1 <= text@.len(),
    ensures
        int_pairs(r.0@) == directive_outcome(text@, int_pairs(ds@)).0,
        r.1 == directive_outcome(text@, int_pairs(ds@)).1,
        diag_views(r.2@) == directive_outcome(text@, int_pairs(ds@)).2,
{
    let s = text.chars.as_slice();
    let n = s.len();
    let start_name = chars_of("deordinal-ignore-start");
    let end_name = chars_of("deordinal-ignore-end");
    let file_name = chars_of("deordinal-ignore-file");
    let opening = chars_of("<!-- ");
    let closing = chars_of(" -->");
    let bom: usize = if n > 0 && s[0] == '\u{feff}' {
        1
    } else {
        0
    };
    let first = bom + run_len(s, bom, CharClass::Gap);
    let mut open: Option<(usize, usize)> = None;
    let mut ranges: Vec<(usize, usize)> = Vec::new();
    let mut file_ignored = false;
    let mut errors: Vec<Diagnostic> = Vec::new();
    let mut k: usize = 0;
    proof {
        assert(int_pairs(ds@).take(0) =~= Seq::<(int, int)>::empty());
        assert(int_pairs(ranges@) =~= Seq::<(int, int)>::empty());
        assert(diag_views(errors@) =~= Seq::<DiagView>::empty());
    }
    while k < ds.len()
        invariant
            text.wf(),
            s@ == text@,
            n == s@.len(),
            forall|k: int| 0 <= k < ds@.len() ==> (#[trigger] ds@[k]).0 <= ds@[k].1 <= text@.len(),
            start_name@ == "deordinal-ignore-start"@,
            end_name@ == "deordinal-ignore-end"@,
            file_name@ == "deordinal-ignore-file"@,
            opening@ == "<!-- "@,
            closing@ == " -->"@,
            first == bom_len(s@) + run(s@, bom_len(s@), CharClass::Gap),
            k <= ds@.len(),
            read_directives(text@, int_pairs(ds@).take(k as int)) == (
                opt_pair(open),
                int_pairs(ranges@),
                file_ignored,
                diag_views(errors@),
            ),
            open matches Some((a, b)) ==> a <= b <= n,
        decreases ds@.len() - k,
    {
        let (lo, hi) = ds[k];
        let (ta, tb) = trim_bounds(s, lo, hi);
        let body = if tb - ta >= 9 && begins(s, ta, tb, opening.as_slice()) && ends(
            s,
            ta,
            tb,
            closing.as_slice(),
        ) {
            Some((ta + 5, tb - 4))
        } else {
            None
        };
        let ghost t = s@.subrange(ta as int, tb as int);
        let ghost body_view = match body {
            Some((a, b)) => Some(s@.subrange(a as int, b as int)),
            None => None,
        };
        proof {
            reveal_strlit("<!-- ");
            reveal_strlit(" -->");
            assert(t == trimmed(s@.subrange(lo as int, hi as int)));
            if t.len() >= 9 {
                assert(t.take(5) =~= s@.subrange(ta as int, ta + 5));
                assert(t.skip(t.len() - 4) =~= s@.subrange(tb - 4, tb as int));
                assert(t.subrange(5, t.len() - 4) =~= s@.subrange(ta + 5, tb - 4));
            }
            assert(body_view == directive_body(t));
            assert(int_pairs(ds@).take(k + 1).drop_last() =~= int_pairs(ds@).take(k as int));
            assert(int_pairs(ds@).take(k + 1).last() == (lo as int, hi as int));
        }
        let started = reason_bounds(s, body, start_name.as_slice());
        if let Some((x, y)) = started {
            if x == y {
                let e = directive_error_at(text, lo, hi, "ignore-start requires a reason");
                proof {
                    assert(diag_views(errors@.push(e)) =~= diag_views(errors@).push(e.view()));
                }
                errors.push(e);
            } else if open.is_some() {
                let e = directive_error_at(text, lo, hi, "ignore-start cannot be nested");
                proof {
                    assert(diag_views(errors@.push(e)) =~= diag_views(errors@).push(e.view()));
                }
                errors.push(e);
            } else {
                open = Some((lo, hi));
            }
        } else {
            let is_end = match body {
                Some((a, b)) => b - a == end_name.len() && begins(s, a, b, end_name.as_slice()),
                None => false,
            };
            proof {
                if let Some((a, b)) = body {
                    if b - a == end_name@.len() && is_end {
                        assert(s@.subrange(a as int, b as int) =~= s@.subrange(
                            a as int,
                            a + end_name@.len(),
                        ));
                    }
                }
                assert(is_end == (body_view == Some("deordinal-ignore-end"@)));
            }
            if is_end {
                match open {
                    Some((olo, ohi)) => {
                        let range = (text.byte(ohi), text.byte(lo));
                        proof {
                            assert(int_pairs(ranges@.push(range)) =~= int_pairs(ranges@).push(
                                (range.0 as int, range.1 as int),
                            ));
                        }
                        ranges.push(range);
                        open = None;
                    },
                    None => {
                        let e = directive_error_at(
                            text,
                            lo,
                            hi,
                            "ignore-end has no matching ignore-start",
                        );
                        proof {
                            assert(diag_views(errors@.push(e)) =~= diag_views(errors@).push(
                                e.view(),
                            ));
                        }
                        errors.push(e);
                    },
                }
            } else {
                let filed = reason_bounds(s, body, file_name.as_slice());
                if let Some((x, y)) = filed {
                    let line = &s[lo..hi];
                    let lt = run_len(line, 0, CharClass::NotLt);
                    let offset = if lt < line.len() {
                        lt
                    } else {
                        0
                    };
                    proof {
                        assert(line@ == s@.subrange(lo as int, hi as int));
                    }
                    if x == y {
                        let e = directive_error_at(text, lo, hi, "ignore-file requires a reason");
                        proof {
                            assert(diag_views(errors@.push(e)) =~= diag_views(errors@).push(
                                e.view(),
                            ));
                        }
                        errors.push(e);
                    } else if !(first < n && first == lo + offset) {
                        let e = directive_error_at(
                            text,
                            lo,
                            hi,
                            "ignore-file must be at the start of the document",
                        );
                        proof {
                            assert(diag_views(errors@.push(e)) =~= diag_views(errors@).push(
                                e.view(),
                            ));
                        }
                        errors.push(e);
                    } else {
                        file_ignored = true;
                    }
                } else {
                    let e = directive_error_at(
                        text,
                        lo,
                        hi,
                        "invalid or unsupported ignore directive",
                    );
                    proof {
                        assert(diag_views(errors@.push(e)) =~= diag_views(errors@).push(e.view()));
                    }
                    errors.push(e);
                }
            }
        }
        k = k + 1;
    }
    proof {
        assert(int_pairs(ds@).take(ds@.len() as int) =~= int_pairs(ds@));
    }
    if let Some((olo, ohi)) = open {
        let e = directive_error_at(text, olo, ohi, "ignore-start is not closed");
        proof {
            assert(diag_views(errors@.push(e)) =~= diag_views(errors@).push(e.view()));
        }
        errors.push(e);
    }
    (ranges, file_ignored, errors)
}

// ---------------------------------------------------------------------------
// Parsing
// ---------------------------------------------------------------------------
/// The events that pulldown-cmark's parser yields for `source`, with tables
/// and task lists enabled: each event in its `Debug` notation, with its byte
/// range in `source`.
pub uninterp spec fn markdown_events(source: Seq<char>) -> Seq<(Seq<char>, usize, usize)>;

pub open spec fn event_views(v: Seq<(String, usize, usize)>) -> Seq<(Seq<char>, usize, usize)> {
    v.map_values(|e: (String, usize, usize)| (e.0@, e.1, e.2))
}

/// Runs pulldown-cmark's `Parser::new_ext` with `ENABLE_TABLES` and
/// `ENABLE_TASKLISTS` over `source` and its `into_offset_iter`. Claimed: the
/// result lists each event in its `Debug` notation with its byte range, as
/// the name `markdown_events` of `source`; nothing more is said of it.
#[verifier::external_body]
fn parse_markdown(source: &str) -> (events: Vec<(String, usize, usize)>)
    ensures
        event_views(events@) == markdown_events(source@),
{
    let options = pulldown_cmark::Options::ENABLE_TABLES
        | pulldown_cmark::Options::ENABLE_TASKLISTS;
    let mut events = Vec::new();
    for (event, range) in pulldown_cmark::Parser::new_ext(source, options).into_offset_iter() {
        events.push((format!("{event:?}"), range.start, range.end));
    }
    events
}

#[derive(Clone, Copy)]
pub enum EventKind {
    TableStart,
    TableEnd,
    CodeStart,
    CodeEnd,
    OrderedList,
    Text,
    Html,
    Other,
}

pub open spec fn starts_with(r: Seq<char>, w: Seq<char>) -> bool {
    w.len() <= r.len() && r.take(w.len() as int) == w
}

/// What the logic reads of an event, from its debug notation.
pub open spec fn event_kind(r: Seq<char>) -> EventKind {
    if starts_with(r, "Start(Table("@) {
        EventKind::TableStart
    } else if r == "End(Table)"@ {
        EventKind::TableEnd
    } else if starts_with(r, "Start(CodeBlock("@) {
        EventKind::CodeStart
    } else if r == "End(CodeBlock)"@ {
        EventKind::CodeEnd
    } else if starts_with(r, "Start(List(Some("@) {
        EventKind::OrderedList
    } else if starts_with(r, "Text("@) {
        EventKind::Text
    } else if starts_with(r, "Html("@) || starts_with(r, "InlineHtml("@) {
        EventKind::Html
    } else {
        EventKind::Other
    }
}

/// Orders directive lines by where they begin.
pub open spec fn start_le() -> spec_fn((int, int), (int, int)) -> bool {
    |a: (int, int), b: (int, int)| a.0 <= b.0
}

/// Adds a directive line to the lines in order, once.
pub open spec fn add_line(ls: Seq<(int, int)>, x: (int, int)) -> Seq<(int, int)> {
    if ls.contains(x) {
        ls
    } else {
        crate::sorting::insert_by(ls, x, start_le())
    }
}

/// More than blanks and carriage returns follow `e` on its line.
pub open spec fn followed(s: Seq<char>, e: int) -> bool {
    e + run(s, e, CharClass::Gap) < line_end(s, e)
}

/// The warning for the line `l` (relative to `a`) of a text event that
/// begins at `a`, if the text before it on its source line lets it begin a
/// block.
pub open spec fn text_line_finding(s: Seq<char>, a: int, l: (int, int)) -> Option<DiagView> {
    let at = a + l.0;
    let e = a + l.1;
    if is_structural_prefix(s.subrange(line_start(s, at), at)) {
        crate::rules::finding(s.subrange(at, e), byte_at(s, at) as int, true, followed(s, e))
    } else {
        None
    }
}

/// The ordered-list warning for a list marker.
pub open spec fn list_view(s: Seq<char>, m: (int, int)) -> DiagView {
    (
        Rule::OrderedList,
        Rule::OrderedList.spec_message(),
        byte_at(s, m.0) as int,
        byte_at(s, m.1) as int,
        Severity::Warning,
        None,
    )
}

/// An HTML event at `a` names its line as a directive line when the line,
/// trimmed, begins with `<!-- deordinal-ignore`.
pub open spec fn directive_line(s: Seq<char>, a: int) -> Option<(int, int)> {
    let ls = line_start(s, a);
    let le = line_end(s, a);
    if starts_with(trimmed(s.subrange(ls, le)), "<!-- deordinal-ignore"@) {
        Some((ls, le))
    } else {
        None
    }
}

/// The state of the walk over events: table depth, code block depth, the
/// warnings so far, and the directive lines so far (in order, once each).
pub type Walk = (nat, nat, Seq<DiagView>, Seq<(int, int)>);

/// One event of the body that begins at index `base`.
pub open spec fn walk_step(s: Seq<char>, base: int, w: Walk, e: (Seq<char>, usize, usize)) -> Walk {
    let (table, code, diags, lines) = w;
    let a = char_at_byte(s, byte_at(s, base) + e.1);
    let b = char_at_byte(s, byte_at(s, base) + e.2);
    let prose = table == 0 && code == 0;
    match event_kind(e.0) {
        EventKind::TableStart => (table + 1, code, diags, lines),
        EventKind::TableEnd => ((if table > 0 { table - 1 } else { 0 }) as nat, code, diags, lines),
        EventKind::CodeStart => (table, code + 1, diags, lines),
        EventKind::CodeEnd => (table, (if code > 0 { code - 1 } else { 0 }) as nat, diags, lines),
        EventKind::OrderedList => match a {
            Some(a) => if prose {
                match list_marker(s, a) {
                    Some(m) => (table, code, diags.push(list_view(s, m)), lines),
                    None => w,
                }
            } else {
                w
            },
            None => w,
        },
        EventKind::Text => match (a, b) {
            (Some(a), Some(b)) => if prose && a <= b {
                (
                    table,
                    code,
                    diags + collect(
                        crate::text::physical_lines(s.subrange(a, b)),
                        |l: (int, int)| text_line_finding(s, a, l),
                    ),
                    lines,
                )
            } else {
                w
            },
            _ => w,
        },
        EventKind::Html => match a {
            Some(a) => match directive_line(s, a) {
                Some(l) => (table, code, diags, add_line(lines, l)),
                None => w,
            },
            None => w,
        },
        EventKind::Other => w,
    }
}

pub open spec fn walk(s: Seq<char>, base: int, es: Seq<(Seq<char>, usize, usize)>) -> Walk
    decreases es.len(),
{
    if es.len() == 0 {
        (0, 0, seq![], seq![])
    } else {
        walk_step(s, base, walk(s, base, es.drop_last()), es.last())
    }
}

/// The byte ranges contain `x`.
pub open spec fn in_ranges(ranges: Seq<(int, int)>, x: int) -> bool {
    exists|i: int| 0 <= i < ranges.len() && ranges[i].0 <= x < #[trigger] ranges[i].1
}

/// The diagnostics of a Markdown text: the warnings of its prose and
/// ordered lists outside ignored ranges (none where the file is ignored),
/// then the errors of its directives.
pub open spec fn markdown_check(s: Seq<char>) -> Seq<DiagView> {
    markdown_from_events(s, markdown_events(s.skip(frontmatter_end(s))))
}

/// The diagnostics of a Markdown text whose body parses to the events `es`
/// (their offsets relative to the body); see [`markdown_check`].
pub open spec fn markdown_from_events(s: Seq<char>, es: Seq<(Seq<char>, usize, usize)>) -> Seq<
    DiagView,
> {
    let base = frontmatter_end(s);
    let w = walk(s, base, es);
    let (ranges, file_ignored, errors) = directive_outcome(s, w.3);
    (if file_ignored {
        seq![]
    } else {
        w.2.filter(|d: DiagView| !in_ranges(ranges, d.2))
    }) + errors
}


/// The directive lines, ignored ranges, file ignore and directive errors
/// of a Markdown text.
pub open spec fn directives_of(s: Seq<char>) -> (Seq<(int, int)>, bool, Seq<DiagView>) {
    let base = frontmatter_end(s);
    directive_outcome(s, walk(s, base, markdown_events(s.skip(base))).3)
}

/// Whether a Markdown text carries a valid `ignore-file` directive.
pub open spec fn ignores_file(s: Seq<char>) -> bool {
    directives_of(s).1
}

/// The byte ranges between valid `ignore-start` and `ignore-end` directives.
pub open spec fn ignored_ranges(s: Seq<char>) -> Seq<(int, int)> {
    directives_of(s).0
}

/// The errors of the ignore directives of a Markdown text.
pub open spec fn directive_errors(s: Seq<char>) -> Seq<DiagView> {
    directives_of(s).2
}

proof fn lemma_collect_warnings<A>(items: Seq<A>, f: spec_fn(A) -> Option<DiagView>)
    requires
        forall|x: A| #[trigger] f(x) matches Some(d) ==> d.4 == Severity::Warning,
    ensures
        forall|k: int|
            0 <= k < collect(items, f).len() ==> (#[trigger] collect(items, f)[k]).4
                == Severity::Warning,
    decreases items.len(),
{
    if items.len() > 0 {
        lemma_collect_warnings(items.drop_last(), f);
        let _ = f(items.last());
    }
}

proof fn lemma_walk_warnings(s: Seq<char>, base: int, es: Seq<(Seq<char>, usize, usize)>)
    ensures
        forall|k: int|
            0 <= k < walk(s, base, es).2.len() ==> (#[trigger] walk(s, base, es).2[k]).4
                == Severity::Warning,
    decreases es.len(),
{
    if es.len() > 0 {
        lemma_walk_warnings(s, base, es.drop_last());
        let w = walk(s, base, es.drop_last());
        let e = es.last();
        let a = char_at_byte(s, byte_at(s, base) + e.1);
        let b = char_at_byte(s, byte_at(s, base) + e.2);
        if event_kind(e.0) is Text {
            if let (Some(a), Some(b)) = (a, b) {
                let f = |l: (int, int)| text_line_finding(s, a, l);
                lemma_collect_warnings(crate::text::physical_lines(s.subrange(a, b)), f);
            }
        }
    }
}

proof fn lemma_directive_errors(s: Seq<char>, ds: Seq<(int, int)>)
    ensures
        forall|k: int|
            0 <= k < read_directives(s, ds).3.len() ==> (#[trigger] read_directives(s, ds).3[k]).4
                == Severity::Error,
        forall|k: int|
            0 <= k < directive_outcome(s, ds).2.len() ==> (#[trigger] directive_outcome(
                s,
                ds,
            ).2[k]).4 == Severity::Error,
    decreases ds.len(),
{
    if ds.len() > 0 {
        lemma_directive_errors(s, ds.drop_last());
    }
}

proof fn lemma_filter_keeps<T>(v: Seq<T>, pred: spec_fn(T) -> bool, prop: spec_fn(T) -> bool)
    requires
        forall|k: int| 0 <= k < v.len() ==> prop(#[trigger] v[k]),
    ensures
        forall|k: int| 0 <= k < v.filter(pred).len() ==> prop(#[trigger] v.filter(pred)[k]),
{
    assert forall|k: int| 0 <= k < v.filter(pred).len() implies prop(#[trigger] v.filter(pred)[k]) by {
        let x = v.filter(pred)[k];
        assert(v.filter(pred).contains(x));
        v.lemma_filter_contains_rev(pred, x);
        let i = choose|i: int| 0 <= i < v.len() && v[i] == x;
        assert(prop(v[i]));
    }
}

/// Every error of the ignore directives is reported, after the warnings,
/// whether or not the file or a range is ignored; and only they are errors.
pub proof fn lemma_directive_errors_reported(s: Seq<char>)
    ensures
        markdown_check(s).len() >= directive_errors(s).len(),
        markdown_check(s).skip(markdown_check(s).len() - directive_errors(s).len())
            == directive_errors(s),
        forall|k: int|
            0 <= k < markdown_check(s).len() - directive_errors(s).len() ==> (
            #[trigger] markdown_check(s)[k]).4 == Severity::Warning,
        forall|k: int|
            0 <= k < directive_errors(s).len() ==> (#[trigger] directive_errors(s)[k]).4
                == Severity::Error,
{
    let base = frontmatter_end(s);
    let w = walk(s, base, markdown_events(s.skip(base)));
    let pred = |d: DiagView| !in_ranges(ignored_ranges(s), d.2);
    let warns = if ignores_file(s) {
        Seq::<DiagView>::empty()
    } else {
        w.2.filter(pred)
    };
    lemma_walk_warnings(s, base, markdown_events(s.skip(base)));
    lemma_directive_errors(s, w.3);
    let is_warning = |d: DiagView| d.4 == Severity::Warning;
    lemma_filter_keeps(w.2, pred, is_warning);
    assert(markdown_check(s) =~= warns + directive_errors(s));
    assert(markdown_check(s).skip(warns.len() as int) =~= directive_errors(s));
    assert forall|k: int| 0 <= k < warns.len() implies (#[trigger] markdown_check(s)[k]).4
        == Severity::Warning by {
        assert(markdown_check(s)[k] == warns[k]);
        assert(is_warning(warns[k]));
    }
}

/// A valid `ignore-file` directive silences every warning: only the errors
/// of the directives remain.
pub proof fn lemma_ignore_file_silences(s: Seq<char>)
    requires
        ignores_file(s),
    ensures
        markdown_check(s) == directive_errors(s),
{
    assert(markdown_check(s) =~= directive_errors(s));
}

/// No warning starts inside a range between valid `ignore-start` and
/// `ignore-end` directives.
pub proof fn lemma_ignored_ranges_silence(s: Seq<char>)
    ensures
        forall|k: int|
            0 <= k < markdown_check(s).len() && (#[trigger] markdown_check(s)[k]).4
                == Severity::Warning ==> !in_ranges(ignored_ranges(s), markdown_check(s)[k].2),
{
    lemma_directive_errors_reported(s);
    let base = frontmatter_end(s);
    let w = walk(s, base, markdown_events(s.skip(base)));
    let pred = |d: DiagView| !in_ranges(ignored_ranges(s), d.2);
    if !ignores_file(s) {
        assert forall|k: int|
            0 <= k < markdown_check(s).len() && (#[trigger] markdown_check(s)[k]).4
                == Severity::Warning implies !in_ranges(ignored_ranges(s), markdown_check(s)[k].2) by {
            let n = w.2.filter(pred).len();
            assert(markdown_check(s) =~= w.2.filter(pred) + directive_errors(s));
            if k < n {
                w.2.lemma_filter_pred(pred, k);
            } else {
                assert(markdown_check(s)[k] == directive_errors(s)[k - n]);
            }
        }
    }
}

/// The byte range `p..q` lies inside a text event of prose: one read while
/// no code block or table is open.
pub open spec fn in_prose_text(s: Seq<char>, base: int, es: Seq<(Seq<char>, usize, usize)>, p: int, q: int) -> bool {
    exists|k: int|
        0 <= k < es.len() && event_kind((#[trigger] es[k]).0) is Text && walk(s, base, es.take(k)).0
            == 0 && walk(s, base, es.take(k)).1 == 0 && byte_at(s, base) + es[k].1 <= p && q
            <= byte_at(s, base) + es[k].2
}

/// The warnings of the lines of the text event `s[a..b]`.
pub open spec fn text_findings(s: Seq<char>, a: int, b: int) -> Seq<DiagView> {
    collect(
        crate::text::physical_lines(s.subrange(a, b)),
        |l: (int, int)| text_line_finding(s, a, l),
    )
}

/// The removals that the lines of a text event offer lie within it.
proof fn lemma_text_fixes(s: Seq<char>, a: int, b: int)
    requires
        0 <= a <= b <= s.len(),
    ensures
        forall|k: int|
            0 <= k < text_findings(s, a, b).len() ==> ((#[trigger] text_findings(s, a, b)[k]).5 matches Some((p, q))
                ==> byte_at(s, a) <= p && q <= byte_at(s, b)),
{
    let f = |l: (int, int)| text_line_finding(s, a, l);
    let ls = crate::text::physical_lines(s.subrange(a, b));
    let c = text_findings(s, a, b);
    crate::text::lemma_lines_bound(s.subrange(a, b), 0);
    assert forall|k: int| 0 <= k < c.len() implies ((#[trigger] c[k]).5 matches Some((p, q)) ==> byte_at(s, a) <= p && q <= byte_at(s, b)) by {
        crate::diagnostic::lemma_collect_member(ls, f, k);
        let j = choose|j: int| 0 <= j < ls.len() && f(#[trigger] ls[j]) == Some(c[k]);
        let l = ls[j];
        let at = a + l.0;
        let e = a + l.1;
        let line = s.subrange(at, e);
        crate::rules::lemma_line_finding_fix(line, true, followed(s, e));
        if let Some((p, q)) = c[k].5 {
            let (lo, hi) = choose|lo: int, hi: int|
                0 <= lo <= hi <= line.len() && p - byte_at(s, at) == byte_at(line, lo) && q
                    - byte_at(s, at) == byte_at(line, hi);
            crate::text::lemma_byte_at_subrange(s, at, e, lo);
            crate::text::lemma_byte_at_subrange(s, at, e, hi);
            lemma_byte_at_mono(s, a, at + lo);
            lemma_byte_at_mono(s, at + hi, b);
        }
    }
}

proof fn lemma_walk_fixes(s: Seq<char>, base: int, es: Seq<(Seq<char>, usize, usize)>)
    ensures
        forall|k: int|
            0 <= k < walk(s, base, es).2.len() ==> ((#[trigger] walk(s, base, es).2[k]).5 matches Some(
                (p, q),
            ) ==> in_prose_text(s, base, es, p, q)),
    decreases es.len(),
{
    if es.len() > 0 {
        let prev = es.drop_last();
        lemma_walk_fixes(s, base, prev);
        let w0 = walk(s, base, prev);
        let w = walk(s, base, es);
        let n = es.len() - 1;
        let e = es.last();
        assert(es.take(n) =~= prev);
        assert forall|k: int| 0 <= k < w.2.len() implies ((#[trigger] w.2[k]).5 matches Some((p, q))
            ==> in_prose_text(s, base, es, p, q)) by {
            if let Some((p, q)) = w.2[k].5 {
                if k < w0.2.len() {
                    assert(w.2[k] == w0.2[k]);
                    assert(in_prose_text(s, base, prev, p, q));
                    let j = choose|j: int|
                        0 <= j < prev.len() && event_kind((#[trigger] prev[j]).0) is Text && walk(
                            s,
                            base,
                            prev.take(j),
                        ).0 == 0 && walk(s, base, prev.take(j)).1 == 0 && byte_at(s, base) + prev[j].1
                            <= p && q <= byte_at(s, base) + prev[j].2;
                    assert(es[j] == prev[j]);
                    assert(es.take(j) =~= prev.take(j));
                } else {
                    let a = char_at_byte(s, byte_at(s, base) + e.1);
                    let b = char_at_byte(s, byte_at(s, base) + e.2);
                    assert(event_kind(e.0) is Text);
                    let (ai, bi) = (a.unwrap(), b.unwrap());
                    assert(w0.0 == 0 && w0.1 == 0 && ai <= bi);
                    assert(0 <= ai <= s.len() && byte_at(s, ai) == byte_at(s, base) + e.1);
                    assert(0 <= bi <= s.len() && byte_at(s, bi) == byte_at(s, base) + e.2);
                    let c = text_findings(s, ai, bi);
                    assert(w.2 == w0.2 + c);
                    lemma_text_fixes(s, ai, bi);
                    assert(w.2[k] == c[k - w0.2.len()]);
                    assert(es[n] == e);
                }
            }
        }
    }
}

/// In Markdown, every removal that the diagnostics offer lies inside a text
/// event of prose: code blocks, tables, markup and HTML are never edited.
pub proof fn lemma_markdown_fixes_in_prose(s: Seq<char>)
    ensures
        forall|k: int|
            0 <= k < markdown_check(s).len() ==> ((#[trigger] markdown_check(s)[k]).5 matches Some(
                (p, q),
            ) ==> in_prose_text(
                s,
                frontmatter_end(s),
                markdown_events(s.skip(frontmatter_end(s))),
                p,
                q,
            )),
{
    let base = frontmatter_end(s);
    let es = markdown_events(s.skip(base));
    let w = walk(s, base, es);
    let pred = |d: DiagView| !in_ranges(ignored_ranges(s), d.2);
    lemma_walk_fixes(s, base, es);
    lemma_directive_errors_reported(s);
    let m = markdown_check(s);
    let n = m.len() - directive_errors(s).len();
    assert forall|k: int| 0 <= k < m.len() implies ((#[trigger] m[k]).5 matches Some((p, q))
        ==> in_prose_text(s, base, es, p, q)) by {
        if let Some((p, q)) = m[k].5 {
            if !ignores_file(s) {
                assert(m =~= w.2.filter(pred) + directive_errors(s));
                if k < w.2.filter(pred).len() {
                    let d = m[k];
                    assert(d == w.2.filter(pred)[k]);
                    assert(w.2.filter(pred).contains(d));
                    w.2.lemma_filter_contains_rev(pred, d);
                    let i = choose|i: int| 0 <= i < w.2.len() && w.2[i] == d;
                    assert(w.2[i].5 == Some((p, q)));
                } else {
                    lemma_directive_errors(s, w.3);
                    assert(m[k] == directive_errors(s)[k - w.2.filter(pred).len()]);
                    lemma_directive_fixes(s, w.3);
                }
            } else {
                assert(m =~= directive_errors(s));
                lemma_directive_fixes(s, w.3);
            }
        }
    }
}

proof fn lemma_directive_fixes(s: Seq<char>, ds: Seq<(int, int)>)
    ensures
        forall|k: int|
            0 <= k < directive_outcome(s, ds).2.len() ==> (#[trigger] directive_outcome(s, ds).2[k]).5 is None,
{
    lemma_read_directive_fixes(s, ds);
}

proof fn lemma_read_directive_fixes(s: Seq<char>, ds: Seq<(int, int)>)
    ensures
        forall|k: int|
            0 <= k < read_directives(s, ds).3.len() ==> (#[trigger] read_directives(s, ds).3[k]).5 is None,
    decreases ds.len(),
{
    if ds.len() > 0 {
        lemma_read_directive_fixes(s, ds.drop_last());
    }
}

fn event_kind_of(r: &str) -> (k: EventKind)
    ensures
        k == event_kind(r@),
{
    let c = chars_of(r);
    let n = c.len();
    let cs = c.as_slice();
    let table_start = chars_of("Start(Table(");
    let table_end = chars_of("End(Table)");
    let code_start = chars_of("Start(CodeBlock(");
    let code_end = chars_of("End(CodeBlock)");
    let list_start = chars_of("Start(List(Some(");
    let text = chars_of("Text(");
    let html = chars_of("Html(");
    let inline_html = chars_of("InlineHtml(");
    proof {
        assert(c@.subrange(0, n as int) =~= c@);
        assert forall|w: Seq<char>| w.len() <= n implies c@.take(w.len() as int)
            == c@.subrange(0, w.len() as int) by {}
    }
    if begins(cs, 0, n, table_start.as_slice()) {
        EventKind::TableStart
    } else if chars_equal_slice(cs, table_end.as_slice()) {
        EventKind::TableEnd
    } else if begins(cs, 0, n, code_start.as_slice()) {
        EventKind::CodeStart
    } else if chars_equal_slice(cs, code_end.as_slice()) {
        EventKind::CodeEnd
    } else if begins(cs, 0, n, list_start.as_slice()) {
        EventKind::OrderedList
    } else if begins(cs, 0, n, text.as_slice()) {
        EventKind::Text
    } else if begins(cs, 0, n, html.as_slice()) || begins(cs, 0, n, inline_html.as_slice()) {
        EventKind::Html
    } else {
        EventKind::Other
    }
}

fn chars_equal_slice(a: &[char], b: &[char]) -> (r: bool)
    ensures
        r == (a@ == b@),
{
    if a.len() != b.len() {
        return false;
    }
    let r = begins(a, 0, a.len(), b);
    proof {
        assert(a@.subrange(0, b@.len() as int) =~= a@);
    }
    r
}

/// The index of the character at byte `base + r`, if there is one.
fn index_at(text: &Text, base: usize, r: usize) -> (i: Option<usize>)
    requires
        text.wf(),
    ensures
        i matches Some(j) ==> char_at_byte(text@, base + r) == Some(j as int),
        i is None ==> char_at_byte(text@, base + r) is None,
        i matches Some(j) ==> j <= text@.len(),
{
    match base.checked_add(r) {
        Some(b) => text.char_index(b),
        None => {
            proof {
                let n = text@.len() as int;
                assert(text.bytes@[n] == byte_at(text@, n));
                assert forall|j: int| 0 <= j <= n implies byte_at(text@, j) != base + r by {
                    lemma_byte_at_mono(text@, j, n);
                }
                assert(!(exists|j: int| 0 <= j <= n && byte_at(text@, j) == base + r));
            }
            None
        },
    }
}

fn contains_pair(v: &Vec<(usize, usize)>, x: (usize, usize)) -> (r: bool)
    ensures
        r == int_pairs(v@).contains((x.0 as int, x.1 as int)),
{
    let mut i: usize = 0;
    while i < v.len()
        invariant
            i <= v@.len(),
            forall|j: int| 0 <= j < i ==> #[trigger] v@[j] != x,
        decreases v@.len() - i,
    {
        if v[i].0 == x.0 && v[i].1 == x.1 {
            proof {
                assert(int_pairs(v@)[i as int] == (x.0 as int, x.1 as int));
            }
            return true;
        }
        i = i + 1;
    }
    proof {
        if int_pairs(v@).contains((x.0 as int, x.1 as int)) {
            let j = choose|j: int| 0 <= j < int_pairs(v@).len() && int_pairs(v@)[j] == (
                x.0 as int,
                x.1 as int,
            );
            assert(v@[j] == x);
        }
    }
    false
}

/// Adds a directive line once, keeping the lines in order of their start.
fn add_directive_line(lines: &mut Vec<(usize, usize)>, x: (usize, usize), n: usize)
    requires
        x.0 <= x.1 <= n,
        forall|k: int|
            0 <= k < old(lines)@.len() ==> (#[trigger] old(lines)@[k]).0 <= old(lines)@[k].1 <= n,
    ensures
        int_pairs(final(lines)@) == add_line(int_pairs(old(lines)@), (x.0 as int, x.1 as int)),
        forall|k: int|
            0 <= k < final(lines)@.len() ==> (#[trigger] final(lines)@[k]).0 <= final(lines)@[k].1
                <= n,
{
    if contains_pair(lines, x) {
        return;
    }
    let ghost old_lines = lines@;
    let mut p = lines.len();
    while p > 0 && lines[p - 1].0 > x.0
        invariant
            p <= lines@.len(),
            lines@ == old_lines,
            forall|j: int| p <= j < lines@.len() ==> (#[trigger] lines@[j]).0 > x.0,
        decreases p,
    {
        p = p - 1;
    }
    proof {
        let ip = int_pairs(old_lines);
        let xi = (x.0 as int, x.1 as int);
        crate::sorting::lemma_insert_at(ip, xi, start_le(), p as int);
        assert(int_pairs(old_lines.insert(p as int, x)) =~= ip.take(p as int) + seq![xi] + ip.skip(
            p as int,
        ));
    }
    lines.insert(p, x);
    proof {
        assert forall|k: int| 0 <= k < lines@.len() implies (#[trigger] lines@[k]).0 <= lines@[k].1
            <= n by {
            if k < p {
                assert(lines@[k] == old_lines[k]);
            } else if k > p {
                assert(lines@[k] == old_lines[k - 1]);
            }
        }
    }
}

/// Pushes the warnings of the text event `s[a..b]`.
fn text_event(text: &Text, a: usize, b: usize, diags: &mut Vec<Diagnostic>)
    requires
        text.wf(),
        a <= b <= text@.len(),
    ensures
        diag_views(final(diags)@) == diag_views(old(diags)@) + collect(
            crate::text::physical_lines(text@.subrange(a as int, b as int)),
            |l: (int, int)| text_line_finding(text@, a as int, l),
        ),
{
    let s = text.chars.as_slice();
    let lines = crate::text::line_ranges(&s[a..b]);
    let ghost ls = crate::text::physical_lines(text@.subrange(a as int, b as int));
    let ghost f = |l: (int, int)| text_line_finding(text@, a as int, l);
    let ghost before = diag_views(diags@);
    let mut j: usize = 0;
    proof {
        assert(ls.take(0) =~= Seq::<(int, int)>::empty());
        assert(before + collect(ls.take(0), f) =~= before);
    }
    while j < lines.len()
        invariant
            text.wf(),
            s@ == text@,
            a <= b <= text@.len(),
            int_pairs(lines@) == ls,
            forall|k: int| 0 <= k < lines@.len() ==> (#[trigger] lines@[k]).0 <= lines@[k].1 <= b
                - a,
            j <= lines@.len(),
            diag_views(diags@) == before + collect(ls.take(j as int), f),
            f == (|l: (int, int)| text_line_finding(text@, a as int, l)),
        decreases lines@.len() - j,
    {
        let (lo, hi) = lines[j];
        let at = a + lo;
        let e = a + hi;
        proof {
            assert(ls.take(j + 1).drop_last() =~= ls.take(j as int));
            assert(ls[j as int] == (lo as int, hi as int));
        }
        let start = line_start_at(s, at);
        let found = if structural_prefix(s, start, at) {
            let le = line_end_at(s, e);
            let more = e + run_len(s, e, CharClass::Gap) < le;
            crate::rules::line_diagnostic(text, at, e, true, more)
        } else {
            None
        };
        proof {
            assert(f(ls[j as int]) == text_line_finding(text@, a as int, (lo as int, hi as int)));
        }
        match found {
            Some(d) => {
                proof {
                    lemma_views_push(diags@, d);
                    assert(before + collect(ls.take(j + 1), f) =~= (before + collect(
                        ls.take(j as int),
                        f,
                    )).push(d.view()));
                }
                diags.push(d);
            },
            None => {
                proof {
                    assert(before + collect(ls.take(j + 1), f) =~= before + collect(
                        ls.take(j as int),
                        f,
                    ));
                }
            },
        }
        j = j + 1;
    }
    proof {
        assert(ls.take(lines@.len() as int) =~= ls);
    }
}


fn directive_line_at(s: &[char], a: usize, marker: &[char]) -> (r: Option<(usize, usize)>)
    requires
        a <= s@.len(),
        marker@ == "<!-- deordinal-ignore"@,
    ensures
        opt_pair(r) == directive_line(s@, a as int),
        r matches Some((x, y)) ==> x <= y <= s@.len(),
{
    let ls = line_start_at(s, a);
    let le = line_end_at(s, a);
    let (ta, tb) = trim_bounds(s, ls, le);
    let r = begins(s, ta, tb, marker);
    proof {
        let t = s@.subrange(ta as int, tb as int);
        if marker@.len() <= t.len() {
            assert(t.take(marker@.len() as int) =~= s@.subrange(ta as int, ta + marker@.len()));
        }
    }
    if r {
        Some((ls, le))
    } else {
        None
    }
}

/// Whether a byte range of `ranges` contains `x`.
fn in_any_range(ranges: &Vec<(usize, usize)>, x: usize) -> (r: bool)
    ensures
        r == in_ranges(int_pairs(ranges@), x as int),
{
    let mut i: usize = 0;
    while i < ranges.len()
        invariant
            i <= ranges@.len(),
            forall|j: int| 0 <= j < i ==> !(ranges@[j].0 <= x < #[trigger] ranges@[j].1),
        decreases ranges@.len() - i,
    {
        if ranges[i].0 <= x && x < ranges[i].1 {
            proof {
                assert(int_pairs(ranges@)[i as int].1 == ranges@[i as int].1);
            }
            return true;
        }
        i = i + 1;
    }
    proof {
        if in_ranges(int_pairs(ranges@), x as int) {
            let j = choose|j: int|
                0 <= j < int_pairs(ranges@).len() && int_pairs(ranges@)[j].0 <= x
                    < #[trigger] int_pairs(ranges@)[j].1;
            assert(ranges@[j].0 <= x < ranges@[j].1);
        }
    }
    false
}

/// The diagnostics of the Markdown text `text`; see [`markdown_check`].
pub fn check(text: &Text) -> (r: Vec<Diagnostic>)
    requires
        text.wf(),
    ensures
        diag_views(r@) == markdown_check(text@),
{
    let s = text.chars.as_slice();
    let base = body_start(s);
    let body = crate::text::string_of(s, base, s.len());
    proof {
        assert(body@ =~= text@.skip(base as int));
    }
    let events = parse_markdown(body.as_str());
    markdown_diagnostics(text, &events)
}

/// The diagnostics of a Markdown text whose body (after the front matter)
/// parses to the events `events`: each event's debug notation and its byte
/// range relative to the body.
pub fn markdown_diagnostics(text: &Text, events: &Vec<(String, usize, usize)>) -> (r: Vec<
    Diagnostic,
>)
    requires
        text.wf(),
    ensures
        diag_views(r@) == markdown_from_events(text@, event_views(events@)),
{
    let s = text.chars.as_slice();
    let n = s.len();
    let base = body_start(s);
    let base_byte = text.byte(base);
    let marker = chars_of("<!-- deordinal-ignore");
    let ghost es = event_views(events@);
    let mut table: usize = 0;
    let mut code: usize = 0;
    let mut diags: Vec<Diagnostic> = Vec::new();
    let mut lines: Vec<(usize, usize)> = Vec::new();
    let mut k: usize = 0;
    proof {
        assert(es.take(0) =~= Seq::<(Seq<char>, usize, usize)>::empty());
        assert(diag_views(diags@) =~= Seq::<DiagView>::empty());
        assert(int_pairs(lines@) =~= Seq::<(int, int)>::empty());
    }
    while k < events.len()
        invariant
            text.wf(),
            s@ == text@,
            n == s@.len(),
            base == frontmatter_end(text@),
            base_byte == byte_at(text@, base as int),
            marker@ == "<!-- deordinal-ignore"@,
            es == event_views(events@),
            k <= events@.len(),
            table <= k,
            code <= k,
            walk(text@, base as int, es.take(k as int)) == (
                table as nat,
                code as nat,
                diag_views(diags@),
                int_pairs(lines@),
            ),
            forall|j: int| 0 <= j < lines@.len() ==> (#[trigger] lines@[j]).0 <= lines@[j].1 <= n,
        decreases events@.len() - k,
    {
        let e = &events[k];
        let kind = event_kind_of(e.0.as_str());
        let ghost before = (table as nat, code as nat, diag_views(diags@), int_pairs(lines@));
        proof {
            assert(es.take(k + 1).drop_last() =~= es.take(k as int));
            assert(es.take(k + 1).last() == (e.0@, e.1, e.2));
        }
        match kind {
            EventKind::TableStart => {
                table = table + 1;
            },
            EventKind::TableEnd => {
                if table > 0 {
                    table = table - 1;
                }
            },
            EventKind::CodeStart => {
                code = code + 1;
            },
            EventKind::CodeEnd => {
                if code > 0 {
                    code = code - 1;
                }
            },
            EventKind::OrderedList => {
                if let Some(a) = index_at(text, base_byte, e.1) {
                    if table == 0 && code == 0 {
                        if let Some((ma, me)) = list_marker_at(s, a) {
                            let d = Diagnostic::warning(
                                Rule::OrderedList,
                                text.byte(ma),
                                text.byte(me),
                                None,
                            );
                            proof {
                                lemma_views_push(diags@, d);
                            }
                            diags.push(d);
                        }
                    }
                }
            },
            EventKind::Text => {
                let a = index_at(text, base_byte, e.1);
                let b = index_at(text, base_byte, e.2);
                if let (Some(a), Some(b)) = (a, b) {
                    if table == 0 && code == 0 && a <= b {
                        text_event(text, a, b, &mut diags);
                    }
                }
            },
            EventKind::Html => {
                if let Some(a) = index_at(text, base_byte, e.1) {
                    if let Some(l) = directive_line_at(s, a, marker.as_slice()) {
                        add_directive_line(&mut lines, l, n);
                    }
                }
            },
            EventKind::Other => {},
        }
        k = k + 1;
    }
    proof {
        assert(es.take(events@.len() as int) =~= es);
    }
    let (ranges, file_ignored, errors) = parse_directives(text, &lines);
    let ghost w = walk(text@, base as int, es);
    let ghost pred = |d: DiagView| !in_ranges(int_pairs(ranges@), d.2);
    let mut out: Vec<Diagnostic> = Vec::new();
    if !file_ignored {
        let mut i: usize = 0;
        proof {
            assert(w.2.take(0) =~= Seq::<DiagView>::empty());
            reveal_with_fuel(Seq::filter, 1);
            assert(diag_views(out@) =~= w.2.take(0).filter(pred));
        }
        while i < diags.len()
            invariant
                w.2 == diag_views(diags@),
                i <= diags@.len(),
                pred == (|d: DiagView| !in_ranges(int_pairs(ranges@), d.2)),
                diag_views(out@) == w.2.take(i as int).filter(pred),
            decreases diags@.len() - i,
        {
            let d = diags[i].clone();
            proof {
                assert(w.2.take(i + 1).drop_last() =~= w.2.take(i as int));
                assert(w.2[i as int] == d.view());
                reveal_with_fuel(Seq::filter, 1);
            }
            if !in_any_range(&ranges, d.start) {
                proof {
                    lemma_views_push(out@, d);
                }
                out.push(d);
            }
            i = i + 1;
        }
        proof {
            assert(w.2.take(diags@.len() as int) =~= w.2);
        }
    }
    let ghost kept = diag_views(out@);
    let mut j: usize = 0;
    while j < errors.len()
        invariant
            j <= errors@.len(),
            diag_views(out@) == kept + diag_views(errors@).take(j as int),
        decreases errors@.len() - j,
    {
        let d = errors[j].clone();
        proof {
            lemma_views_push(out@, d);
            assert(diag_views(errors@).take(j + 1) =~= diag_views(errors@).take(j as int).push(
                d.view(),
            ));
        }
        out.push(d);
        j = j + 1;
    }
    proof {
        assert(diag_views(errors@).take(errors@.len() as int) =~= diag_views(errors@));
        assert(kept + diag_views(errors@) =~= markdown_from_events(text@, es));
    }
    out
}


/// The events of `es` other than text, in their notation.
pub open spec fn non_text(es: Seq<(Seq<char>, usize, usize)>) -> Seq<Seq<char>>
    decreases es.len(),
{
    if es.len() == 0 {
        seq![]
    } else {
        non_text(es.drop_last()) + if event_kind(es.last().0) is Text {
            seq![]
        } else {
            seq![es.last().0]
        }
    }
}

/// The shape of a Markdown text: the parser's events for its body, text
/// left out, so that a change to prose alone keeps the shape.
pub open spec fn markdown_shape(s: Seq<char>) -> Seq<Seq<char>> {
    non_text(markdown_events(s.skip(frontmatter_end(s))))
}

pub open spec fn char_seqs(v: Seq<Vec<char>>) -> Seq<Seq<char>> {
    v.map_values(|c: Vec<char>| c@)
}

/// The shape of the Markdown text; see [`markdown_shape`].
pub fn shape(source: &str) -> (r: Vec<Vec<char>>)
    requires
        crate::text::fits(source@),
    ensures
        char_seqs(r@) == markdown_shape(source@),
{
    let text = Text::new(source);
    let s = text.chars.as_slice();
    let base = body_start(s);
    let body = crate::text::string_of(s, base, s.len());
    proof {
        assert(body@ =~= source@.skip(base as int));
    }
    let events = parse_markdown(body.as_str());
    let ghost es = event_views(events@);
    let mut out: Vec<Vec<char>> = Vec::new();
    let mut k: usize = 0;
    proof {
        assert(es.take(0) =~= Seq::<(Seq<char>, usize, usize)>::empty());
        assert(char_seqs(out@) =~= Seq::<Seq<char>>::empty());
    }
    while k < events.len()
        invariant
            es == event_views(events@),
            k <= events@.len(),
            char_seqs(out@) == non_text(es.take(k as int)),
        decreases events@.len() - k,
    {
        let kind = event_kind_of(events[k].0.as_str());
        proof {
            assert(es.take(k + 1).drop_last() =~= es.take(k as int));
            assert(es.take(k + 1).last() == es[k as int]);
        }
        match kind {
            EventKind::Text => {
                proof {
                    assert(non_text(es.take(k + 1)) =~= non_text(es.take(k as int)));
                }
            },
            _ => {
                let c = chars_of(events[k].0.as_str());
                proof {
                    assert(char_seqs(out@.push(c)) =~= char_seqs(out@).push(c@));
                    assert(non_text(es.take(k + 1)) =~= non_text(es.take(k as int)).push(c@));
                }
                out.push(c);
            },
        }
        k = k + 1;
    }
    proof {
        assert(es.take(events@.len() as int) =~= es);
    }
    out
}

/// Whether two Markdown texts parse to the same shape: edits to their prose
/// alone keep it, edits that change blocks, inline markup or HTML do not.
pub fn same_structure(before: &str, after: &str) -> (r: bool)
    requires
        crate::text::fits(before@),
        crate::text::fits(after@),
    ensures
        r == (markdown_shape(before@) == markdown_shape(after@)),
{
    let a = shape(before);
    let b = shape(after);
    if a.len() != b.len() {
        proof {
            assert(char_seqs(a@).len() != char_seqs(b@).len());
        }
        return false;
    }
    let mut i: usize = 0;
    while i < a.len()
        invariant
            a@.len() == b@.len(),
            char_seqs(a@) == markdown_shape(before@),
            char_seqs(b@) == markdown_shape(after@),
            i <= a@.len(),
            forall|j: int| 0 <= j < i ==> char_seqs(a@)[j] == #[trigger] char_seqs(b@)[j],
        decreases a@.len() - i,
    {
        if !crate::diagnostic::chars_equal(&a[i], &b[i]) {
            proof {
                assert(char_seqs(a@)[i as int] != char_seqs(b@)[i as int]);
            }
            return false;
        }
        i = i + 1;
    }
    proof {
        assert(char_seqs(a@) =~= char_seqs(b@));
    }
    true
}

} // verus!
