//! Code: labels in comments, and in Python docstrings.

use vstd::prelude::*;

use crate::diagnostic::{DiagView, Diagnostic, collect, diag_views, lemma_views_push};
use crate::markdown::starts_with;
use crate::rules::{CharClass, finding, line_diagnostic, run, run_len};
use crate::syntax::{
    ChildTest, Grammar, NodeView, SyntaxNode, child_count, child_test, count_children,
    find_child, first_child, kind_is, node_views, parse_syntax, subtree_end, subtree_end_at,
    syntax_nodes,
};
use crate::text::{byte_at, char_at_byte, chars_of, int_pairs, line_ranges, physical_lines, Text};

verus! {

/// The character range of the bytes `b1..b2` of `s`, where both fall on
/// character boundaries in order.
pub open spec fn char_range(s: Seq<char>, b1: int, b2: int) -> Option<(int, int)> {
    match (char_at_byte(s, b1), char_at_byte(s, b2)) {
        (Some(a), Some(b)) => if a <= b {
            Some((a, b))
        } else {
            None
        },
        _ => None,
    }
}

// ---------------------------------------------------------------------------
// Comments
// ---------------------------------------------------------------------------
/// The comment marker that a comment line begins with: `/*` or `*` in a
/// block comment, `//`, `#`, or none in a block comment. A line of a line
/// comment without a marker is not read.
pub open spec fn comment_marker(text: Seq<char>, block: bool) -> Option<int> {
    if block && starts_with(text, "/*"@) {
        Some(2)
    } else if block && starts_with(text, seq!['*']) {
        Some(1)
    } else if starts_with(text, "//"@) {
        Some(2)
    } else if starts_with(text, seq!['#']) {
        Some(1)
    } else if block {
        Some(0)
    } else {
        None
    }
}

/// The warning for the line `l` (relative to `c`) of a comment at `c`.
pub open spec fn comment_line_finding(s: Seq<char>, c: int, block: bool, l: (int, int)) -> Option<
    DiagView,
> {
    let lead = run(s.subrange(c + l.0, c + l.1), 0, CharClass::BlankCr) as int;
    let at = c + l.0 + lead;
    match comment_marker(s.subrange(at, c + l.1), block) {
        Some(m) => finding(s.subrange(at + m, c + l.1), byte_at(s, at + m) as int, true, false),
        None => None,
    }
}

/// The warnings of the comment `s[a..b]`, line by line.
pub open spec fn comment_findings(s: Seq<char>, a: int, b: int) -> Seq<DiagView> {
    let raw = s.subrange(a, b);
    collect(
        physical_lines(raw),
        |l: (int, int)| comment_line_finding(s, a, starts_with(raw, "/*"@), l),
    )
}

// ---------------------------------------------------------------------------
// Docstrings
// ---------------------------------------------------------------------------
pub open spec fn is_definition(k: Seq<char>) -> bool {
    k == "module"@ || k == "class_definition"@ || k == "function_definition"@
}

/// The expression inside parentheses that each hold one named node.
pub open spec fn unparen(t: Seq<NodeView>, x: int) -> int
    decreases t.len() - x,
{
    if 0 <= x < t.len() && t[x].0 == "parenthesized_expression"@ && count_children(
        t,
        x,
        x + 1,
        child_test(ChildTest::Named),
    ) == 1 {
        match find_child(t, x, x + 1, child_test(ChildTest::Named)) {
            Some(y) => if x < y < t.len() {
                unparen(t, y)
            } else {
                x
            },
            None => x,
        }
    } else {
        x
    }
}

/// `r`, `R`, `u`, `U`: the prefixes that a docstring may carry.
pub open spec fn is_plain_prefix(c: char) -> bool {
    c == 'r' || c == 'R' || c == 'u' || c == 'U'
}

/// The length of the quote that a string literal opens with.
pub open spec fn quote_len(lit: Seq<char>) -> Option<int> {
    if starts_with(lit, "\"\"\""@) || starts_with(lit, "'''"@) {
        Some(3)
    } else if starts_with(lit, seq!['"']) || starts_with(lit, seq!['\'']) {
        Some(1)
    } else {
        None
    }
}

/// A literal opens with a quote of three where its first three characters
/// are the same quote character, `"` or `'`; else with a quote of one where
/// it begins with a quote character; else with none.
pub proof fn lemma_quote_len(lit: Seq<char>)
    ensures
        lit.len() >= 3 && (lit[0] == '"' || lit[0] == '\'') && lit[1] == lit[0] && lit[2] == lit[0]
            ==> quote_len(lit) == Some(3int),
        lit.len() >= 1 && (lit[0] == '"' || lit[0] == '\'') && !(lit.len() >= 3 && lit[1] == lit[0]
            && lit[2] == lit[0]) ==> quote_len(lit) == Some(1int),
        lit.len() == 0 || !(lit[0] == '"' || lit[0] == '\'') ==> quote_len(lit) is None,
{
    reveal_strlit("\"\"\"");
    reveal_strlit("'''");
    assert("\"\"\""@ =~= seq!['"', '"', '"']);
    assert("'''"@ =~= seq!['\'', '\'', '\'']);
    if lit.len() >= 3 {
        assert(lit.take(3) =~= seq![lit[0], lit[1], lit[2]]);
    }
    if lit.len() >= 1 {
        assert(lit.take(1) =~= seq![lit[0]]);
        assert(lit.take(1)[0] == lit[0]);
    }
    if lit.len() >= 3 {
        assert(lit.take(3)[0] == lit[0]);
    }
}

/// Where the content of the string literal `s[a..b]` lies, between its
/// quotes, after a prefix of `r`, `R`, `u`, `U`.
pub open spec fn string_content(s: Seq<char>, a: int, b: int) -> Option<(int, int)> {
    let raw = s.subrange(a, b);
    let p = run(raw, 0, CharClass::AsciiAlpha) as int;
    let lit = raw.skip(p);
    if forall|i: int| 0 <= i < p ==> is_plain_prefix(#[trigger] raw[i]) {
        match quote_len(lit) {
            Some(q) => if lit.len() >= 2 * q && lit.skip(lit.len() - q) == lit.take(q) {
                Some((a + p + q, b - q))
            } else {
                None
            },
            None => None,
        }
    } else {
        None
    }
}

/// The warnings of a docstring whose content is `s[c..e]`; docstrings are
/// not edited.
pub open spec fn docstring_content_findings(s: Seq<char>, c: int, e: int) -> Seq<DiagView> {
    collect(
        physical_lines(s.subrange(c, e)),
        |l: (int, int)| finding(s.subrange(c + l.0, c + l.1), byte_at(s, c + l.0) as int, false, false),
    )
}

/// The warnings of the docstring of the module, class or function at `i`:
/// its body's first named statement that is not a comment, where that is an
/// expression statement holding one string literal, in parentheses or not.
pub open spec fn docstring_findings(s: Seq<char>, t: Seq<NodeView>, i: int) -> Seq<DiagView> {
    let body = if t[i].0 == "module"@ {
        Some(i)
    } else {
        find_child(t, i, i + 1, child_test(ChildTest::Block))
    };
    match body {
        Some(b) => match find_child(t, b, b + 1, child_test(ChildTest::NamedNotComment)) {
            Some(st) => if t[st].0 == "expression_statement"@ && count_children(
                t,
                st,
                st + 1,
                child_test(ChildTest::Named),
            ) == 1 {
                match find_child(t, st, st + 1, child_test(ChildTest::Named)) {
                    Some(x) => {
                        let e = unparen(t, x);
                        if 0 <= e < t.len() && t[e].0 == "string"@ {
                            match char_range(s, t[e].1 as int, t[e].2 as int) {
                                Some((a, b)) => match string_content(s, a, b) {
                                    Some((c, f)) => docstring_content_findings(s, c, f),
                                    None => seq![],
                                },
                                None => seq![],
                            }
                        } else {
                            seq![]
                        }
                    },
                    None => seq![],
                }
            } else {
                seq![]
            },
            None => seq![],
        },
        None => seq![],
    }
}

// ---------------------------------------------------------------------------
// The walk
// ---------------------------------------------------------------------------
/// The warnings of the nodes from `i` on, in pre-order: each comment's lines
/// (the comment's own nodes are not visited), and in Python the docstrings
/// of the module, classes and functions.
pub open spec fn code_walk(s: Seq<char>, t: Seq<NodeView>, python: bool, i: int) -> Seq<DiagView>
    decreases t.len() - i,
{
    if i < 0 || i >= t.len() {
        seq![]
    } else if t[i].0 == "comment"@ {
        proof {
            crate::syntax::lemma_deeper_run(t, i + 1, t[i].3);
        }
        let e = subtree_end(t, i);
        let here = match char_range(s, t[i].1 as int, t[i].2 as int) {
            Some((a, b)) => comment_findings(s, a, b),
            None => seq![],
        };
        if e > i {
            here + code_walk(s, t, python, e)
        } else {
            here
        }
    } else {
        (if python && is_definition(t[i].0) {
            docstring_findings(s, t, i)
        } else {
            seq![]
        }) + code_walk(s, t, python, i + 1)
    }
}

/// The diagnostics of code in the grammar, over its syntax tree.
pub open spec fn code_check(s: Seq<char>, grammar: Grammar) -> Seq<DiagView> {
    code_walk(s, syntax_nodes(s, grammar), grammar == Grammar::Python, 0)
}


pub open spec fn opt_range(o: Option<(usize, usize)>) -> Option<(int, int)> {
    match o {
        Some((a, b)) => Some((a as int, b as int)),
        None => None,
    }
}

/// The character range of the bytes `b1..b2` of the text.
pub fn char_range_at(text: &Text, b1: usize, b2: usize) -> (r: Option<(usize, usize)>)
    requires
        text.wf(),
    ensures
        opt_range(r) == char_range(text@, b1 as int, b2 as int),
        r matches Some((a, b)) ==> a <= b <= text@.len(),
{
    match (text.char_index(b1), text.char_index(b2)) {
        (Some(a), Some(b)) => if a <= b {
            Some((a, b))
        } else {
            None
        },
        _ => None,
    }
}

fn begins_at(s: &[char], a: usize, b: usize, w: &str) -> (r: bool)
    requires
        a <= b <= s@.len(),
    ensures
        r == starts_with(s@.subrange(a as int, b as int), w@),
{
    let wc = chars_of(w);
    let r = crate::markdown::begins(s, a, b, wc.as_slice());
    proof {
        let t = s@.subrange(a as int, b as int);
        if wc@.len() <= t.len() {
            assert(t.take(wc@.len() as int) =~= s@.subrange(a as int, a + wc@.len()));
        }
    }
    r
}

/// Pushes the warnings of the comment `s[a..b]`.
fn comment_diags(text: &Text, a: usize, b: usize, out: &mut Vec<Diagnostic>)
    requires
        text.wf(),
        a <= b <= text@.len(),
    ensures
        diag_views(final(out)@) == diag_views(old(out)@) + comment_findings(
            text@,
            a as int,
            b as int,
        ),
{
    let s = text.chars.as_slice();
    let lines = line_ranges(&s[a..b]);
    let block = begins_at(s, a, b, "/*");
    let ghost ls = physical_lines(text@.subrange(a as int, b as int));
    let ghost f = |l: (int, int)|
        comment_line_finding(text@, a as int, starts_with(text@.subrange(a as int, b as int), "/*"@), l);
    let ghost before = diag_views(out@);
    let mut j: usize = 0;
    proof {
        assert(ls.take(0) =~= Seq::<(int, int)>::empty());
        assert(before + collect(ls.take(0), f) =~= before);
    }
    while j < lines.len()
        invariant
            text.wf(),
            s@ == text@,
            a <= b <= text@.len(),
            int_pairs(lines@) == ls,
            forall|k: int| 0 <= k < lines@.len() ==> (#[trigger] lines@[k]).0 <= lines@[k].1 <= b
                - a,
            block == starts_with(text@.subrange(a as int, b as int), "/*"@),
            j <= lines@.len(),
            f == (|l: (int, int)| comment_line_finding(text@, a as int, block, l)),
            diag_views(out@) == before + collect(ls.take(j as int), f),
        decreases lines@.len() - j,
    {
        let (lo, hi) = lines[j];
        proof {
            assert(ls.take(j + 1).drop_last() =~= ls.take(j as int));
            assert(ls[j as int] == (lo as int, hi as int));
        }
        let line = &s[a + lo..a + hi];
        let lead = run_len(line, 0, CharClass::BlankCr);
        let at = a + lo + lead;
        let e = a + hi;
        let marker: Option<usize> = if block && begins_at(s, at, e, "/*") {
            Some(2)
        } else if block && begins_at(s, at, e, "*") {
            Some(1)
        } else if begins_at(s, at, e, "//") {
            Some(2)
        } else if begins_at(s, at, e, "#") {
            Some(1)
        } else if block {
            Some(0)
        } else {
            None
        };
        proof {
            reveal_strlit("/*");
            reveal_strlit("*");
            reveal_strlit("//");
            reveal_strlit("#");
            assert(line@ == text@.subrange(a + lo, a + hi));
            assert("*"@ =~= seq!['*']);
            assert("#"@ =~= seq!['#']);
            let m = comment_marker(text@.subrange(at as int, e as int), block);
            assert(m == match marker {
                Some(k) => Some(k as int),
                None => None::<int>,
            });
        }
        let found = match marker {
            Some(m) => {
                proof {
                    if m > 0 {
                        assert(at + m <= e);
                    }
                }
                line_diagnostic(text, at + m, e, true, false)
            },
            None => None,
        };
        match found {
            Some(d) => {
                proof {
                    lemma_views_push(out@, d);
                    assert(before + collect(ls.take(j + 1), f) =~= (before + collect(
                        ls.take(j as int),
                        f,
                    )).push(d.view()));
                }
                out.push(d);
            },
            None => {
                proof {
                    assert(before + collect(ls.take(j + 1), f) =~= before + collect(
                        ls.take(j as int),
                        f,
                    ));
                }
            },
        }
        j = j + 1;
    }
    proof {
        assert(ls.take(lines@.len() as int) =~= ls);
    }
}


fn unparen_at(t: &Vec<SyntaxNode>, x: usize) -> (e: usize)
    requires
        x < t@.len(),
    ensures
        e == unparen(node_views(t@), x as int),
        e < t@.len(),
{
    let ghost v = node_views(t@);
    let mut e = x;
    loop
        invariant
            v == node_views(t@),
            e < t@.len(),
            unparen(v, x as int) == unparen(v, e as int),
        decreases t@.len() - e,
    {
        if kind_is(&t[e], "parenthesized_expression") && child_count(t, e, ChildTest::Named) == 1 {
            match first_child(t, e, ChildTest::Named) {
                Some(y) => {
                    proof {
                        assert(unparen(v, e as int) == unparen(v, y as int));
                    }
                    e = y;
                },
                None => return e,
            }
        } else {
            return e;
        }
    }
}

fn plain_prefix(s: &[char], p: usize) -> (r: bool)
    requires
        p <= s@.len(),
    ensures
        r == (forall|i: int| 0 <= i < p ==> is_plain_prefix(#[trigger] s@[i])),
{
    let mut i: usize = 0;
    while i < p
        invariant
            p <= s@.len(),
            i <= p,
            forall|j: int| 0 <= j < i ==> is_plain_prefix(#[trigger] s@[j]),
        decreases p - i,
    {
        let c = s[i];
        if !(c == 'r' || c == 'R' || c == 'u' || c == 'U') {
            return false;
        }
        i = i + 1;
    }
    true
}

fn string_content_at(s: &[char], a: usize, b: usize) -> (r: Option<(usize, usize)>)
    requires
        a <= b <= s@.len(),
    ensures
        opt_range(r) == string_content(s@, a as int, b as int),
        r matches Some((c, e)) ==> a <= c <= e <= b,
{
    let raw = &s[a..b];
    let p = run_len(raw, 0, CharClass::AsciiAlpha);
    let ok = plain_prefix(raw, p);
    let ghost rv = s@.subrange(a as int, b as int);
    proof {
        assert(raw@ == rv);
    }
    if !ok {
        proof {
            assert(!(forall|i: int| 0 <= i < p ==> is_plain_prefix(#[trigger] rv[i])));
        }
        return None;
    }
    let l = a + p;
    let ghost lit = s@.subrange(l as int, b as int);
    proof {
        reveal_strlit("\"\"\"");
        reveal_strlit("'''");
        reveal_strlit("\"");
        reveal_strlit("'");
        assert("\""@ =~= seq!['"']);
        assert("'"@ =~= seq!['\'']);
        assert(rv.skip(p as int) =~= lit);
    }
    let q: usize = if begins_at(s, l, b, "\"\"\"") || begins_at(s, l, b, "'''") {
        3
    } else if begins_at(s, l, b, "\"") || begins_at(s, l, b, "'") {
        1
    } else {
        return None;
    };
    if b - l < 2 * q {
        return None;
    }
    let ghost sc = string_content(s@, a as int, b as int);
    proof {
        assert(quote_len(lit) == Some(q as int));
        assert(sc == (if lit.skip(lit.len() - q) == lit.take(q as int) {
            Some(((l + q) as int, (b - q) as int))
        } else {
            None
        }));
    }
    let mut i: usize = 0;
    while i < q
        invariant
            lit == s@.subrange(l as int, b as int),
            sc == string_content(s@, a as int, b as int),
            sc == (if lit.skip(lit.len() - q) == lit.take(q as int) {
                Some(((l + q) as int, (b - q) as int))
            } else {
                None
            }),
            q <= 3,
            l + 2 * q <= b <= s@.len(),
            i <= q,
            forall|j: int| 0 <= j < i ==> s@[b - q + j] == #[trigger] s@[l + j],
        decreases q - i,
    {
        if s[b - q + i] != s[l + i] {
            proof {
                assert(lit.skip(lit.len() - q)[i as int] != lit.take(q as int)[i as int]);
                assert(lit.skip(lit.len() - q) != lit.take(q as int));
            }
            return None;
        }
        i = i + 1;
    }
    proof {
        assert forall|j: int| 0 <= j < q implies lit.skip(lit.len() - q)[j] == lit.take(
            q as int,
        )[j] by {
            assert(s@[b - q + j] == s@[l + j]);
        }
        assert(lit.skip(lit.len() - q) =~= lit.take(q as int));
    }
    Some((l + q, b - q))
}


/// Pushes the warnings of the docstring content `s[c..e]`.
fn docstring_content_diags(text: &Text, c: usize, e: usize, out: &mut Vec<Diagnostic>)
    requires
        text.wf(),
        c <= e <= text@.len(),
    ensures
        diag_views(final(out)@) == diag_views(old(out)@) + docstring_content_findings(
            text@,
            c as int,
            e as int,
        ),
{
    let s = text.chars.as_slice();
    let lines = line_ranges(&s[c..e]);
    let ghost ls = physical_lines(text@.subrange(c as int, e as int));
    let ghost f = |l: (int, int)|
        finding(text@.subrange(c + l.0, c + l.1), byte_at(text@, c + l.0) as int, false, false);
    let ghost before = diag_views(out@);
    let mut j: usize = 0;
    proof {
        assert(ls.take(0) =~= Seq::<(int, int)>::empty());
        assert(before + collect(ls.take(0), f) =~= before);
    }
    while j < lines.len()
        invariant
            text.wf(),
            s@ == text@,
            c <= e <= text@.len(),
            int_pairs(lines@) == ls,
            forall|k: int| 0 <= k < lines@.len() ==> (#[trigger] lines@[k]).0 <= lines@[k].1 <= e
                - c,
            j <= lines@.len(),
            f == (|l: (int, int)|
                finding(
                    text@.subrange(c + l.0, c + l.1),
                    byte_at(text@, c + l.0) as int,
                    false,
                    false,
                )),
            diag_views(out@) == before + collect(ls.take(j as int), f),
        decreases lines@.len() - j,
    {
        let (lo, hi) = lines[j];
        proof {
            assert(ls.take(j + 1).drop_last() =~= ls.take(j as int));
            assert(ls[j as int] == (lo as int, hi as int));
        }
        match line_diagnostic(text, c + lo, c + hi, false, false) {
            Some(d) => {
                proof {
                    lemma_views_push(out@, d);
                    assert(before + collect(ls.take(j + 1), f) =~= (before + collect(
                        ls.take(j as int),
                        f,
                    )).push(d.view()));
                }
                out.push(d);
            },
            None => {
                proof {
                    assert(before + collect(ls.take(j + 1), f) =~= before + collect(
                        ls.take(j as int),
                        f,
                    ));
                }
            },
        }
        j = j + 1;
    }
    proof {
        assert(ls.take(lines@.len() as int) =~= ls);
    }
}

/// Pushes the warnings of the docstring of the definition at `i`.
fn docstring_diags(text: &Text, t: &Vec<SyntaxNode>, i: usize, out: &mut Vec<Diagnostic>)
    requires
        text.wf(),
        i < t@.len(),
    ensures
        diag_views(final(out)@) == diag_views(old(out)@) + docstring_findings(
            text@,
            node_views(t@),
            i as int,
        ),
{
    let ghost none = diag_views(out@);
    proof {
        assert(none + Seq::<DiagView>::empty() =~= none);
    }
    let body = if kind_is(&t[i], "module") {
        Some(i)
    } else {
        first_child(t, i, ChildTest::Block)
    };
    let b = match body {
        Some(b) => b,
        None => return,
    };
    let st = match first_child(t, b, ChildTest::NamedNotComment) {
        Some(st) => st,
        None => return,
    };
    if !(kind_is(&t[st], "expression_statement") && child_count(t, st, ChildTest::Named) == 1) {
        return;
    }
    let x = match first_child(t, st, ChildTest::Named) {
        Some(x) => x,
        None => return,
    };
    let e = unparen_at(t, x);
    if !kind_is(&t[e], "string") {
        return;
    }
    let (a, bb) = match char_range_at(text, t[e].start, t[e].end) {
        Some(r) => r,
        None => return,
    };
    let (c, f) = match string_content_at(text.chars.as_slice(), a, bb) {
        Some(r) => r,
        None => return,
    };
    docstring_content_diags(text, c, f, out);
}

/// The diagnostics of code in the grammar; see [`code_check`].
/// The diagnostics of code in the grammar: those of its syntax tree, as
/// tree-sitter builds it.
pub fn check(source: &str, text: &Text, grammar: Grammar) -> (r: Vec<Diagnostic>)
    requires
        text.wf(),
        text@ == source@,
    ensures
        diag_views(r@) == code_check(text@, grammar),
{
    let t = parse_syntax(source, grammar);
    code_diagnostics(text, &t, grammar == Grammar::Python)
}

/// The diagnostics of code whose syntax tree has the nodes `t`, in
/// pre-order; docstrings are read where `python`.
pub fn code_diagnostics(text: &Text, t: &Vec<SyntaxNode>, python: bool) -> (r: Vec<Diagnostic>)
    requires
        text.wf(),
    ensures
        diag_views(r@) == code_walk(text@, node_views(t@), python, 0),
{
    let ghost v = node_views(t@);
    let mut out: Vec<Diagnostic> = Vec::new();
    let mut i: usize = 0;
    proof {
        assert(diag_views(out@) + code_walk(text@, v, python, 0) =~= code_walk(text@, v, python, 0));
    }
    while i < t.len()
        invariant
            text.wf(),
            v == node_views(t@),
            i <= t@.len(),
            code_walk(text@, v, python, 0) == diag_views(out@) + code_walk(
                text@,
                v,
                python,
                i as int,
            ),
        decreases t@.len() - i,
    {
        let ghost before = diag_views(out@);
        if kind_is(&t[i], "comment") {
            let e = subtree_end_at(t, i);
            if let Some((a, b)) = char_range_at(text, t[i].start, t[i].end) {
                comment_diags(text, a, b, &mut out);
            }
            proof {
                assert(before + code_walk(text@, v, python, i as int) =~= diag_views(out@)
                    + code_walk(text@, v, python, e as int));
            }
            i = e;
        } else {
            if python && (kind_is(&t[i], "module") || kind_is(&t[i], "class_definition") || kind_is(
                &t[i],
                "function_definition",
            )) {
                docstring_diags(text, t, i, &mut out);
            }
            proof {
                assert(before + code_walk(text@, v, python, i as int) =~= diag_views(out@)
                    + code_walk(text@, v, python, i + 1));
            }
            i = i + 1;
        }
    }
    proof {
        assert(diag_views(out@) + code_walk(text@, v, python, i as int) =~= diag_views(out@));
    }
    out
}

// ---------------------------------------------------------------------------
// Where fixes lie
// ---------------------------------------------------------------------------
/// The byte range `p..q` lies inside one of the comment nodes of `t`.
pub open spec fn in_comment(t: Seq<NodeView>, p: int, q: int) -> bool {
    exists|j: int| 0 <= j < t.len() && t[j].0 == "comment"@ && t[j].1 <= p && q <= t[j].2
}

/// A removal that `finding` offers lies within its line.
proof fn lemma_finding_fix(line: Seq<char>, base: int, fixable: bool, followed: bool)
    ensures
        finding(line, base, fixable, followed) matches Some(d) ==> (d.5 matches Some((p, q)) ==> {
            &&& fixable
            &&& exists|lo: int, hi: int|
                0 <= lo <= hi <= line.len() && p == base + byte_at(line, lo) && q == base
                    + byte_at(line, hi)
        }),
{
    crate::rules::lemma_line_finding_fix(line, fixable, followed);
}

/// The removals that a comment's lines offer lie within the comment.
proof fn lemma_comment_fixes(s: Seq<char>, a: int, b: int)
    requires
        0 <= a <= b <= s.len(),
    ensures
        forall|k: int|
            0 <= k < comment_findings(s, a, b).len() ==> ((#[trigger] comment_findings(s, a, b)[k]).5 matches Some((p, q)) ==> byte_at(s, a) <= p && q <= byte_at(s, b)),
{
    let raw = s.subrange(a, b);
    let block = starts_with(raw, "/*"@);
    let f = |l: (int, int)| comment_line_finding(s, a, block, l);
    let ls = physical_lines(raw);
    crate::text::lemma_lines_bound(raw, 0);
    assert forall|k: int| 0 <= k < comment_findings(s, a, b).len() implies ((#[trigger] comment_findings(s, a, b)[k]).5 matches Some((p, q)) ==> byte_at(s, a) <= p && q <= byte_at(s, b)) by {
        let d = comment_findings(s, a, b)[k];
        crate::diagnostic::lemma_collect_member(ls, f, k);
        let j = choose|j: int| 0 <= j < ls.len() && f(#[trigger] ls[j]) == Some(d);
        let l = ls[j];
        assert(0 <= l.0 <= l.1 <= raw.len());
        let line = s.subrange(a + l.0, a + l.1);
        crate::rules::lemma_run_bound(line, 0, CharClass::BlankCr);
        let lead = run(line, 0, CharClass::BlankCr) as int;
        let at = a + l.0 + lead;
        let rest = s.subrange(at, a + l.1);
        if let Some(m) = comment_marker(rest, block) {
            reveal_strlit("/*");
            reveal_strlit("//");
            assert(0 <= m <= rest.len());
            let sub = s.subrange(at + m, a + l.1);
            lemma_finding_fix(sub, byte_at(s, at + m) as int, true, false);
            if let Some((p, q)) = d.5 {
                let (lo, hi) = choose|lo: int, hi: int|
                    0 <= lo <= hi <= sub.len() && p == byte_at(s, at + m) + byte_at(sub, lo) && q
                        == byte_at(s, at + m) + byte_at(sub, hi);
                crate::text::lemma_byte_at_subrange(s, at + m, a + l.1, lo);
                crate::text::lemma_byte_at_subrange(s, at + m, a + l.1, hi);
                crate::text::lemma_byte_at_mono(s, a, at + m + lo);
                crate::text::lemma_byte_at_mono(s, at + m + hi, b);
            }
        }
    }
}

/// A docstring's warnings offer no removal.
proof fn lemma_docstring_no_fixes(s: Seq<char>, t: Seq<NodeView>, i: int)
    requires
        0 <= i < t.len(),
    ensures
        forall|k: int| 0 <= k < docstring_findings(s, t, i).len() ==> (#[trigger] docstring_findings(s, t, i)[k]).5 is None,
{
    assert forall|c: int, e: int, k: int| 0 <= k < docstring_content_findings(s, c, e).len() implies (#[trigger] docstring_content_findings(s, c, e)[k]).5 is None by {
        let f = |l: (int, int)| finding(s.subrange(c + l.0, c + l.1), byte_at(s, c + l.0) as int, false, false);
        let ls = physical_lines(s.subrange(c, e));
        crate::diagnostic::lemma_collect_member(ls, f, k);
        let j = choose|j: int| 0 <= j < ls.len() && f(#[trigger] ls[j]) == Some(docstring_content_findings(s, c, e)[k]);
        let l = ls[j];
        lemma_finding_fix(s.subrange(c + l.0, c + l.1), byte_at(s, c + l.0) as int, false, false);
    }
}

/// The removals that the walk from `i` offers lie inside comment nodes.
proof fn lemma_code_walk_fixes(s: Seq<char>, t: Seq<NodeView>, python: bool, i: int)
    ensures
        forall|k: int|
            0 <= k < code_walk(s, t, python, i).len() ==> ((#[trigger] code_walk(s, t, python, i)[k]).5 matches Some((p, q)) ==> in_comment(t, p, q)),
    decreases t.len() - i,
{
    if 0 <= i < t.len() {
        let w = code_walk(s, t, python, i);
        if t[i].0 == "comment"@ {
            crate::syntax::lemma_deeper_run(t, i + 1, t[i].3);
            let e = subtree_end(t, i);
            let here = match char_range(s, t[i].1 as int, t[i].2 as int) {
                Some((a, b)) => comment_findings(s, a, b),
                None => seq![],
            };
            if let Some((a, b)) = char_range(s, t[i].1 as int, t[i].2 as int) {
                lemma_comment_fixes(s, a, b);
            }
            if e > i {
                lemma_code_walk_fixes(s, t, python, e);
            }
            assert forall|k: int| 0 <= k < w.len() implies ((#[trigger] w[k]).5 matches Some((p, q)) ==> in_comment(t, p, q)) by {
                if k < here.len() {
                    assert(w[k] == here[k]);
                    if let Some((p, q)) = w[k].5 {
                        assert(t[i].0 == "comment"@ && t[i].1 <= p && q <= t[i].2);
                    }
                } else {
                    assert(w[k] == code_walk(s, t, python, e)[k - here.len()]);
                }
            }
        } else {
            let here = if python && is_definition(t[i].0) {
                docstring_findings(s, t, i)
            } else {
                seq![]
            };
            if python && is_definition(t[i].0) {
                lemma_docstring_no_fixes(s, t, i);
            }
            lemma_code_walk_fixes(s, t, python, i + 1);
            assert forall|k: int| 0 <= k < w.len() implies ((#[trigger] w[k]).5 matches Some((p, q)) ==> in_comment(t, p, q)) by {
                if k < here.len() {
                    assert(w[k] == here[k]);
                } else {
                    assert(w[k] == code_walk(s, t, python, i + 1)[k - here.len()]);
                }
            }
        }
    }
}

/// In code, every removal that the diagnostics offer lies inside a comment:
/// strings, docstrings and the code itself are never edited.
pub proof fn lemma_code_fixes_in_comments(s: Seq<char>, grammar: Grammar)
    ensures
        forall|k: int|
            0 <= k < code_check(s, grammar).len() ==> ((#[trigger] code_check(s, grammar)[k]).5 matches Some((p, q)) ==> in_comment(syntax_nodes(s, grammar), p, q)),
{
    lemma_code_walk_fixes(s, syntax_nodes(s, grammar), grammar == Grammar::Python, 0);
}

} // verus!
