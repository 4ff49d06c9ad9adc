//! HTML: labels in comments.

use vstd::prelude::*;

use crate::code::{char_range, char_range_at};
use crate::diagnostic::{DiagView, Diagnostic, chars_equal, collect, diag_views, lemma_views_push};
use crate::markdown::{begins, starts_with};
use crate::rules::{CharClass, finding, line_diagnostic, run, run_len};
use crate::syntax::{
    Grammar, NodeView, SyntaxNode, kind_is, node_views, parse_syntax, subtree_end, subtree_end_at,
    syntax_nodes,
};
use crate::text::{byte_at, chars_of, int_pairs, line_ranges, physical_lines, Text};

verus! {

/// The warning for the line `l` (relative to `c`) of comment content that
/// begins at `c`: the text after blanks and an optional `*`.
pub open spec fn html_line_finding(s: Seq<char>, c: int, l: (int, int)) -> Option<DiagView> {
    let lead = run(s.subrange(c + l.0, c + l.1), 0, CharClass::Blank) as int;
    let at = c + l.0 + lead;
    let m = if at < c + l.1 && s[at] == '*' {
        1int
    } else {
        0
    };
    finding(s.subrange(at + m, c + l.1), byte_at(s, at + m) as int, true, false)
}

/// The warnings of the comment `s[a..b]`: the lines between `<!--` and
/// `-->`, where the comment has both.
pub open spec fn html_comment_findings(s: Seq<char>, a: int, b: int) -> Seq<DiagView> {
    let raw = s.subrange(a, b);
    if raw.len() >= 7 && starts_with(raw, "<!--"@) && raw.skip(raw.len() - 3) == "-->"@ {
        collect(
            physical_lines(s.subrange(a + 4, b - 3)),
            |l: (int, int)| html_line_finding(s, a + 4, l),
        )
    } else {
        seq![]
    }
}

/// The warnings of the comments among the nodes from `i` on.
pub open spec fn html_walk(s: Seq<char>, t: Seq<NodeView>, i: int) -> Seq<DiagView>
    decreases t.len() - i,
{
    if i < 0 || i >= t.len() {
        seq![]
    } else if t[i].0 == "comment"@ {
        proof {
            crate::syntax::lemma_deeper_run(t, i + 1, t[i].3);
        }
        let here = match char_range(s, t[i].1 as int, t[i].2 as int) {
            Some((a, b)) => html_comment_findings(s, a, b),
            None => seq![],
        };
        here + html_walk(s, t, subtree_end(t, i))
    } else {
        html_walk(s, t, i + 1)
    }
}

/// The diagnostics of an HTML text.
pub open spec fn html_check(s: Seq<char>) -> Seq<DiagView> {
    html_walk(s, syntax_nodes(s, Grammar::Html), 0)
}

/// The source text of a node.
pub open spec fn node_text(s: Seq<char>, b1: int, b2: int) -> Seq<char> {
    match char_range(s, b1, b2) {
        Some((a, b)) => s.subrange(a, b),
        None => seq![],
    }
}

/// The shape of a tree from node `i` on, in pre-order: each node's kind,
/// with its text where it is a leaf; a comment counts as a leaf without
/// text, whatever it says.
pub open spec fn shape_from(s: Seq<char>, t: Seq<NodeView>, i: int) -> Seq<
    (Seq<char>, Option<Seq<char>>),
>
    decreases t.len() - i,
{
    if i < 0 || i >= t.len() {
        seq![]
    } else {
        proof {
            crate::syntax::lemma_deeper_run(t, i + 1, t[i].3);
        }
        if t[i].0 == "comment"@ {
            seq![("comment"@, None)] + shape_from(s, t, subtree_end(t, i))
        } else {
            seq![
                (
                    t[i].0,
                    if subtree_end(t, i) == i + 1 {
                        Some(node_text(s, t[i].1 as int, t[i].2 as int))
                    } else {
                        None
                    },
                ),
            ] + shape_from(s, t, i + 1)
        }
    }
}

/// The shape of the HTML text `s`.
pub open spec fn html_shape(s: Seq<char>) -> Seq<(Seq<char>, Option<Seq<char>>)> {
    shape_from(s, syntax_nodes(s, Grammar::Html), 0)
}


/// Pushes the warnings of the comment `s[a..b]`.
fn comment_diags(text: &Text, a: usize, b: usize, out: &mut Vec<Diagnostic>)
    requires
        text.wf(),
        a <= b <= text@.len(),
    ensures
        diag_views(final(out)@) == diag_views(old(out)@) + html_comment_findings(
            text@,
            a as int,
            b as int,
        ),
{
    let s = text.chars.as_slice();
    let open = chars_of("<!--");
    let close = chars_of("-->");
    let ghost raw = text@.subrange(a as int, b as int);
    proof {
        reveal_strlit("<!--");
        reveal_strlit("-->");
    }
    if !(b - a >= 7 && begins(s, a, b, open.as_slice()) && crate::markdown::ends(
        s,
        a,
        b,
        close.as_slice(),
    )) {
        proof {
            if raw.len() >= 7 {
                assert(raw.take(4) =~= s@.subrange(a as int, a + 4));
                assert(raw.skip(raw.len() - 3) =~= s@.subrange(b - 3, b as int));
            }
            assert(diag_views(old(out)@) + Seq::<DiagView>::empty() =~= diag_views(old(out)@));
        }
        return;
    }
    proof {
        assert(raw.take(4) =~= s@.subrange(a as int, a + 4));
        assert(raw.skip(raw.len() - 3) =~= s@.subrange(b - 3, b as int));
    }
    let c = a + 4;
    let e = b - 3;
    let lines = line_ranges(&s[c..e]);
    let ghost ls = physical_lines(text@.subrange(c as int, e as int));
    let ghost f = |l: (int, int)| html_line_finding(text@, c as int, l);
    let ghost before = diag_views(out@);
    let mut j: usize = 0;
    proof {
        assert(ls.take(0) =~= Seq::<(int, int)>::empty());
        assert(before + collect(ls.take(0), f) =~= before);
    }
    while j < lines.len()
        invariant
            text.wf(),
            s@ == text@,
            c <= e <= text@.len(),
            int_pairs(lines@) == ls,
            forall|k: int| 0 <= k < lines@.len() ==> (#[trigger] lines@[k]).0 <= lines@[k].1 <= e
                - c,
            j <= lines@.len(),
            f == (|l: (int, int)| html_line_finding(text@, c as int, l)),
            diag_views(out@) == before + collect(ls.take(j as int), f),
        decreases lines@.len() - j,
    {
        let (lo, hi) = lines[j];
        proof {
            assert(ls.take(j + 1).drop_last() =~= ls.take(j as int));
            assert(ls[j as int] == (lo as int, hi as int));
        }
        let line = &s[c + lo..c + hi];
        let lead = run_len(line, 0, CharClass::Blank);
        proof {
            assert(line@ == text@.subrange(c + lo, c + hi));
        }
        let at = c + lo + lead;
        let m: usize = if at < c + hi && s[at] == '*' {
            1
        } else {
            0
        };
        match line_diagnostic(text, at + m, c + hi, true, false) {
            Some(d) => {
                proof {
                    lemma_views_push(out@, d);
                    assert(before + collect(ls.take(j + 1), f) =~= (before + collect(
                        ls.take(j as int),
                        f,
                    )).push(d.view()));
                }
                out.push(d);
            },
            None => {
                proof {
                    assert(before + collect(ls.take(j + 1), f) =~= before + collect(
                        ls.take(j as int),
                        f,
                    ));
                }
            },
        }
        j = j + 1;
    }
    proof {
        assert(ls.take(lines@.len() as int) =~= ls);
    }
}

/// The diagnostics of the HTML text; see [`html_check`].
pub fn check(source: &str, text: &Text) -> (r: Vec<Diagnostic>)
    requires
        text.wf(),
        text@ == source@,
    ensures
        diag_views(r@) == html_check(text@),
{
    let t = parse_syntax(source, Grammar::Html);
    html_diagnostics(text, &t)
}

/// The diagnostics of an HTML text whose syntax tree has the nodes `t`, in
/// pre-order.
pub fn html_diagnostics(text: &Text, t: &Vec<SyntaxNode>) -> (r: Vec<Diagnostic>)
    requires
        text.wf(),
    ensures
        diag_views(r@) == html_walk(text@, node_views(t@), 0),
{
    let ghost v = node_views(t@);
    let mut out: Vec<Diagnostic> = Vec::new();
    let mut i: usize = 0;
    proof {
        assert(diag_views(out@) + html_walk(text@, v, 0) =~= html_walk(text@, v, 0));
    }
    while i < t.len()
        invariant
            text.wf(),
            v == node_views(t@),
            i <= t@.len(),
            html_walk(text@, v, 0) == diag_views(out@) + html_walk(text@, v, i as int),
        decreases t@.len() - i,
    {
        let ghost before = diag_views(out@);
        if kind_is(&t[i], "comment") {
            let e = subtree_end_at(t, i);
            if let Some((a, b)) = char_range_at(text, t[i].start, t[i].end) {
                comment_diags(text, a, b, &mut out);
            }
            proof {
                assert(before + html_walk(text@, v, i as int) =~= diag_views(out@) + html_walk(
                    text@,
                    v,
                    e as int,
                ));
            }
            i = e;
        } else {
            proof {
                assert(before + html_walk(text@, v, i as int) =~= diag_views(out@) + html_walk(
                    text@,
                    v,
                    i + 1,
                ));
            }
            i = i + 1;
        }
    }
    proof {
        assert(diag_views(out@) + html_walk(text@, v, i as int) =~= diag_views(out@));
    }
    out
}

pub open spec fn shape_view(x: (Vec<char>, Option<Vec<char>>)) -> (Seq<char>, Option<Seq<char>>) {
    (
        x.0@,
        match x.1 {
            Some(c) => Some(c@),
            None => None,
        },
    )
}

pub open spec fn shape_views(v: Seq<(Vec<char>, Option<Vec<char>>)>) -> Seq<
    (Seq<char>, Option<Seq<char>>),
> {
    v.map_values(|x: (Vec<char>, Option<Vec<char>>)| shape_view(x))
}

/// The shape of the HTML text; see [`html_shape`].
pub fn shape(source: &str, text: &Text) -> (r: Vec<(Vec<char>, Option<Vec<char>>)>)
    requires
        text.wf(),
        text@ == source@,
    ensures
        shape_views(r@) == html_shape(text@),
{
    let t = parse_syntax(source, Grammar::Html);
    let ghost v = node_views(t@);
    let mut out: Vec<(Vec<char>, Option<Vec<char>>)> = Vec::new();
    let mut i: usize = 0;
    proof {
        assert(shape_views(out@) + shape_from(text@, v, 0) =~= shape_from(text@, v, 0));
    }
    while i < t.len()
        invariant
            text.wf(),
            v == node_views(t@),
            i <= t@.len(),
            shape_from(text@, v, 0) == shape_views(out@) + shape_from(text@, v, i as int),
        decreases t@.len() - i,
    {
        let ghost before = shape_views(out@);
        let e = subtree_end_at(&t, i);
        let item: (Vec<char>, Option<Vec<char>>) = if kind_is(&t[i], "comment") {
            (chars_of("comment"), None)
        } else {
            let leaf = if e == i + 1 {
                match char_range_at(text, t[i].start, t[i].end) {
                    Some((a, b)) => {
                        let mut c: Vec<char> = Vec::new();
                        let mut k = a;
                        while k < b
                            invariant
                                text.wf(),
                                a <= k <= b <= text@.len(),
                                c@ == text@.subrange(a as int, k as int),
                            decreases b - k,
                        {
                            c.push(text.chars[k]);
                            proof {
                                assert(text@.subrange(a as int, k + 1) =~= text@.subrange(
                                    a as int,
                                    k as int,
                                ).push(text@[k as int]));
                            }
                            k = k + 1;
                        }
                        Some(c)
                    },
                    None => Some(Vec::new()),
                }
            } else {
                None
            };
            (chars_of(t[i].kind.as_str()), leaf)
        };
        let next = if kind_is(&t[i], "comment") {
            e
        } else {
            i + 1
        };
        proof {
            let iv = shape_view(item);
            assert(shape_views(out@.push(item)) =~= shape_views(out@).push(iv));
            assert(shape_from(text@, v, i as int) =~= seq![iv] + shape_from(text@, v, next as int));
            assert(before + shape_from(text@, v, i as int) =~= shape_views(out@.push(item))
                + shape_from(text@, v, next as int));
        }
        out.push(item);
        i = next;
    }
    proof {
        assert(shape_views(out@) + shape_from(text@, v, i as int) =~= shape_views(out@));
    }
    out
}

/// Whether two shapes are the same.
pub fn same_shape(a: &Vec<(Vec<char>, Option<Vec<char>>)>, b: &Vec<(Vec<char>, Option<Vec<char>>)>) -> (r:
    bool)
    ensures
        r == (shape_views(a@) == shape_views(b@)),
{
    if a.len() != b.len() {
        proof {
            assert(shape_views(a@).len() != shape_views(b@).len());
        }
        return false;
    }
    let mut i: usize = 0;
    while i < a.len()
        invariant
            a@.len() == b@.len(),
            i <= a@.len(),
            forall|j: int| 0 <= j < i ==> shape_views(a@)[j] == #[trigger] shape_views(b@)[j],
        decreases a@.len() - i,
    {
        let same = chars_equal(&a[i].0, &b[i].0) && match (&a[i].1, &b[i].1) {
            (Some(x), Some(y)) => chars_equal(x, y),
            (None, None) => true,
            _ => false,
        };
        if !same {
            proof {
                assert(shape_views(a@)[i as int] != shape_views(b@)[i as int]);
            }
            return false;
        }
        i = i + 1;
    }
    proof {
        assert(shape_views(a@) =~= shape_views(b@));
    }
    true
}

/// Whether two HTML texts have the same shape: the same elements, attributes
/// and text, with comments free to differ.
pub fn same_structure(before: &str, after: &str) -> (r: bool)
    requires
        crate::text::fits(before@),
        crate::text::fits(after@),
    ensures
        r == (html_shape(before@) == html_shape(after@)),
{
    let tb = Text::new(before);
    let ta = Text::new(after);
    let sb = shape(before, &tb);
    let sa = shape(after, &ta);
    same_shape(&sb, &sa)
}

// ---------------------------------------------------------------------------
// Where fixes lie
// ---------------------------------------------------------------------------
/// The removals that a comment's lines offer lie within its content.
proof fn lemma_html_comment_fixes(s: Seq<char>, a: int, b: int)
    requires
        0 <= a <= b <= s.len(),
    ensures
        forall|k: int|
            0 <= k < html_comment_findings(s, a, b).len() ==> ((
            #[trigger] html_comment_findings(s, a, b)[k]).5 matches Some((p, q)) ==> byte_at(s, a)
                <= p && q <= byte_at(s, b)),
{
    let raw = s.subrange(a, b);
    if raw.len() >= 7 && starts_with(raw, "<!--"@) && raw.skip(raw.len() - 3) == "-->"@ {
        let c = a + 4;
        let inner = s.subrange(c, b - 3);
        let f = |l: (int, int)| html_line_finding(s, c, l);
        let ls = physical_lines(inner);
        crate::text::lemma_lines_bound(inner, 0);
        assert forall|k: int| 0 <= k < html_comment_findings(s, a, b).len() implies ((
        #[trigger] html_comment_findings(s, a, b)[k]).5 matches Some((p, q)) ==> byte_at(s, a) <= p
            && q <= byte_at(s, b)) by {
            let d = html_comment_findings(s, a, b)[k];
            crate::diagnostic::lemma_collect_member(ls, f, k);
            let j = choose|j: int| 0 <= j < ls.len() && f(#[trigger] ls[j]) == Some(d);
            let l = ls[j];
            let line = s.subrange(c + l.0, c + l.1);
            crate::rules::lemma_run_bound(line, 0, CharClass::Blank);
            let lead = run(line, 0, CharClass::Blank) as int;
            let at = c + l.0 + lead;
            let m = if at < c + l.1 && s[at] == '*' {
                1int
            } else {
                0
            };
            let sub = s.subrange(at + m, c + l.1);
            crate::rules::lemma_line_finding_fix(sub, true, false);
            if let Some((p, q)) = d.5 {
                let (lo, hi) = choose|lo: int, hi: int|
                    0 <= lo <= hi <= sub.len() && p - byte_at(s, at + m) == byte_at(sub, lo) && q
                        - byte_at(s, at + m) == byte_at(sub, hi);
                crate::text::lemma_byte_at_subrange(s, at + m, c + l.1, lo);
                crate::text::lemma_byte_at_subrange(s, at + m, c + l.1, hi);
                crate::text::lemma_byte_at_mono(s, a, at + m + lo);
                crate::text::lemma_byte_at_mono(s, at + m + hi, b);
            }
        }
    }
}

proof fn lemma_html_walk_fixes(s: Seq<char>, t: Seq<NodeView>, i: int)
    ensures
        forall|k: int|
            0 <= k < html_walk(s, t, i).len() ==> ((#[trigger] html_walk(s, t, i)[k]).5 matches Some(
                (p, q),
            ) ==> crate::code::in_comment(t, p, q)),
    decreases t.len() - i,
{
    if 0 <= i < t.len() {
        let w = html_walk(s, t, i);
        if t[i].0 == "comment"@ {
            crate::syntax::lemma_deeper_run(t, i + 1, t[i].3);
            let e = subtree_end(t, i);
            let here = match char_range(s, t[i].1 as int, t[i].2 as int) {
                Some((a, b)) => html_comment_findings(s, a, b),
                None => seq![],
            };
            if let Some((a, b)) = char_range(s, t[i].1 as int, t[i].2 as int) {
                lemma_html_comment_fixes(s, a, b);
            }
            lemma_html_walk_fixes(s, t, e);
            assert forall|k: int| 0 <= k < w.len() implies ((#[trigger] w[k]).5 matches Some((p, q))
                ==> crate::code::in_comment(t, p, q)) by {
                if k < here.len() {
                    assert(w[k] == here[k]);
                    if let Some((p, q)) = w[k].5 {
                        assert(t[i].0 == "comment"@ && t[i].1 <= p && q <= t[i].2);
                    }
                } else {
                    assert(w[k] == html_walk(s, t, e)[k - here.len()]);
                }
            }
        } else {
            lemma_html_walk_fixes(s, t, i + 1);
        }
    }
}

/// In HTML, every removal that the diagnostics offer lies inside a comment.
pub proof fn lemma_html_fixes_in_comments(s: Seq<char>)
    ensures
        forall|k: int|
            0 <= k < html_check(s).len() ==> ((#[trigger] html_check(s)[k]).5 matches Some((p, q))
                ==> crate::code::in_comment(syntax_nodes(s, Grammar::Html), p, q)),
{
    lemma_html_walk_fixes(s, syntax_nodes(s, Grammar::Html), 0);
}

} // verus!
