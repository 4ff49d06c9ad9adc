//! Fixes: the removals that the diagnostics offer, applied where they keep
//! the text's structure.
//!
//! Offsets in diagnostics are bytes; the removals themselves are made on the
//! character sequence, at the character indices of those byte offsets.

use vstd::prelude::*;

use crate::diagnostic::{DiagView, Severity, diag_views};
use crate::sorting::{lemma_insert_at, sort_by};
use crate::text::{
    Text, byte_at, char_at_byte, chars_of, fits, int_pairs, lemma_byte_at_full, lemma_byte_at_mono,
    lemma_utf8_len_concat, string_of, utf8_len,
};
use crate::{Language, spec_check};

verus! {

/// `s` without the characters from index `a` up to `b`.
pub open spec fn cut(s: Seq<char>, a: int, b: int) -> Seq<char> {
    s.take(a) + s.skip(b)
}

/// Whether any of the diagnostics is an error.
pub open spec fn has_error(ds: Seq<DiagView>) -> bool {
    exists|k: int| 0 <= k < ds.len() && (#[trigger] ds[k]).4 == Severity::Error
}

/// The byte ranges that the diagnostics offer as fixes, in their order.
pub open spec fn fix_ranges(ds: Seq<DiagView>) -> Seq<(int, int)>
    decreases ds.len(),
{
    if ds.len() == 0 {
        seq![]
    } else {
        fix_ranges(ds.drop_last()) + match ds.last().5 {
            Some(r) => seq![r],
            None => seq![],
        }
    }
}

/// Orders ranges by start, then by end.
pub open spec fn range_le() -> spec_fn((int, int), (int, int)) -> bool {
    |a: (int, int), b: (int, int)| a.0 < b.0 || (a.0 == b.0 && a.1 <= b.1)
}

/// The removals taken from the sorted byte ranges `e`, last range first, as
/// character indices. Walking `e` from its end, a range is taken where it is
/// not empty, ends at or before `boundary` (the start of the range taken
/// before it; at first, the end of the text) and both its ends fall on
/// character boundaries.
pub open spec fn accepted(s: Seq<char>, e: Seq<(int, int)>, boundary: int) -> Seq<(int, int)>
    decreases e.len(),
{
    if e.len() == 0 {
        seq![]
    } else {
        let r = e.last();
        let a = char_at_byte(s, r.0);
        let b = char_at_byte(s, r.1);
        if r.0 < r.1 && r.1 <= boundary && a is Some && b is Some {
            seq![(a.unwrap(), b.unwrap())] + accepted(s, e.drop_last(), r.0)
        } else {
            accepted(s, e.drop_last(), boundary)
        }
    }
}

/// `rs` are non-empty ranges, each ending at or before the start of the one
/// before it, the first ending at or before `n`.
pub open spec fn desc_within(rs: Seq<(int, int)>, n: int) -> bool
    decreases rs.len(),
{
    rs.len() == 0 || (0 <= rs[0].0 < rs[0].1 <= n && desc_within(rs.skip(1), rs[0].0))
}

/// `s` with each range of `rs` cut in turn.
pub open spec fn cut_all(s: Seq<char>, rs: Seq<(int, int)>) -> Seq<char>
    decreases rs.len(),
{
    if rs.len() == 0 {
        s
    } else {
        cut_all(cut(s, rs[0].0, rs[0].1), rs.skip(1))
    }
}

/// Whether `after` has the structure of `before`, for texts in `language`:
/// the parsed shape for Markdown and HTML; code always keeps it, since only
/// comment text is ever removed there.
pub open spec fn preserves(language: Language, before: Seq<char>, after: Seq<char>) -> bool {
    match language {
        Language::Markdown => crate::markdown::markdown_shape(before) == crate::markdown::markdown_shape(
            after,
        ),
        Language::Html => crate::html::html_shape(before) == crate::html::html_shape(after),
        _ => true,
    }
}

/// `s` with the ranges of `rs` cut one at a time, each cut kept only where
/// it preserves the structure of the text it is made on.
pub open spec fn cut_each(language: Language, s: Seq<char>, rs: Seq<(int, int)>) -> Seq<char>
    decreases rs.len(),
{
    if rs.len() == 0 {
        s
    } else {
        let c = cut(s, rs[0].0, rs[0].1);
        cut_each(
            language,
            if preserves(language, s, c) {
                c
            } else {
                s
            },
            rs.skip(1),
        )
    }
}

/// The removals that a round of fixes takes from the diagnostics of `s`,
/// as character ranges, last first.
pub open spec fn fix_cuts(s: Seq<char>, language: Language) -> Seq<(int, int)> {
    accepted(s, sort_by(fix_ranges(spec_check(s, language)), range_le()), utf8_len(s) as int)
}

/// One round of fixes. None where the text has an error or no removal is
/// taken; else all removals at once where that preserves the structure,
/// else those that preserve it one by one, if any does.
pub open spec fn fix_once_spec(s: Seq<char>, language: Language) -> Option<Seq<char>> {
    let ds = spec_check(s, language);
    if has_error(ds) {
        None
    } else {
        let cr = fix_cuts(s, language);
        if cr.len() == 0 {
            None
        } else {
            let all = cut_all(s, cr);
            if preserves(language, s, all) {
                Some(all)
            } else {
                let r = cut_each(language, s, cr);
                if r != s {
                    Some(r)
                } else {
                    None
                }
            }
        }
    }
}

/// Rounds of fixes from `s` until a round changes nothing.
pub open spec fn fix_rest(s: Seq<char>, language: Language) -> Seq<char>
    decreases s.len(),
{
    match fix_once_spec(s, language) {
        Some(r) => if r.len() < s.len() {
            fix_rest(r, language)
        } else {
            s
        },
        None => s,
    }
}

/// The text after every round of fixes, or None where the first round
/// changes nothing.
pub open spec fn fix_unsafe_spec(s: Seq<char>, language: Language) -> Option<Seq<char>> {
    match fix_once_spec(s, language) {
        Some(r) => Some(fix_rest(r, language)),
        None => None,
    }
}

// ---------------------------------------------------------------------------
// Lemmas
// ---------------------------------------------------------------------------
pub proof fn lemma_preserves_refl(language: Language, s: Seq<char>)
    ensures
        preserves(language, s, s),
{
}

pub proof fn lemma_preserves_trans(language: Language, a: Seq<char>, b: Seq<char>, c: Seq<char>)
    requires
        preserves(language, a, b),
        preserves(language, b, c),
    ensures
        preserves(language, a, c),
{
}

/// A cut shortens the text by the length of the range, and its encoding by
/// as much or more.
pub proof fn lemma_cut(s: Seq<char>, a: int, b: int)
    requires
        0 <= a <= b <= s.len(),
    ensures
        cut(s, a, b).len() == s.len() - (b - a),
        utf8_len(cut(s, a, b)) <= utf8_len(s),
        cut(s, a, b).take(a) == s.take(a),
{
    lemma_utf8_len_concat(s.take(a), s.skip(b));
    lemma_utf8_len_concat(s.take(a), s.subrange(a, b));
    lemma_utf8_len_concat(s.take(a) + s.subrange(a, b), s.skip(b));
    assert(s.take(a) + s.subrange(a, b) + s.skip(b) =~= s);
    assert(cut(s, a, b).take(a) =~= s.take(a));
}

pub proof fn lemma_desc_within_weaken(rs: Seq<(int, int)>, n: int, m: int)
    requires
        desc_within(rs, n),
        n <= m,
    ensures
        desc_within(rs, m),
{
}

/// The removals taken are ordered and fit the text.
pub proof fn lemma_accepted_desc(s: Seq<char>, e: Seq<(int, int)>, cb: int)
    requires
        0 <= cb <= s.len(),
    ensures
        desc_within(accepted(s, e, byte_at(s, cb) as int), cb),
    decreases e.len(),
{
    if e.len() > 0 {
        let boundary = byte_at(s, cb) as int;
        let r = e.last();
        let a = char_at_byte(s, r.0);
        let b = char_at_byte(s, r.1);
        if r.0 < r.1 && r.1 <= boundary && a is Some && b is Some {
            let ai = a.unwrap();
            let bi = b.unwrap();
            assert(0 <= ai <= s.len() && byte_at(s, ai) == r.0);
            assert(0 <= bi <= s.len() && byte_at(s, bi) == r.1);
            if bi > cb {
                lemma_byte_at_mono(s, cb, bi);
            }
            if ai >= bi {
                lemma_byte_at_mono(s, bi, ai);
            }
            lemma_accepted_desc(s, e.drop_last(), ai);
            let acc = accepted(s, e, boundary);
            assert(acc[0] == (ai, bi));
            assert(acc.skip(1) =~= accepted(s, e.drop_last(), r.0));
        } else {
            lemma_accepted_desc(s, e.drop_last(), cb);
        }
    }
}

/// Cutting ordered ranges shortens the text, once for each range.
pub proof fn lemma_cut_all(s: Seq<char>, rs: Seq<(int, int)>)
    requires
        desc_within(rs, s.len() as int),
    ensures
        cut_all(s, rs).len() <= s.len(),
        rs.len() > 0 ==> cut_all(s, rs).len() < s.len(),
        utf8_len(cut_all(s, rs)) <= utf8_len(s),
    decreases rs.len(),
{
    if rs.len() > 0 {
        let c = cut(s, rs[0].0, rs[0].1);
        lemma_cut(s, rs[0].0, rs[0].1);
        lemma_desc_within_weaken(rs.skip(1), rs[0].0, c.len() as int);
        lemma_cut_all(c, rs.skip(1));
    }
}

/// Cutting ordered ranges one at a time keeps the structure, and the result
/// is the text itself or shorter.
pub proof fn lemma_cut_each(language: Language, s: Seq<char>, rs: Seq<(int, int)>)
    requires
        desc_within(rs, s.len() as int),
    ensures
        cut_each(language, s, rs).len() <= s.len(),
        cut_each(language, s, rs) != s ==> cut_each(language, s, rs).len() < s.len(),
        utf8_len(cut_each(language, s, rs)) <= utf8_len(s),
        preserves(language, s, cut_each(language, s, rs)),
    decreases rs.len(),
{
    if rs.len() == 0 {
        lemma_preserves_refl(language, s);
    } else {
        let c = cut(s, rs[0].0, rs[0].1);
        lemma_cut(s, rs[0].0, rs[0].1);
        if preserves(language, s, c) {
            lemma_desc_within_weaken(rs.skip(1), rs[0].0, c.len() as int);
            lemma_cut_each(language, c, rs.skip(1));
            lemma_preserves_trans(language, s, c, cut_each(language, c, rs.skip(1)));
        } else {
            lemma_desc_within_weaken(rs.skip(1), rs[0].0, s.len() as int);
            lemma_cut_each(language, s, rs.skip(1));
        }
    }
}

/// A round of fixes only removes text, and keeps the structure.
pub proof fn lemma_fix_once(s: Seq<char>, language: Language)
    ensures
        fix_once_spec(s, language) matches Some(r) ==> {
            &&& r.len() < s.len()
            &&& utf8_len(r) <= utf8_len(s)
            &&& preserves(language, s, r)
        },
{
    let ds = spec_check(s, language);
    if !has_error(ds) {
        let cr = accepted(s, sort_by(fix_ranges(ds), range_le()), utf8_len(s) as int);
        lemma_byte_at_full(s);
        lemma_accepted_desc(s, sort_by(fix_ranges(ds), range_le()), s.len() as int);
        lemma_cut_all(s, cr);
        lemma_cut_each(language, s, cr);
    }
}

/// Each removal taken is one of the sorted ranges, at character boundaries.
pub proof fn lemma_accepted_source(s: Seq<char>, e: Seq<(int, int)>, boundary: int)
    ensures
        forall|k: int|
            0 <= k < accepted(s, e, boundary).len() ==> e.contains(
                (
                    byte_at(s, (#[trigger] accepted(s, e, boundary)[k]).0) as int,
                    byte_at(s, accepted(s, e, boundary)[k].1) as int,
                ),
            ),
    decreases e.len(),
{
    if e.len() > 0 {
        let r = e.last();
        let a = char_at_byte(s, r.0);
        let b = char_at_byte(s, r.1);
        let acc = accepted(s, e, boundary);
        let next = if r.0 < r.1 && r.1 <= boundary && a is Some && b is Some {
            r.0
        } else {
            boundary
        };
        lemma_accepted_source(s, e.drop_last(), next);
        assert forall|k: int| 0 <= k < acc.len() implies e.contains(
            (byte_at(s, (#[trigger] acc[k]).0) as int, byte_at(s, acc[k].1) as int),
        ) by {
            if r.0 < r.1 && r.1 <= boundary && a is Some && b is Some {
                if k == 0 {
                    assert(acc[0] == (a.unwrap(), b.unwrap()));
                    assert(e[e.len() - 1] == r);
                } else {
                    let x = accepted(s, e.drop_last(), r.0)[k - 1];
                    assert(acc[k] == x);
                    let y = (byte_at(s, x.0) as int, byte_at(s, x.1) as int);
                    assert(e.drop_last().contains(y));
                    let j = choose|j: int| 0 <= j < e.drop_last().len() && e.drop_last()[j] == y;
                    assert(e[j] == y);
                }
            } else {
                assert(acc[k] == accepted(s, e.drop_last(), boundary)[k]);
                let y = (byte_at(s, acc[k].0) as int, byte_at(s, acc[k].1) as int);
                assert(e.drop_last().contains(y));
                let j = choose|j: int| 0 <= j < e.drop_last().len() && e.drop_last()[j] == y;
                assert(e[j] == y);
            }
        }
    }
}

/// Each fix range is the removal that one of the diagnostics offers.
pub proof fn lemma_fix_ranges_source(ds: Seq<DiagView>)
    ensures
        forall|k: int|
            #![trigger fix_ranges(ds)[k]]
            0 <= k < fix_ranges(ds).len() ==> exists|j: int|
                0 <= j < ds.len() && (#[trigger] ds[j]).5 == Some(fix_ranges(ds)[k]),
    decreases ds.len(),
{
    if ds.len() > 0 {
        lemma_fix_ranges_source(ds.drop_last());
        let p = fix_ranges(ds.drop_last());
        assert forall|k: int| #![trigger fix_ranges(ds)[k]] 0 <= k < fix_ranges(ds).len() implies exists|j: int|
            0 <= j < ds.len() && (#[trigger] ds[j]).5 == Some(fix_ranges(ds)[k]) by {
            if k < p.len() {
                let j = choose|j: int| 0 <= j < ds.drop_last().len() && (#[trigger] ds.drop_last()[j]).5 == Some(p[k]);
                assert(ds[j] == ds.drop_last()[j]);
            } else {
                assert(ds[ds.len() - 1].5 == Some(fix_ranges(ds)[k]));
            }
        }
    }
}

/// Each removal of a round is offered by one of the diagnostics found in
/// the text.
pub proof fn lemma_fix_cuts_source(s: Seq<char>, language: Language)
    ensures
        desc_within(fix_cuts(s, language), s.len() as int),
        forall|k: int|
            #![trigger fix_cuts(s, language)[k]]
            0 <= k < fix_cuts(s, language).len() ==> exists|j: int|
                0 <= j < crate::findings(s, language).len() && (#[trigger] crate::findings(
                    s,
                    language,
                )[j]).5 == Some(
                    (
                        byte_at(s, fix_cuts(s, language)[k].0) as int,
                        byte_at(s, fix_cuts(s, language)[k].1) as int,
                    ),
                ),
{
    broadcast use vstd::seq_lib::group_to_multiset_ensures;

    let ds = spec_check(s, language);
    let fr = fix_ranges(ds);
    let e = sort_by(fr, range_le());
    let cuts = fix_cuts(s, language);
    lemma_byte_at_full(s);
    lemma_accepted_desc(s, e, s.len() as int);
    lemma_accepted_source(s, e, utf8_len(s) as int);
    lemma_fix_ranges_source(ds);
    crate::sorting::lemma_sort_multiset(fr, range_le());
    crate::lemma_check_ordered(s, language);
    assert forall|k: int| #![trigger cuts[k]] 0 <= k < cuts.len() implies exists|j: int|
        0 <= j < crate::findings(s, language).len() && (#[trigger] crate::findings(s, language)[j]).5
            == Some((byte_at(s, cuts[k].0) as int, byte_at(s, cuts[k].1) as int)) by {
        let y = (byte_at(s, cuts[k].0) as int, byte_at(s, cuts[k].1) as int);
        assert(e.contains(y));
        assert(e.to_multiset().count(y) > 0);
        assert(fr.contains(y));
        let i = choose|i: int| 0 <= i < fr.len() && fr[i] == y;
        let j = choose|j: int| 0 <= j < ds.len() && (#[trigger] ds[j]).5 == Some(fr[i]);
        let d = ds[j];
        assert(ds.contains(d));
        assert(ds.to_multiset().count(d) > 0);
        assert(crate::findings(s, language).contains(d));
    }
}

/// `kept` is `rs` with some of its elements left out, in order.
pub open spec fn sub_of(kept: Seq<(int, int)>, rs: Seq<(int, int)>) -> bool
    decreases rs.len(),
{
    if rs.len() == 0 {
        kept.len() == 0
    } else {
        (kept.len() > 0 && kept[0] == rs[0] && sub_of(kept.skip(1), rs.skip(1))) || sub_of(
            kept,
            rs.skip(1),
        )
    }
}

/// Cutting one at a time makes some of the cuts, and only those.
pub proof fn lemma_cut_each_cuts(language: Language, s: Seq<char>, rs: Seq<(int, int)>)
    ensures
        exists|kept: Seq<(int, int)>| sub_of(kept, rs) && cut_each(language, s, rs) == cut_all(s, kept),
    decreases rs.len(),
{
    if rs.len() == 0 {
        assert(sub_of(seq![], rs) && cut_each(language, s, rs) == cut_all(s, seq![]));
    } else {
        let c = cut(s, rs[0].0, rs[0].1);
        if preserves(language, s, c) {
            lemma_cut_each_cuts(language, c, rs.skip(1));
            let k = choose|kept: Seq<(int, int)>| sub_of(kept, rs.skip(1)) && cut_each(language, c, rs.skip(1)) == cut_all(c, kept);
            let kept = seq![rs[0]] + k;
            assert(kept.skip(1) =~= k);
            assert(sub_of(kept, rs) && cut_each(language, s, rs) == cut_all(s, kept));
        } else {
            lemma_cut_each_cuts(language, s, rs.skip(1));
            let k = choose|kept: Seq<(int, int)>| sub_of(kept, rs.skip(1)) && cut_each(language, s, rs.skip(1)) == cut_all(s, kept);
            assert(sub_of(k, rs) && cut_each(language, s, rs) == cut_all(s, k));
        }
    }
}

/// `rs` is a part of itself.
pub proof fn lemma_sub_of_refl(rs: Seq<(int, int)>)
    ensures
        sub_of(rs, rs),
    decreases rs.len(),
{
    if rs.len() > 0 {
        lemma_sub_of_refl(rs.skip(1));
    }
}

/// A round of fixes makes some of the removals it takes, and nothing else.
pub proof fn lemma_fix_once_cuts(s: Seq<char>, language: Language)
    ensures
        fix_once_spec(s, language) matches Some(r) ==> exists|kept: Seq<(int, int)>|
            sub_of(kept, fix_cuts(s, language)) && r == cut_all(s, kept),
{
    let cr = fix_cuts(s, language);
    lemma_sub_of_refl(cr);
    lemma_cut_each_cuts(language, s, cr);
}

/// Rounds of fixes end on a text that a further round leaves alone, with
/// the structure of the text they started from.
pub proof fn lemma_fix_rest(s: Seq<char>, language: Language)
    ensures
        fix_once_spec(fix_rest(s, language), language) is None,
        fix_rest(s, language).len() <= s.len(),
        preserves(language, s, fix_rest(s, language)),
    decreases s.len(),
{
    lemma_fix_once(s, language);
    match fix_once_spec(s, language) {
        Some(r) => {
            lemma_fix_rest(r, language);
            lemma_preserves_trans(language, s, r, fix_rest(r, language));
        },
        None => {
            lemma_preserves_refl(language, s);
        },
    }
}

/// Fixing is idempotent: a text that fixing produced has nothing left to
/// fix, so fixing it again changes nothing.
pub proof fn lemma_fix_unsafe_idempotent(s: Seq<char>, language: Language)
    ensures
        fix_unsafe_spec(s, language) matches Some(r) ==> {
            &&& fix_once_spec(r, language) is None
            &&& fix_unsafe_spec(r, language) is None
        },
{
    if let Some(r) = fix_once_spec(s, language) {
        lemma_fix_rest(r, language);
    }
}

/// Fixing only removes text, and never changes the structure of a Markdown
/// or HTML text: its blocks, inline markup, elements and attributes.
pub proof fn lemma_fix_unsafe_keeps_structure(s: Seq<char>, language: Language)
    ensures
        fix_unsafe_spec(s, language) matches Some(r) ==> {
            &&& r.len() < s.len()
            &&& preserves(language, s, r)
        },
{
    lemma_fix_once(s, language);
    if let Some(r) = fix_once_spec(s, language) {
        lemma_fix_rest(r, language);
        lemma_preserves_trans(language, s, r, fix_rest(r, language));
    }
}

/// A text with an error (an invalid ignore directive) is never fixed.
pub proof fn lemma_errors_block_fixes(s: Seq<char>, language: Language)
    requires
        has_error(spec_check(s, language)),
    ensures
        fix_unsafe_spec(s, language) is None,
{
}

// ---------------------------------------------------------------------------
// Executable parts
// ---------------------------------------------------------------------------
/// `v` without the characters from index `a` up to `b`.
fn remove_range(v: &Vec<char>, a: usize, b: usize) -> (r: Vec<char>)
    requires
        a <= b <= v@.len(),
    ensures
        r@ == cut(v@, a as int, b as int),
{
    let mut r: Vec<char> = Vec::new();
    let mut i: usize = 0;
    while i < a
        invariant
            i <= a <= b <= v@.len(),
            r@ == v@.take(i as int),
        decreases a - i,
    {
        r.push(v[i]);
        proof {
            assert(v@.take(i + 1) =~= v@.take(i as int).push(v@[i as int]));
        }
        i = i + 1;
    }
    let mut j: usize = b;
    while j < v.len()
        invariant
            a <= b <= j <= v@.len(),
            r@ == v@.take(a as int) + v@.subrange(b as int, j as int),
        decreases v@.len() - j,
    {
        r.push(v[j]);
        proof {
            assert(v@.subrange(b as int, j + 1) =~= v@.subrange(b as int, j as int).push(v@[j as int]));
        }
        j = j + 1;
    }
    proof {
        assert(v@.subrange(b as int, v@.len() as int) =~= v@.skip(b as int));
    }
    r
}

/// Whether `after` keeps the structure of `before`.
fn preserves_structure(before: &str, after: &str, language: Language) -> (r: bool)
    requires
        fits(before@),
        fits(after@),
    ensures
        r == preserves(language, before@, after@),
{
    match language {
        Language::Markdown => crate::markdown::same_structure(before, after),
        Language::Html => crate::html::same_structure(before, after),
        _ => true,
    }
}

/// Sorts ranges by start, then end, stably.
fn sort_ranges(v: Vec<(usize, usize)>) -> (r: Vec<(usize, usize)>)
    ensures
        int_pairs(r@) == sort_by(int_pairs(v@), range_le()),
{
    let mut out: Vec<(usize, usize)> = Vec::new();
    let ghost iv = int_pairs(v@);
    let mut i: usize = 0;
    proof {
        assert(iv.take(0) =~= Seq::<(int, int)>::empty());
        assert(int_pairs(out@) =~= Seq::<(int, int)>::empty());
    }
    while i < v.len()
        invariant
            iv == int_pairs(v@),
            i <= v@.len(),
            int_pairs(out@) == sort_by(iv.take(i as int), range_le()),
            out@.len() == i,
        decreases v@.len() - i,
    {
        let x = v[i];
        let ghost xv = (x.0 as int, x.1 as int);
        proof {
            assert(iv.take(i + 1).drop_last() =~= iv.take(i as int));
            assert(iv.take(i + 1).last() == xv);
        }
        let mut p = out.len();
        while p > 0 && !(out[p - 1].0 < x.0 || (out[p - 1].0 == x.0 && out[p - 1].1 <= x.1))
            invariant
                p <= out@.len(),
                xv == (x.0 as int, x.1 as int),
                forall|j: int| p <= j < out@.len() ==> !range_le()(#[trigger] int_pairs(out@)[j], xv),
            decreases p,
        {
            p = p - 1;
        }
        proof {
            let o = int_pairs(out@);
            lemma_insert_at(o, xv, range_le(), p as int);
            assert(int_pairs(out@.insert(p as int, x)) =~= o.take(p as int) + seq![xv] + o.skip(
                p as int,
            ));
        }
        out.insert(p, x);
        i = i + 1;
    }
    proof {
        assert(iv.take(v@.len() as int) =~= iv);
    }
    out
}

/// One round of fixes; see [`fix_once_spec`].
pub(crate) fn fix_once(source: &str, language: Language) -> (r: Option<String>)
    requires
        fits(source@),
    ensures
        match r {
            Some(t) => fix_once_spec(source@, language) == Some(t@),
            None => fix_once_spec(source@, language) is None,
        },
{
    let ds = crate::check(source, language);
    let ghost dv = diag_views(ds@);
    let mut k: usize = 0;
    while k < ds.len()
        invariant
            dv == diag_views(ds@),
            dv == spec_check(source@, language),
            k <= ds@.len(),
            forall|j: int| 0 <= j < k ==> (#[trigger] dv[j]).4 != Severity::Error,
        decreases ds@.len() - k,
    {
        if ds[k].severity == Severity::Error {
            proof {
                assert(dv[k as int].4 == Severity::Error);
            }
            return None;
        }
        k = k + 1;
    }
    // The fixes that the diagnostics offer, in their order.
    let mut edits: Vec<(usize, usize)> = Vec::new();
    let mut k: usize = 0;
    proof {
        assert(dv.take(0) =~= Seq::<DiagView>::empty());
        assert(int_pairs(edits@) =~= Seq::<(int, int)>::empty());
    }
    while k < ds.len()
        invariant
            dv == diag_views(ds@),
            k <= ds@.len(),
            int_pairs(edits@) == fix_ranges(dv.take(k as int)),
        decreases ds@.len() - k,
    {
        proof {
            assert(dv.take(k + 1).drop_last() =~= dv.take(k as int));
            assert(dv.take(k + 1).last() == ds@[k as int].view());
        }
        match ds[k].fix {
            Some(range) => {
                proof {
                    assert(int_pairs(edits@.push(range)) =~= int_pairs(edits@).push(
                        (range.0 as int, range.1 as int),
                    ));
                }
                edits.push(range);
            },
            None => {
                proof {
                    assert(fix_ranges(dv.take(k + 1)) =~= fix_ranges(dv.take(k as int)));
                }
            },
        }
        k = k + 1;
    }
    proof {
        assert(dv.take(ds@.len() as int) =~= dv);
    }
    let sorted = sort_ranges(edits);
    let ghost e = int_pairs(sorted@);
    let text = Text::new(source);
    let ghost s = source@;
    // Take removals from the last range back.
    let mut acc: Vec<(usize, usize)> = Vec::new();
    let mut boundary = text.byte(text.len());
    let mut i = sorted.len();
    proof {
        lemma_byte_at_full(s);
        assert(e.take(e.len() as int) =~= e);
        assert(int_pairs(acc@) =~= Seq::<(int, int)>::empty());
        assert(int_pairs(acc@) + accepted(s, e.take(i as int), boundary as int) =~= accepted(
            s,
            e,
            utf8_len(s) as int,
        ));
    }
    while i > 0
        invariant
            text.wf(),
            text.chars@ == s,
            e == int_pairs(sorted@),
            i <= sorted@.len(),
            int_pairs(acc@) + accepted(s, e.take(i as int), boundary as int) == accepted(
                s,
                e,
                utf8_len(s) as int,
            ),
        decreases i,
    {
        i = i - 1;
        let (p, q) = sorted[i];
        proof {
            assert(e.take(i + 1).drop_last() =~= e.take(i as int));
            assert(e.take(i + 1).last() == (p as int, q as int));
        }
        if p < q && q <= boundary {
            let a = text.char_index(p);
            let b = text.char_index(q);
            match (a, b) {
                (Some(a), Some(b)) => {
                    proof {
                        assert(int_pairs(acc@.push((a, b))) =~= int_pairs(acc@).push(
                            (a as int, b as int),
                        ));
                        assert(int_pairs(acc@.push((a, b))) + accepted(s, e.take(i as int), p as int)
                            =~= int_pairs(acc@) + accepted(s, e.take(i + 1), boundary as int));
                    }
                    acc.push((a, b));
                    boundary = p;
                },
                _ => {},
            }
        }
    }
    let ghost cr = int_pairs(acc@);
    proof {
        assert(e.take(0) =~= Seq::<(int, int)>::empty());
        assert(cr =~= accepted(s, e, utf8_len(s) as int));
        lemma_accepted_desc(s, e, s.len() as int);
    }
    if acc.len() == 0 {
        return None;
    }
    // All removals at once.
    let mut all = chars_of(source);
    let mut k: usize = 0;
    proof {
        assert(cr.skip(0) =~= cr);
    }
    while k < acc.len()
        invariant
            cr == int_pairs(acc@),
            k <= acc@.len(),
            desc_within(cr.skip(k as int), all@.len() as int),
            cut_all(all@, cr.skip(k as int)) == cut_all(s, cr),
            utf8_len(all@) <= utf8_len(s),
        decreases acc@.len() - k,
    {
        let (a, b) = acc[k];
        proof {
            assert(cr.skip(k as int)[0] == (a as int, b as int));
            assert(cr.skip(k as int).skip(1) =~= cr.skip(k + 1));
            lemma_cut(all@, a as int, b as int);
            lemma_desc_within_weaken(cr.skip(k + 1), a as int, all@.len() - (b - a));
        }
        all = remove_range(&all, a, b);
        k = k + 1;
    }
    proof {
        assert(cr.skip(acc@.len() as int) =~= Seq::<(int, int)>::empty());
    }
    let all_text = string_of(all.as_slice(), 0, all.len());
    proof {
        assert(all@.subrange(0, all@.len() as int) =~= all@);
    }
    if preserves_structure(source, all_text.as_str(), language) {
        return Some(all_text);
    }
    // Each removal on its own, where it preserves the structure.
    let unchanged = chars_of(source);
    let mut cur = chars_of(source);
    let mut k: usize = 0;
    proof {
        assert(cr.skip(0) =~= cr);
        lemma_desc_within_weaken(cr, s.len() as int, s.len() as int);
    }
    while k < acc.len()
        invariant
            cr == int_pairs(acc@),
            unchanged@ == s,
            fits(s),
            k <= acc@.len(),
            desc_within(cr.skip(k as int), cur@.len() as int),
            cut_each(language, cur@, cr.skip(k as int)) == cut_each(language, s, cr),
            utf8_len(cur@) <= utf8_len(s),
        decreases acc@.len() - k,
    {
        let (a, b) = acc[k];
        proof {
            assert(cr.skip(k as int)[0] == (a as int, b as int));
            assert(cr.skip(k as int).skip(1) =~= cr.skip(k + 1));
            lemma_cut(cur@, a as int, b as int);
        }
        let candidate = remove_range(&cur, a, b);
        let before = string_of(cur.as_slice(), 0, cur.len());
        let after = string_of(candidate.as_slice(), 0, candidate.len());
        proof {
            assert(cur@.subrange(0, cur@.len() as int) =~= cur@);
            assert(candidate@.subrange(0, candidate@.len() as int) =~= candidate@);
        }
        if preserves_structure(before.as_str(), after.as_str(), language) {
            proof {
                lemma_desc_within_weaken(cr.skip(k + 1), a as int, candidate@.len() as int);
            }
            cur = candidate;
        } else {
            proof {
                lemma_desc_within_weaken(cr.skip(k + 1), a as int, cur@.len() as int);
            }
        }
        k = k + 1;
    }
    proof {
        assert(cr.skip(acc@.len() as int) =~= Seq::<(int, int)>::empty());
    }
    if crate::diagnostic::chars_equal(&cur, &unchanged) {
        None
    } else {
        let r = string_of(cur.as_slice(), 0, cur.len());
        proof {
            assert(cur@.subrange(0, cur@.len() as int) =~= cur@);
        }
        Some(r)
    }
}

} // verus!
