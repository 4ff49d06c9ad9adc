//! The order in which errors are reported: by path, compared component by
//! component as `std::path::Path` orders paths on Unix, then by line, column
//! and message.
//!
//! Text is compared character by character by code point, which is the
//! order of its UTF-8 bytes.

use vstd::prelude::*;

use crate::paths::{kept_segments, seg_views, segments};
use crate::report::{ErrorReport, ErrorView, error_views};
use crate::sorting::{lemma_insert_at, sort_by};
use crate::text::chars_of;

verus! {

/// A path component: its kind in the order that std gives the kinds (1 the
/// root, 2 a leading `.`, 3 `..`, 4 a name) and, for a name, its text.
pub type Component = (int, Seq<char>);

/// The component of a kept segment.
pub open spec fn segment_component(seg: Seq<char>) -> Component {
    if seg == seq!['.', '.'] {
        (3, seq![])
    } else {
        (4, seg)
    }
}

/// The components of a path: the root where it starts with `/`, else `.`
/// where it starts with a `.` segment; then its segments, without empty and
/// `.` ones.
pub open spec fn components(p: Seq<char>) -> Seq<Component> {
    let lead: Seq<Component> = if p.len() > 0 && p[0] == '/' {
        seq![(1, seq![])]
    } else if p == seq!['.'] || (p.len() >= 2 && p[0] == '.' && p[1] == '/') {
        seq![(2, seq![])]
    } else {
        seq![]
    };
    lead + kept_segments(p).map_values(|seg: Seq<char>| segment_component(seg))
}

/// -1, 0 or 1 as `a` comes before, with or after `b`, character by
/// character, a prefix first.
pub open spec fn chars_order(a: Seq<char>, b: Seq<char>) -> int
    decreases a.len(),
{
    if a.len() == 0 && b.len() == 0 {
        0
    } else if a.len() == 0 {
        -1
    } else if b.len() == 0 {
        1
    } else if (a[0] as u32) < (b[0] as u32) {
        -1
    } else if (a[0] as u32) > (b[0] as u32) {
        1
    } else {
        chars_order(a.skip(1), b.skip(1))
    }
}

/// The order of two components: by kind, then by text.
pub open spec fn component_order(x: Component, y: Component) -> int {
    if x.0 < y.0 {
        -1
    } else if x.0 > y.0 {
        1
    } else {
        chars_order(x.1, y.1)
    }
}

/// The order of two component sequences, component by component, a prefix
/// first.
pub open spec fn components_order(a: Seq<Component>, b: Seq<Component>) -> int
    decreases a.len(),
{
    if a.len() == 0 && b.len() == 0 {
        0
    } else if a.len() == 0 {
        -1
    } else if b.len() == 0 {
        1
    } else if component_order(a[0], b[0]) != 0 {
        component_order(a[0], b[0])
    } else {
        components_order(a.skip(1), b.skip(1))
    }
}

/// The order of two errors: by the components of their paths, then line,
/// column and message.
pub open spec fn error_order(e: ErrorView, f: ErrorView) -> int {
    let c = components_order(components(e.0), components(f.0));
    if c != 0 {
        c
    } else if e.1 < f.1 {
        -1
    } else if e.1 > f.1 {
        1
    } else if e.2 < f.2 {
        -1
    } else if e.2 > f.2 {
        1
    } else {
        chars_order(e.3, f.3)
    }
}

/// `e` comes before `f` or with it.
pub open spec fn error_le() -> spec_fn(ErrorView, ErrorView) -> bool {
    |e: ErrorView, f: ErrorView| error_order(e, f) <= 0
}

// ---------------------------------------------------------------------------
// Laws
// ---------------------------------------------------------------------------
proof fn lemma_chars_order_flip(a: Seq<char>, b: Seq<char>)
    ensures
        chars_order(a, b) == -chars_order(b, a),
        -1 <= chars_order(a, b) <= 1,
    decreases a.len(),
{
    if a.len() > 0 && b.len() > 0 && (a[0] as u32) == (b[0] as u32) {
        lemma_chars_order_flip(a.skip(1), b.skip(1));
    }
}

proof fn lemma_components_order_flip(a: Seq<Component>, b: Seq<Component>)
    ensures
        components_order(a, b) == -components_order(b, a),
    decreases a.len(),
{
    if a.len() > 0 && b.len() > 0 {
        lemma_chars_order_flip(a[0].1, b[0].1);
        lemma_components_order_flip(a.skip(1), b.skip(1));
    }
}

/// Any two errors are ordered one way or the other.
pub proof fn lemma_error_order_total()
    ensures
        crate::sorting::total(error_le()),
{
    assert forall|e: ErrorView, f: ErrorView| #[trigger] error_le()(e, f) || error_le()(f, e) by {
        lemma_components_order_flip(components(e.0), components(f.0));
        lemma_chars_order_flip(e.3, f.3);
    }
}

/// The sorted errors are in order, and are the errors given.
pub proof fn lemma_sort_errors(v: Seq<ErrorView>)
    ensures
        crate::sorting::ordered_by(sort_by(v, error_le()), error_le()),
        sort_by(v, error_le()).to_multiset() == v.to_multiset(),
{
    lemma_error_order_total();
    crate::sorting::lemma_sort_ordered(v, error_le());
    crate::sorting::lemma_sort_multiset(v, error_le());
}

// ---------------------------------------------------------------------------
// Executable parts
// ---------------------------------------------------------------------------
pub open spec fn component_views(v: Seq<(u8, Vec<char>)>) -> Seq<Component> {
    v.map_values(|c: (u8, Vec<char>)| (c.0 as int, c.1@))
}

/// The components of `path`; see [`components`].
pub fn path_components(path: &str) -> (r: Vec<(u8, Vec<char>)>)
    ensures
        component_views(r@) == components(path@),
{
    let p = chars_of(path);
    let n = p.len();
    let mut out: Vec<(u8, Vec<char>)> = Vec::new();
    let ghost lead: Seq<Component>;
    if n > 0 && p[0] == '/' {
        out.push((1, Vec::new()));
        proof {
            lead = seq![(1int, Seq::<char>::empty())];
        }
    } else if (n == 1 && p[0] == '.') || (n >= 2 && p[0] == '.' && p[1] == '/') {
        out.push((2, Vec::new()));
        proof {
            lead = seq![(2int, Seq::<char>::empty())];
            if n == 1 {
                assert(path@ =~= seq!['.']);
            }
        }
    } else {
        proof {
            lead = seq![];
            if n == 1 {
                assert(path@ != seq!['.']) by {
                    assert(path@[0] != '.');
                }
            }
        }
    }
    proof {
        assert(component_views(out@) =~= lead);
        assert(lead =~= components(path@).take(lead.len() as int));
    }
    let segs = segments(path);
    let ghost ks = seg_views(segs@);
    let mut k: usize = 0;
    while k < segs.len()
        invariant
            ks == seg_views(segs@),
            ks == kept_segments(path@),
            k <= segs@.len(),
            component_views(out@) == lead + ks.take(k as int).map_values(
                |seg: Seq<char>| segment_component(seg),
            ),
            lead + ks.map_values(|seg: Seq<char>| segment_component(seg)) == components(path@),
        decreases segs@.len() - k,
    {
        let seg = &segs[k];
        let parent = seg.len() == 2 && seg[0] == '.' && seg[1] == '.';
        let c: (u8, Vec<char>) = if parent {
            proof {
                assert(seg@ =~= seq!['.', '.']);
            }
            (3, Vec::new())
        } else {
            proof {
                if seg@ == seq!['.', '.'] {
                    assert(seg@[0] == '.' && seg@[1] == '.');
                }
            }
            (4, seg.clone())
        };
        proof {
            assert(c.1@ == segment_component(seg@).1);
            assert(component_views(out@.push(c)) =~= component_views(out@).push(
                segment_component(ks[k as int]),
            ));
            assert(ks.take(k + 1).map_values(|seg: Seq<char>| segment_component(seg)) =~= ks.take(
                k as int,
            ).map_values(|seg: Seq<char>| segment_component(seg)).push(
                segment_component(ks[k as int]),
            ));
        }
        out.push(c);
        k = k + 1;
    }
    proof {
        assert(ks.take(segs@.len() as int) =~= ks);
    }
    out
}

/// The order of `a` and `b`; see [`chars_order`].
pub fn order_chars(a: &Vec<char>, b: &Vec<char>) -> (r: i8)
    ensures
        r == chars_order(a@, b@),
{
    let mut i: usize = 0;
    proof {
        assert(a@.skip(0) =~= a@);
        assert(b@.skip(0) =~= b@);
    }
    while i < a.len() && i < b.len() && (a[i] as u32) == (b[i] as u32)
        invariant
            i <= a@.len(),
            i <= b@.len(),
            chars_order(a@, b@) == chars_order(a@.skip(i as int), b@.skip(i as int)),
        decreases a@.len() - i,
    {
        proof {
            assert(a@.skip(i as int).skip(1) =~= a@.skip(i + 1));
            assert(b@.skip(i as int).skip(1) =~= b@.skip(i + 1));
        }
        i = i + 1;
    }
    if i == a.len() && i == b.len() {
        0
    } else if i == a.len() {
        -1
    } else if i == b.len() {
        1
    } else {
        let x = a[i] as u32;
        let y = b[i] as u32;
        proof {
            assert(a@.skip(i as int)[0] == a@[i as int]);
            assert(b@.skip(i as int)[0] == b@[i as int]);
        }
        if x < y {
            -1
        } else {
            1
        }
    }
}

/// The order of the components `a` and `b`; see [`components_order`].
pub fn order_components(a: &Vec<(u8, Vec<char>)>, b: &Vec<(u8, Vec<char>)>) -> (r: i8)
    ensures
        r == components_order(component_views(a@), component_views(b@)),
{
    let ghost av = component_views(a@);
    let ghost bv = component_views(b@);
    let mut i: usize = 0;
    proof {
        assert(av.skip(0) =~= av);
        assert(bv.skip(0) =~= bv);
    }
    while i < a.len() && i < b.len()
        invariant
            av == component_views(a@),
            bv == component_views(b@),
            av.len() == a@.len(),
            bv.len() == b@.len(),
            i <= a@.len(),
            i <= b@.len(),
            components_order(av, bv) == components_order(av.skip(i as int), bv.skip(i as int)),
        decreases a@.len() - i,
    {
        let c: i8 = if a[i].0 < b[i].0 {
            -1
        } else if a[i].0 > b[i].0 {
            1
        } else {
            order_chars(&a[i].1, &b[i].1)
        };
        proof {
            assert(av.skip(i as int)[0] == av[i as int]);
            assert(bv.skip(i as int)[0] == bv[i as int]);
        }
        if c != 0 {
            return c;
        }
        proof {
            assert(av.skip(i as int).skip(1) =~= av.skip(i + 1));
            assert(bv.skip(i as int).skip(1) =~= bv.skip(i + 1));
        }
        i = i + 1;
    }
    if i == a.len() && i == b.len() {
        0
    } else if i == a.len() {
        -1
    } else {
        1
    }
}

/// The order of two errors; see [`error_order`].
pub fn order_errors(e: &ErrorReport, f: &ErrorReport) -> (r: i8)
    ensures
        r == error_order(e@, f@),
{
    let c = order_components(
        &path_components(e.path.as_str()),
        &path_components(f.path.as_str()),
    );
    if c != 0 {
        c
    } else if e.line < f.line {
        -1
    } else if e.line > f.line {
        1
    } else if e.column < f.column {
        -1
    } else if e.column > f.column {
        1
    } else {
        order_chars(&chars_of(e.message.as_str()), &chars_of(f.message.as_str()))
    }
}

/// The errors in report order, stably; see [`error_order`].
pub fn sort_errors(v: Vec<ErrorReport>) -> (r: Vec<ErrorReport>)
    ensures
        error_views(r@) == sort_by(error_views(v@), error_le()),
{
    let ghost ev = error_views(v@);
    let mut rest = v;
    let mut out: Vec<ErrorReport> = Vec::new();
    let mut i: usize = 0;
    proof {
        assert(ev.take(0) =~= Seq::<ErrorView>::empty());
        assert(error_views(out@) =~= Seq::<ErrorView>::empty());
        assert(error_views(rest@) =~= ev.skip(0));
    }
    let n = rest.len();
    while i < n
        invariant
            i <= ev.len(),
            ev.len() == n,
            error_views(rest@) == ev.skip(i as int),
            error_views(out@) == sort_by(ev.take(i as int), error_le()),
            out@.len() == i,
            i + rest@.len() == ev.len(),
        decreases n - i,
    {
        let ghost before = rest@;
        let e = rest.remove(0);
        proof {
            assert(error_views(before)[0] == e@);
            assert(ev.skip(i as int)[0] == e@);
            assert(ev.take(i + 1).drop_last() =~= ev.take(i as int));
            assert(ev.take(i + 1).last() == e@);
            assert forall|j: int| 0 <= j < rest@.len() implies #[trigger] error_views(rest@)[j]
                == ev.skip(i + 1)[j] by {
                assert(rest@[j] == before[j + 1]);
                assert(error_views(before)[j + 1] == ev.skip(i as int)[j + 1]);
            }
            assert(error_views(rest@) =~= ev.skip(i + 1));
        }
        let mut p = out.len();
        while p > 0 && order_errors(&out[p - 1], &e) > 0
            invariant
                p <= out@.len(),
                forall|j: int| p <= j < out@.len() ==> !error_le()(#[trigger] error_views(out@)[j], e@),
            decreases p,
        {
            p = p - 1;
        }
        proof {
            let o = error_views(out@);
            lemma_insert_at(o, e@, error_le(), p as int);
            assert(error_views(out@.insert(p as int, e)) =~= o.take(p as int) + seq![e@] + o.skip(
                p as int,
            ));
        }
        out.insert(p, e);
        i = i + 1;
    }
    proof {
        assert(ev.take(i as int) =~= ev);
    }
    out
}

} // verus!
