//! Paths as text: `/`-separated segments.

use vstd::prelude::*;

verus! {

/// `done` with `seg` added, unless `seg` is empty or `.`.
pub open spec fn keep(done: Seq<Seq<char>>, seg: Seq<char>) -> Seq<Seq<char>> {
    if seg.len() == 0 || seg == seq!['.'] {
        done
    } else {
        done.push(seg)
    }
}

/// The segments of `p.take(n)` that are kept so far, and the segment being
/// read.
pub open spec fn split_upto(p: Seq<char>, n: int) -> (Seq<Seq<char>>, Seq<char>)
    decreases n,
{
    if n <= 0 {
        (seq![], seq![])
    } else {
        let st = split_upto(p, n - 1);
        if p[n - 1] == '/' {
            (keep(st.0, st.1), seq![])
        } else {
            (st.0, st.1.push(p[n - 1]))
        }
    }
}

/// The segments of `p` between slashes, without empty and `.` segments.
pub open spec fn kept_segments(p: Seq<char>) -> Seq<Seq<char>> {
    let st = split_upto(p, p.len() as int);
    keep(st.0, st.1)
}

/// The segments joined by slashes.
pub open spec fn join(segs: Seq<Seq<char>>) -> Seq<char>
    decreases segs.len(),
{
    if segs.len() == 0 {
        seq![]
    } else if segs.len() == 1 {
        segs[0]
    } else {
        join(segs.drop_last()) + seq!['/'] + segs.last()
    }
}

/// `p` without `.` segments and repeated slashes: its kept segments joined
/// by slashes, after a slash where `p` starts with one; `.` where that
/// leaves nothing.
pub open spec fn normalized(p: Seq<char>) -> Seq<char> {
    let body = join(kept_segments(p));
    let r = if p.len() > 0 && p[0] == '/' {
        seq!['/'] + body
    } else {
        body
    };
    if r.len() == 0 {
        seq!['.']
    } else {
        r
    }
}

fn keep_segment(done: &mut Vec<Vec<char>>, seg: Vec<char>)
    ensures
        final(done)@.map_values(|v: Vec<char>| v@) == keep(
            old(done)@.map_values(|v: Vec<char>| v@),
            seg@,
        ),
{
    let dot = seg.len() == 1 && seg[0] == '.';
    proof {
        if seg@.len() == 1 && seg@[0] == '.' {
            assert(seg@ =~= seq!['.']);
        }
    }
    if seg.len() > 0 && !dot {
        proof {
            assert(old(done)@.push(seg).map_values(|v: Vec<char>| v@) =~= old(done)@.map_values(
                |v: Vec<char>| v@,
            ).push(seg@));
        }
        done.push(seg);
    }
}

pub open spec fn seg_views(v: Seq<Vec<char>>) -> Seq<Seq<char>> {
    v.map_values(|v: Vec<char>| v@)
}

/// The segments of `path` between slashes, without empty and `.` ones; see
/// [`kept_segments`].
pub fn segments(path: &str) -> (r: Vec<Vec<char>>)
    ensures
        seg_views(r@) == kept_segments(path@),
{
    let p = crate::text::chars_of(path);
    let mut segs: Vec<Vec<char>> = Vec::new();
    let mut cur: Vec<char> = Vec::new();
    let mut i: usize = 0;
    proof {
        assert(segs@.map_values(|v: Vec<char>| v@) =~= Seq::<Seq<char>>::empty());
    }
    while i < p.len()
        invariant
            p@ == path@,
            i <= p@.len(),
            (segs@.map_values(|v: Vec<char>| v@), cur@) == split_upto(p@, i as int),
        decreases p@.len() - i,
    {
        if p[i] == '/' {
            let seg = cur;
            cur = Vec::new();
            keep_segment(&mut segs, seg);
        } else {
            cur.push(p[i]);
        }
        i = i + 1;
    }
    keep_segment(&mut segs, cur);
    segs
}

/// The path `path` without `.` segments and repeated slashes; see
/// [`normalized`].
pub fn normalize(path: &str) -> (r: String)
    ensures
        r@ == normalized(path@),
{
    let p = crate::text::chars_of(path);
    let segs = segments(path);
    let ghost ks = segs@.map_values(|v: Vec<char>| v@);
    let mut r = String::new();
    let absolute = p.len() > 0 && p[0] == '/';
    if absolute {
        r.push('/');
    }
    let ghost lead = r@;
    let mut j: usize = 0;
    proof {
        assert(ks == kept_segments(path@));
        assert(ks.take(0) =~= Seq::<Seq<char>>::empty());
        assert(lead + join(ks.take(0)) =~= lead);
    }
    while j < segs.len()
        invariant
            ks == segs@.map_values(|v: Vec<char>| v@),
            j <= segs@.len(),
            r@ == lead + join(ks.take(j as int)),
        decreases segs@.len() - j,
    {
        if j > 0 {
            r.push('/');
        }
        let ghost before = r@;
        let mut c: usize = 0;
        while c < segs[j].len()
            invariant
                ks == segs@.map_values(|v: Vec<char>| v@),
                j < segs@.len(),
                c <= segs@[j as int]@.len(),
                r@ == before + segs@[j as int]@.take(c as int),
            decreases segs@[j as int]@.len() - c,
        {
            r.push(segs[j][c]);
            proof {
                assert(segs@[j as int]@.take(c + 1) =~= segs@[j as int]@.take(c as int).push(
                    segs@[j as int]@[c as int],
                ));
            }
            c = c + 1;
        }
        proof {
            assert(segs@[j as int]@.take(segs@[j as int]@.len() as int) =~= segs@[j as int]@);
            assert(ks.take(j + 1).drop_last() =~= ks.take(j as int));
            assert(ks.take(j + 1).last() == ks[j as int]);
            if j == 0 {
                assert(ks.take(1) =~= seq![ks[0]]);
                assert(lead + join(ks.take(0)) =~= lead);
            }
            assert(r@ =~= lead + join(ks.take(j + 1)));
        }
        j = j + 1;
    }
    proof {
        assert(ks.take(segs@.len() as int) =~= ks);
    }
    if r.as_str().is_empty() {
        let mut dot = String::new();
        dot.push('.');
        proof {
            assert(dot@ =~= seq!['.']);
        }
        dot
    } else {
        r
    }
}

} // verus!
