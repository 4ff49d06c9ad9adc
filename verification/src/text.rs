//! Source text as characters, with the byte offset of every character.
//!
//! Positions that leave the library (diagnostics, fix ranges, line and column
//! lookups) are byte offsets into the UTF-8 source, as `&str` indexing uses.
//! Inside, the logic works on the character sequence; `Text` keeps the table
//! that maps one to the other.

use vstd::prelude::*;

use crate::rules::{CharClass, lemma_run_bound, run, run_len};

verus! {

/// Number of bytes in the UTF-8 encoding of `c`.
pub open spec fn utf8_width(c: char) -> nat {
    if (c as u32) < 0x80 {
        1
    } else if (c as u32) < 0x800 {
        2
    } else if (c as u32) < 0x10000 {
        3
    } else {
        4
    }
}

/// Number of bytes in the UTF-8 encoding of `s`.
pub open spec fn utf8_len(s: Seq<char>) -> nat
    decreases s.len(),
{
    if s.len() == 0 {
        0
    } else {
        utf8_len(s.drop_last()) + utf8_width(s.last())
    }
}

/// Byte offset of the character at index `i` of `s`.
pub open spec fn byte_at(s: Seq<char>, i: int) -> nat {
    utf8_len(s.take(i))
}

/// A text whose UTF-8 encoding fits the machine's address range.
pub open spec fn fits(s: Seq<char>) -> bool {
    utf8_len(s) <= usize::MAX
}

pub fn char_width(c: char) -> (w: usize)
    ensures
        w == utf8_width(c),
        1 <= w <= 4,
{
    let u = c as u32;
    if u < 0x80 {
        1
    } else if u < 0x800 {
        2
    } else if u < 0x10000 {
        3
    } else {
        4
    }
}

pub proof fn lemma_byte_at_step(s: Seq<char>, i: int)
    requires
        0 <= i < s.len(),
    ensures
        byte_at(s, i + 1) == byte_at(s, i) + utf8_width(s[i]),
{
    assert(s.take(i + 1).drop_last() =~= s.take(i));
}

pub proof fn lemma_byte_at_mono(s: Seq<char>, i: int, j: int)
    requires
        0 <= i <= j <= s.len(),
    ensures
        byte_at(s, i) + (j - i) <= byte_at(s, j),
        i < j ==> byte_at(s, i) < byte_at(s, j),
    decreases j - i,
{
    if i < j {
        lemma_byte_at_mono(s, i, j - 1);
        lemma_byte_at_step(s, j - 1);
    }
}

pub proof fn lemma_byte_at_full(s: Seq<char>)
    ensures
        byte_at(s, s.len() as int) == utf8_len(s),
{
    assert(s.take(s.len() as int) =~= s);
}

/// `utf8_len` distributes over concatenation.
pub proof fn lemma_utf8_len_concat(a: Seq<char>, b: Seq<char>)
    ensures
        utf8_len(a + b) == utf8_len(a) + utf8_len(b),
    decreases b.len(),
{
    if b.len() > 0 {
        assert((a + b).drop_last() =~= a + b.drop_last());
        lemma_utf8_len_concat(a, b.drop_last());
    } else {
        assert(a + b =~= a);
    }
}

/// The byte offsets of a subrange are those of the whole shifted by the
/// subrange's start.
pub proof fn lemma_byte_at_subrange(s: Seq<char>, lo: int, hi: int, k: int)
    requires
        0 <= lo <= hi <= s.len(),
        0 <= k <= hi - lo,
    ensures
        byte_at(s, lo + k) == byte_at(s, lo) + byte_at(s.subrange(lo, hi), k),
{
    assert(s.take(lo + k) =~= s.take(lo) + s.subrange(lo, hi).take(k));
    lemma_utf8_len_concat(s.take(lo), s.subrange(lo, hi).take(k));
}

/// The index of the character of `s` that begins at byte `b`, where one does
/// (the end of the text counts).
pub open spec fn char_at_byte(s: Seq<char>, b: int) -> Option<int> {
    if exists|i: int| 0 <= i <= s.len() && byte_at(s, i) == b {
        Some(choose|i: int| 0 <= i <= s.len() && byte_at(s, i) == b)
    } else {
        None
    }
}

pub proof fn lemma_char_at_byte(s: Seq<char>, i: int)
    requires
        0 <= i <= s.len(),
    ensures
        char_at_byte(s, byte_at(s, i) as int) == Some(i),
{
    let b = byte_at(s, i) as int;
    let j = choose|j: int| 0 <= j <= s.len() && byte_at(s, j) == b;
    if j < i {
        lemma_byte_at_mono(s, j, i);
    } else if j > i {
        lemma_byte_at_mono(s, i, j);
    }
}

/// A character sequence with the byte offset of each character.
pub struct Text {
    pub chars: Vec<char>,
    /// `bytes[i]` is the byte offset of `chars[i]`; `bytes[len]` is the total.
    pub bytes: Vec<usize>,
}

impl Text {
    pub open spec fn wf(&self) -> bool {
        &&& self.bytes@.len() == self.chars@.len() + 1
        &&& forall|i: int|
            0 <= i <= self.chars@.len() ==> #[trigger] self.bytes@[i] == byte_at(self.chars@, i)
    }

    pub open spec fn view(&self) -> Seq<char> {
        self.chars@
    }

    pub fn from_chars(chars: Vec<char>) -> (t: Text)
        requires
            fits(chars@),
        ensures
            t.wf(),
            t.chars@ == chars@,
    {
        let n = chars.len();
        let mut bytes: Vec<usize> = Vec::new();
        bytes.push(0);
        let mut total: usize = 0;
        let mut i: usize = 0;
        proof {
            assert(chars@.take(0) =~= Seq::<char>::empty());
        }
        while i < n
            invariant
                n == chars@.len(),
                fits(chars@),
                i <= n,
                bytes@.len() == i + 1,
                total == byte_at(chars@, i as int),
                forall|j: int| 0 <= j <= i ==> #[trigger] bytes@[j] == byte_at(chars@, j),
            decreases n - i,
        {
            proof {
                lemma_byte_at_step(chars@, i as int);
                lemma_byte_at_mono(chars@, i + 1, n as int);
                lemma_byte_at_full(chars@);
            }
            let w = char_width(chars[i]);
            total = total + w;
            bytes.push(total);
            i = i + 1;
        }
        Text { chars, bytes }
    }

    pub fn new(s: &str) -> (t: Text)
        requires
            fits(s@),
        ensures
            t.wf(),
            t.chars@ == s@,
    {
        Text::from_chars(chars_of(s))
    }

    pub fn len(&self) -> (n: usize)
        ensures
            n == self.chars@.len(),
    {
        self.chars.len()
    }

    /// The byte offset of character index `i`.
    pub fn byte(&self, i: usize) -> (b: usize)
        requires
            self.wf(),
            i <= self.chars@.len(),
        ensures
            b == byte_at(self.chars@, i as int),
    {
        self.bytes[i]
    }

    /// The character index whose byte offset is `b`, if `b` falls on a
    /// character boundary within the text.
    pub fn char_index(&self, b: usize) -> (r: Option<usize>)
        requires
            self.wf(),
        ensures
            r matches Some(i) ==> char_at_byte(self.chars@, b as int) == Some(i as int),
            r is None ==> char_at_byte(self.chars@, b as int) is None,
            match r {
                Some(i) => i <= self.chars@.len() && byte_at(self.chars@, i as int) == b,
                None => forall|i: int|
                    0 <= i <= self.chars@.len() ==> byte_at(self.chars@, i) != b,
            },
    {
        let n = self.chars.len();
        let mut lo: usize = 0;
        let mut hi: usize = self.bytes.len();
        // Search the smallest index whose offset is at least `b`.
        while lo < hi
            invariant
                self.wf(),
                n == self.chars@.len(),
                lo <= hi <= n + 1,
                forall|i: int| 0 <= i < lo ==> byte_at(self.chars@, i) < b,
                forall|i: int| hi <= i <= n ==> byte_at(self.chars@, i) >= b,
            decreases hi - lo,
        {
            let mid = lo + (hi - lo) / 2;
            if self.bytes[mid] < b {
                proof {
                    assert forall|i: int| 0 <= i < mid + 1 implies byte_at(self.chars@, i) < b by {
                        lemma_byte_at_mono(self.chars@, i, mid as int);
                    }
                }
                lo = mid + 1;
            } else {
                proof {
                    assert forall|i: int| mid <= i <= n implies byte_at(self.chars@, i) >= b by {
                        lemma_byte_at_mono(self.chars@, mid as int, i);
                    }
                }
                hi = mid;
            }
        }
        if lo <= n && self.bytes[lo] == b {
            proof {
                lemma_char_at_byte(self.chars@, lo as int);
            }
            Some(lo)
        } else {
            proof {
                assert(!(exists|i: int| 0 <= i <= n && byte_at(self.chars@, i) == b)) by {
                    assert forall|i: int| 0 <= i <= n implies byte_at(self.chars@, i) != b by {
                        if i > lo {
                            lemma_byte_at_mono(self.chars@, lo as int, i);
                        }
                    }
                }
                assert forall|i: int| 0 <= i <= n implies byte_at(self.chars@, i) != b by {
                    if i > lo {
                        lemma_byte_at_mono(self.chars@, lo as int, i);
                    }
                }
            }
            None
        }
    }
}

pub fn chars_of(s: &str) -> (v: Vec<char>)
    ensures
        v@ == s@,
{
    let mut v: Vec<char> = Vec::new();
    for c in it: s.chars()
        invariant
            v@ == it.seq().take(it.index()),
            it.seq() == s@,
    {
        v.push(c);
    }
    v
}

/// The characters of `s` from index `lo` up to `hi`, as a `String`.
pub fn string_of(s: &[char], lo: usize, hi: usize) -> (r: String)
    requires
        lo <= hi <= s@.len(),
    ensures
        r@ == s@.subrange(lo as int, hi as int),
{
    let mut r = String::new();
    let mut i = lo;
    while i < hi
        invariant
            lo <= i <= hi <= s@.len(),
            r@ == s@.subrange(lo as int, i as int),
        decreases hi - i,
    {
        r.push(s[i]);
        proof {
            assert(s@.subrange(lo as int, i + 1) =~= s@.subrange(lo as int, i as int).push(s@[i as int]));
        }
        i = i + 1;
    }
    r
}

/// `e`, moved back over the carriage returns that end `s[i..e]`.
pub open spec fn trim_cr_end(s: Seq<char>, i: int, e: int) -> int
    decreases e - i,
{
    if e > i && s[e - 1] == '\r' {
        trim_cr_end(s, i, e - 1)
    } else {
        e
    }
}

/// The physical lines of `s` from index `i` on, as index ranges: each line
/// ends before its line feed and before the carriage returns that precede it.
pub open spec fn lines_from(s: Seq<char>, i: int) -> Seq<(int, int)>
    decreases s.len() - i,
{
    if i < 0 || i >= s.len() {
        seq![]
    } else {
        proof {
            lemma_run_bound(s, i, CharClass::NotNewline);
        }
        let k = i + run(s, i, CharClass::NotNewline);
        let next = if k < s.len() {
            k + 1
        } else {
            k
        };
        if next <= i {
            seq![]
        } else {
            seq![(i, trim_cr_end(s, i, k))] + lines_from(s, next)
        }
    }
}

/// The physical lines of `s`: an empty text has none, and a final line feed
/// opens no further line.
pub open spec fn physical_lines(s: Seq<char>) -> Seq<(int, int)> {
    lines_from(s, 0)
}

pub open spec fn int_pairs(v: Seq<(usize, usize)>) -> Seq<(int, int)> {
    v.map_values(|p: (usize, usize)| (p.0 as int, p.1 as int))
}

pub proof fn lemma_trim_cr_end(s: Seq<char>, i: int, e: int)
    requires
        i <= e,
    ensures
        i <= trim_cr_end(s, i, e) <= e,
    decreases e - i,
{
    if e > i && s[e - 1] == '\r' {
        lemma_trim_cr_end(s, i, e - 1);
    }
}

/// Each line lies within the text, from `i` on.
pub proof fn lemma_lines_bound(s: Seq<char>, i: int)
    ensures
        forall|k: int|
            0 <= k < lines_from(s, i).len() ==> i <= (#[trigger] lines_from(s, i)[k]).0 <= lines_from(
                s,
                i,
            )[k].1 <= s.len(),
    decreases s.len() - i,
{
    if 0 <= i < s.len() {
        lemma_run_bound(s, i, CharClass::NotNewline);
        let k = i + run(s, i, CharClass::NotNewline);
        let next = if k < s.len() {
            k + 1
        } else {
            k
        };
        lemma_trim_cr_end(s, i, k);
        if next > i {
            lemma_lines_bound(s, next);
            let ls = lines_from(s, i);
            assert forall|j: int| 0 <= j < ls.len() implies i <= (#[trigger] ls[j]).0 <= ls[j].1 <= s.len() by {
                if j > 0 {
                    assert(ls[j] == lines_from(s, next)[j - 1]);
                }
            }
        }
    }
}

/// The index ranges of the physical lines of `s`.
pub fn line_ranges(s: &[char]) -> (r: Vec<(usize, usize)>)
    ensures
        int_pairs(r@) == physical_lines(s@),
        forall|k: int| 0 <= k < r@.len() ==> (#[trigger] r@[k]).0 <= r@[k].1 <= s@.len(),
{
    let mut r: Vec<(usize, usize)> = Vec::new();
    let mut i: usize = 0;
    let n = s.len();
    while i < n
        invariant
            n == s@.len(),
            i <= n,
            physical_lines(s@) == int_pairs(r@) + lines_from(s@, i as int),
            forall|k: int| 0 <= k < r@.len() ==> (#[trigger] r@[k]).0 <= r@[k].1 <= s@.len(),
        decreases n - i,
    {
        let k = i + run_len(s, i, CharClass::NotNewline);
        proof {
            lemma_run_bound(s@, i as int, CharClass::NotNewline);
        }
        let mut e = k;
        while e > i && s[e - 1] == '\r'
            invariant
                i <= e <= k <= n,
                n == s@.len(),
                trim_cr_end(s@, i as int, e as int) == trim_cr_end(s@, i as int, k as int),
            decreases e,
        {
            e = e - 1;
        }
        let next = if k < n {
            k + 1
        } else {
            k
        };
        proof {
            assert(int_pairs(r@.push((i, e))) =~= int_pairs(r@).push((i as int, e as int)));
            assert(lines_from(s@, i as int) == seq![(i as int, e as int)] + lines_from(s@, next as int));
            assert(int_pairs(r@) + lines_from(s@, i as int) =~= int_pairs(r@).push((i as int, e as int)) + lines_from(s@, next as int));
        }
        r.push((i, e));
        i = next;
    }
    proof {
        assert(physical_lines(s@) =~= int_pairs(r@));
    }
    r
}

/// `String::push` appends one character: the string's characters after the
/// call are those before it followed by `ch`.
pub assume_specification[ String::push ](s: &mut String, ch: char)
    ensures
        final(s)@ == old(s)@.push(ch),
;

} // verus!
