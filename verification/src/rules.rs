//! The label grammar: which leading labels of a line of prose count as an
//! ordering (`1.`, `(a)`, `①`, ...) or as a phase (`Step 1:`, `フェーズ A`).

use vstd::prelude::*;

use crate::diagnostic::{DiagView, Diagnostic, Rule, Severity};
use crate::text::{
    Text, byte_at, fits, lemma_byte_at_full, lemma_byte_at_mono, lemma_byte_at_subrange, utf8_len,
};

verus! {

// ---------------------------------------------------------------------------
// Character classes
// ---------------------------------------------------------------------------
/// A space or a tab: the padding around labels.
pub open spec fn is_blank(c: char) -> bool {
    c == ' ' || c == '\t'
}

pub open spec fn is_digit(c: char) -> bool {
    0x30 <= (c as u32) <= 0x39
}

pub open spec fn is_ascii_letter(c: char) -> bool {
    (0x41 <= (c as u32) <= 0x5a) || (0x61 <= (c as u32) <= 0x7a)
}

/// A letter that a case-insensitive `[A-Z]` accepts: the ASCII letters and
/// the two characters that fold onto them (LONG S onto `s`, KELVIN SIGN onto `k`).
pub open spec fn is_keyword_letter(c: char) -> bool {
    is_ascii_letter(c) || (c as u32) == 0x17f || (c as u32) == 0x212a
}

/// 一 二 三 四 五 六 七 八 九 十
pub open spec fn is_kanji_numeral(c: char) -> bool {
    let u = c as u32;
    u == 0x4e00 || u == 0x4e8c || u == 0x4e09 || u == 0x56db || u == 0x4e94 || u == 0x516d
        || u == 0x4e03 || u == 0x516b || u == 0x4e5d || u == 0x5341
}

/// ① to ⑳, ㉑ to ㉟ and ㊱ to ㊿.
pub open spec fn is_circled_number(c: char) -> bool {
    let u = c as u32;
    (0x2460 <= u <= 0x2473) || (0x3251 <= u <= 0x325f) || (0x32b1 <= u <= 0x32bf)
}

/// `-`, EN DASH, EM DASH.
pub open spec fn is_dash(c: char) -> bool {
    let u = c as u32;
    u == 0x2d || u == 0x2013 || u == 0x2014
}

/// `.`, `)` and `:`, which end an ordinal when blank or the end follows.
pub open spec fn is_close_mark(c: char) -> bool {
    c == '.' || c == ')' || c == ':'
}

/// FULLWIDTH COLON, IDEOGRAPHIC COMMA, FULLWIDTH FULL STOP: they end an
/// ordinal on their own.
pub open spec fn is_wide_mark(c: char) -> bool {
    let u = c as u32;
    u == 0xff1a || u == 0x3001 || u == 0xff0e
}

/// Unicode White_Space, as `char::is_whitespace` tests it.
pub open spec fn is_whitespace(c: char) -> bool {
    let u = c as u32;
    (0x9 <= u <= 0xd) || u == 0x20 || u == 0x85 || u == 0xa0 || u == 0x1680 || (0x2000 <= u
        <= 0x200a) || u == 0x2028 || u == 0x2029 || u == 0x202f || u == 0x205f || u == 0x3000
}

/// Characters that end the word after a dotted number: white space and
/// `,` `，` `。` `;` `；`.
pub open spec fn ends_word(c: char) -> bool {
    let u = c as u32;
    is_whitespace(c) || u == 0x2c || u == 0xff0c || u == 0x3002 || u == 0x3b || u == 0xff1b
}

#[derive(Clone, Copy)]
pub enum CharClass {
    Blank,
    Digit,
    Kanji,
    Whitespace,
    WordChar,
    NotSlash,
    NotNewline,
    Indent,
    Hash,
    NotLt,
    Gap,
    BlankCr,
    AsciiAlpha,
}

pub open spec fn in_class(c: char, k: CharClass) -> bool {
    match k {
        CharClass::Blank => is_blank(c),
        CharClass::Digit => is_digit(c),
        CharClass::Kanji => is_kanji_numeral(c),
        CharClass::Whitespace => is_whitespace(c),
        CharClass::WordChar => !ends_word(c),
        CharClass::NotSlash => c != '/',
        CharClass::NotNewline => c != '\n',
        CharClass::Indent => c == ' ' || c == '\t' || c == '>',
        CharClass::Hash => c == '#',
        CharClass::NotLt => c != '<',
        CharClass::Gap => c == ' ' || c == '\t' || c == '\r' || c == '\n',
        CharClass::BlankCr => c == ' ' || c == '\t' || c == '\r',
        CharClass::AsciiAlpha => is_ascii_letter(c),
    }
}

/// The number of characters of class `k` that follow one another from `i`.
pub open spec fn run(t: Seq<char>, i: int, k: CharClass) -> nat
    decreases t.len() - i,
{
    if 0 <= i < t.len() && in_class(t[i], k) {
        1 + run(t, i + 1, k)
    } else {
        0
    }
}

pub proof fn lemma_run_bound(t: Seq<char>, i: int, k: CharClass)
    requires
        0 <= i <= t.len(),
    ensures
        i + run(t, i, k) <= t.len(),
        forall|j: int| i <= j < i + run(t, i, k) ==> in_class(#[trigger] t[j], k),
        i + run(t, i, k) < t.len() ==> !in_class(t[i + run(t, i, k)], k),
    decreases t.len() - i,
{
    if i < t.len() && in_class(t[i], k) {
        lemma_run_bound(t, i + 1, k);
    }
}

pub fn class_holds(c: char, k: CharClass) -> (r: bool)
    ensures
        r == in_class(c, k),
{
    let u = c as u32;
    match k {
        CharClass::Blank => c == ' ' || c == '\t',
        CharClass::Digit => 0x30 <= u && u <= 0x39,
        CharClass::Kanji => u == 0x4e00 || u == 0x4e8c || u == 0x4e09 || u == 0x56db || u
            == 0x4e94 || u == 0x516d || u == 0x4e03 || u == 0x516b || u == 0x4e5d || u == 0x5341,
        CharClass::Whitespace => whitespace(c),
        CharClass::WordChar => !(whitespace(c) || u == 0x2c || u == 0xff0c || u == 0x3002 || u
            == 0x3b || u == 0xff1b),
        CharClass::NotSlash => c != '/',
        CharClass::NotNewline => c != '\n',
        CharClass::Indent => c == ' ' || c == '\t' || c == '>',
        CharClass::Hash => c == '#',
        CharClass::NotLt => c != '<',
        CharClass::Gap => c == ' ' || c == '\t' || c == '\r' || c == '\n',
        CharClass::BlankCr => c == ' ' || c == '\t' || c == '\r',
        CharClass::AsciiAlpha => (0x41 <= u && u <= 0x5a) || (0x61 <= u && u <= 0x7a),
    }
}

pub fn whitespace(c: char) -> (r: bool)
    ensures
        r == is_whitespace(c),
{
    let u = c as u32;
    (0x9 <= u && u <= 0xd) || u == 0x20 || u == 0x85 || u == 0xa0 || u == 0x1680 || (0x2000 <= u
        && u <= 0x200a) || u == 0x2028 || u == 0x2029 || u == 0x202f || u == 0x205f || u == 0x3000
}

/// Counts the characters of class `k` from `i` on.
pub fn run_len(t: &[char], i: usize, k: CharClass) -> (n: usize)
    requires
        i <= t@.len(),
    ensures
        n == run(t@, i as int, k),
        i + n <= t.len(),
{
    let mut j = i;
    while j < t.len() && class_holds(t[j], k)
        invariant
            i <= j <= t@.len(),
            run(t@, i as int, k) == (j - i) + run(t@, j as int, k),
        decreases t@.len() - j,
    {
        j = j + 1;
    }
    proof {
        lemma_run_bound(t@, j as int, k);
    }
    j - i
}

/// The number of characters of class `k` that end just before `e`.
pub open spec fn back_run(t: Seq<char>, e: int, k: CharClass) -> nat
    decreases e,
{
    if 0 < e <= t.len() && in_class(t[e - 1], k) {
        1 + back_run(t, e - 1, k)
    } else {
        0
    }
}

pub proof fn lemma_back_run_bound(t: Seq<char>, e: int, k: CharClass)
    requires
        0 <= e <= t.len(),
    ensures
        back_run(t, e, k) <= e,
    decreases e,
{
    if 0 < e && in_class(t[e - 1], k) {
        lemma_back_run_bound(t, e - 1, k);
    }
}

/// Counts the characters of class `k` that end just before `e`.
pub fn back_run_len(t: &[char], e: usize, k: CharClass) -> (n: usize)
    requires
        e <= t@.len(),
    ensures
        n == back_run(t@, e as int, k),
        n <= e,
{
    let mut j = e;
    while j > 0 && class_holds(t[j - 1], k)
        invariant
            j <= e <= t@.len(),
            back_run(t@, e as int, k) == (e - j) + back_run(t@, j as int, k),
        decreases j,
    {
        j = j - 1;
    }
    e - j
}

// ---------------------------------------------------------------------------
// Keywords
// ---------------------------------------------------------------------------
/// The phase words, in the order in which they are tried: step, phase,
/// stage, task, and their katakana forms ステップ, フェーズ, ステージ, タスク.
pub open spec fn keyword(k: int) -> Seq<char> {
    if k == 0 {
        seq!['s', 't', 'e', 'p']
    } else if k == 1 {
        seq!['p', 'h', 'a', 's', 'e']
    } else if k == 2 {
        seq!['s', 't', 'a', 'g', 'e']
    } else if k == 3 {
        seq!['t', 'a', 's', 'k']
    } else if k == 4 {
        seq!['\u{30b9}', '\u{30c6}', '\u{30c3}', '\u{30d7}']
    } else if k == 5 {
        seq!['\u{30d5}', '\u{30a7}', '\u{30fc}', '\u{30ba}']
    } else if k == 6 {
        seq!['\u{30b9}', '\u{30c6}', '\u{30fc}', '\u{30b8}']
    } else {
        seq!['\u{30bf}', '\u{30b9}', '\u{30af}']
    }
}

/// `c` matches the keyword character `w` regardless of case.
pub open spec fn folds_to(c: char, w: char) -> bool {
    ||| c == w
    ||| 0x61 <= (w as u32) <= 0x7a && (c as u32) == (w as u32) - 32
    ||| w == 's' && (c as u32) == 0x17f
    ||| w == 'k' && (c as u32) == 0x212a
}

/// `t` begins with the word `w`, regardless of case.
pub open spec fn begins_with_word(t: Seq<char>, w: Seq<char>) -> bool {
    w.len() <= t.len() && forall|i: int| 0 <= i < w.len() ==> folds_to(#[trigger] t[i], w[i])
}

/// The length of the first phase word that `t` begins with.
pub open spec fn keyword_len(t: Seq<char>) -> Option<int> {
    if begins_with_word(t, keyword(0)) {
        Some(4)
    } else if begins_with_word(t, keyword(1)) {
        Some(5)
    } else if begins_with_word(t, keyword(2)) {
        Some(5)
    } else if begins_with_word(t, keyword(3)) {
        Some(4)
    } else if begins_with_word(t, keyword(4)) {
        Some(4)
    } else if begins_with_word(t, keyword(5)) {
        Some(4)
    } else if begins_with_word(t, keyword(6)) {
        Some(4)
    } else if begins_with_word(t, keyword(7)) {
        Some(3)
    } else {
        None
    }
}

fn folds(c: char, w: char) -> (r: bool)
    ensures
        r == folds_to(c, w),
{
    let u = c as u32;
    let v = w as u32;
    c == w || (0x61 <= v && v <= 0x7a && u == v - 32) || (w == 's' && u == 0x17f) || (w == 'k'
        && u == 0x212a)
}

fn word_at(t: &[char], w: &[char]) -> (r: bool)
    ensures
        r == begins_with_word(t@, w@),
{
    if w.len() > t.len() {
        return false;
    }
    let mut i: usize = 0;
    while i < w.len()
        invariant
            w@.len() <= t@.len(),
            i <= w@.len(),
            forall|j: int| 0 <= j < i ==> folds_to(#[trigger] t@[j], w@[j]),
        decreases w@.len() - i,
    {
        if !folds(t[i], w[i]) {
            return false;
        }
        i = i + 1;
    }
    true
}

fn keyword_exec(k: usize) -> (w: Vec<char>)
    requires
        k < 8,
    ensures
        w@ == keyword(k as int),
{
    let w = if k == 0 {
        vec!['s', 't', 'e', 'p']
    } else if k == 1 {
        vec!['p', 'h', 'a', 's', 'e']
    } else if k == 2 {
        vec!['s', 't', 'a', 'g', 'e']
    } else if k == 3 {
        vec!['t', 'a', 's', 'k']
    } else if k == 4 {
        vec!['\u{30b9}', '\u{30c6}', '\u{30c3}', '\u{30d7}']
    } else if k == 5 {
        vec!['\u{30d5}', '\u{30a7}', '\u{30fc}', '\u{30ba}']
    } else if k == 6 {
        vec!['\u{30b9}', '\u{30c6}', '\u{30fc}', '\u{30b8}']
    } else {
        vec!['\u{30bf}', '\u{30b9}', '\u{30af}']
    };
    proof {
        assert(w@ =~= keyword(k as int));
    }
    w
}

fn keyword_length(t: &[char]) -> (r: Option<usize>)
    ensures
        r matches Some(n) ==> keyword_len(t@) == Some(n as int),
        r is None ==> keyword_len(t@) is None,
{
    let mut k: usize = 0;
    while k < 8
        invariant
            k <= 8,
            forall|j: int| 0 <= j < k ==> !begins_with_word(t@, #[trigger] keyword(j)),
        decreases 8 - k,
    {
        let w = keyword_exec(k);
        if word_at(t, w.as_slice()) {
            return Some(w.len());
        }
        k = k + 1;
    }
    None
}

// ---------------------------------------------------------------------------
// The label patterns. Each gives the length of the label that the text
// begins with and whether removing it leaves a sentence.
// ---------------------------------------------------------------------------
/// The separator after a phase word and its ordinal, found at `q`: one of
/// `.):：、．`, a dash with optional blanks around it, blanks, or the end.
/// Removable unless it is only blank or the end.
pub open spec fn keyword_separator(t: Seq<char>, q: int) -> Option<(int, bool)> {
    let b = run(t, q, CharClass::Blank) as int;
    if q < t.len() && (is_close_mark(t[q]) || is_wide_mark(t[q])) {
        Some((1, true))
    } else if q + b < t.len() && is_dash(t[q + b]) {
        Some((b + 1 + run(t, q + b + 1, CharClass::Blank), true))
    } else if b > 0 {
        Some((b, false))
    } else if q == t.len() {
        Some((0, false))
    } else {
        None
    }
}

/// The end of the ordinal that follows a phase word at `p`: digits, one
/// letter, or a circled number.
pub open spec fn keyword_ordinal_end(t: Seq<char>, p: int) -> Option<int> {
    if p < t.len() && is_digit(t[p]) {
        Some(p + run(t, p, CharClass::Digit))
    } else if p < t.len() && (is_keyword_letter(t[p]) || is_circled_number(t[p])) {
        Some(p + 1)
    } else {
        None
    }
}

/// `Step 1:`, `Phase A`, `ステップ ①`: a phase word, blanks, an ordinal and a
/// separator.
pub open spec fn keyword_label(t: Seq<char>) -> Option<(int, bool)> {
    match keyword_len(t) {
        None => None,
        Some(w) => match keyword_ordinal_end(t, w + run(t, w, CharClass::Blank)) {
            None => None,
            Some(q) => match keyword_separator(t, q) {
                None => None,
                Some((s, removable)) => Some((q + s, removable)),
            },
        },
    }
}

/// Blanks after position `k`, or the end of the text: what must follow a
/// bracketed ordinal or a circled number.
pub open spec fn blank_or_end(t: Seq<char>, k: int) -> Option<int> {
    if run(t, k, CharClass::Blank) > 0 {
        Some(k + run(t, k, CharClass::Blank))
    } else if k == t.len() {
        Some(k)
    } else {
        None
    }
}

/// The end of the inside of a bracket that opens at 0: digits, one ASCII
/// letter, or kanji numerals.
pub open spec fn bracket_inner_end(t: Seq<char>) -> Option<int> {
    if 1 < t.len() && is_digit(t[1]) {
        Some(1 + run(t, 1, CharClass::Digit) as int)
    } else if 1 < t.len() && is_ascii_letter(t[1]) {
        Some(2)
    } else if run(t, 1, CharClass::Kanji) > 0 {
        Some(1 + run(t, 1, CharClass::Kanji) as int)
    } else {
        None
    }
}

/// `(1)`, `[a]`, `(一)`, followed by blanks or the end.
pub open spec fn bracketed_label(t: Seq<char>) -> Option<(int, bool)> {
    if t.len() > 0 && (t[0] == '(' || t[0] == '[') {
        match bracket_inner_end(t) {
            Some(j) => if j < t.len() && ((t[0] == '(' && t[j] == ')') || (t[0] == '['
                && t[j] == ']')) {
                match blank_or_end(t, j + 1) {
                    Some(e) => Some((e, true)),
                    None => None,
                }
            } else {
                None
            },
            None => None,
        }
    } else {
        None
    }
}

/// The end of a number `1`, `1.2`, `1.2.3` whose last group ends at `n`.
pub open spec fn dotted_end(t: Seq<char>, n: int) -> int
    decreases t.len() - n,
{
    if 0 <= n && n + 1 < t.len() && t[n] == '.' && is_digit(t[n + 1]) {
        proof {
            lemma_run_bound(t, n + 1, CharClass::Digit);
        }
        dotted_end(t, n + 1 + run(t, n + 1, CharClass::Digit))
    } else {
        n
    }
}

/// The separator after an ordinal at `n`: `.`, `)` or `:` followed by blanks
/// or the end, or one of `：、．`.
pub open spec fn ordinal_separator(t: Seq<char>, n: int) -> Option<int> {
    if n < t.len() && is_close_mark(t[n]) {
        match blank_or_end(t, n + 1) {
            Some(e) => Some(e - n),
            None => None,
        }
    } else if n < t.len() && is_wide_mark(t[n]) {
        Some(1)
    } else {
        None
    }
}

/// The separator after a number at `n`: an ordinal separator, or blanks with
/// an optional dash and blanks after them. The flag tells whether it is only
/// blanks.
pub open spec fn number_separator(t: Seq<char>, n: int) -> Option<(int, bool)> {
    let b = run(t, n, CharClass::Blank) as int;
    match ordinal_separator(t, n) {
        Some(s) => Some((s, false)),
        None => if b > 0 {
            if n + b < t.len() && is_dash(t[n + b]) && run(t, n + b + 1, CharClass::Blank) > 0 {
                Some((b + 1 + run(t, n + b + 1, CharClass::Blank), false))
            } else {
                Some((b, true))
            }
        } else {
            None
        },
    }
}

/// `u` is one of the characters `c0`, `c1`, ... in order.
pub open spec fn is2(u: Seq<char>, c0: char, c1: char) -> bool {
    u.len() == 2 && u[0] == c0 && u[1] == c1
}

pub open spec fn is3(u: Seq<char>, c0: char, c1: char, c2: char) -> bool {
    u.len() == 3 && u[0] == c0 && u[1] == c1 && u[2] == c2
}

/// Units that a dotted number before them measures: GB MB KB TB GHz MHz Hz
/// ms px mm cm km m kg g BTC ETH USDC.
pub open spec fn is_unit(u: Seq<char>) -> bool {
    ||| is2(u, 'G', 'B') || is2(u, 'M', 'B') || is2(u, 'K', 'B') || is2(u, 'T', 'B')
    ||| is3(u, 'G', 'H', 'z') || is3(u, 'M', 'H', 'z') || is2(u, 'H', 'z')
    ||| is2(u, 'm', 's') || is2(u, 'p', 'x') || is2(u, 'm', 'm') || is2(u, 'c', 'm')
    ||| is2(u, 'k', 'm') || (u.len() == 1 && u[0] == 'm') || is2(u, 'k', 'g')
    ||| (u.len() == 1 && u[0] == 'g')
    ||| is3(u, 'B', 'T', 'C') || is3(u, 'E', 'T', 'H')
    ||| (u.len() == 4 && u[0] == 'U' && u[1] == 'S' && u[2] == 'D' && u[3] == 'C')
}

/// `w` begins with `c0` (and `c1`, `c2` where given).
pub open spec fn starts1(w: Seq<char>, c0: u32) -> bool {
    w.len() >= 1 && w[0] as u32 == c0
}

pub open spec fn starts2(w: Seq<char>, c0: u32, c1: u32) -> bool {
    w.len() >= 2 && w[0] as u32 == c0 && w[1] as u32 == c1
}

/// Words after a number that make it a quantity: % ℃ 倍 円 人 の は を に へ
/// で と から まで という など 以上 以下 未満 前後 程度.
pub open spec fn starts_with_follower(w: Seq<char>) -> bool {
    ||| starts1(w, 0x25) || starts1(w, 0x2103) || starts1(w, 0x500d) || starts1(w, 0x5186)
    ||| starts1(w, 0x4eba) || starts1(w, 0x306e) || starts1(w, 0x306f) || starts1(w, 0x3092)
    ||| starts1(w, 0x306b) || starts1(w, 0x3078) || starts1(w, 0x3067) || starts1(w, 0x3068)
    ||| starts2(w, 0x304b, 0x3089) || starts2(w, 0x307e, 0x3067)
    ||| (w.len() >= 3 && w[0] as u32 == 0x3068 && w[1] as u32 == 0x3044 && w[2] as u32
        == 0x3046)
    ||| starts2(w, 0x306a, 0x3069) || starts2(w, 0x4ee5, 0x4e0a) || starts2(w, 0x4ee5, 0x4e0b)
    ||| starts2(w, 0x672a, 0x6e80) || starts2(w, 0x524d, 0x5f8c) || starts2(w, 0x7a0b, 0x5ea6)
}

/// After a dotted number and blanks, `r` reads as a quantity: a unit, a
/// Japanese word of quantity, or a comparison.
pub open spec fn reads_as_quantity(r: Seq<char>) -> bool {
    let rest = r.skip(run(r, 0, CharClass::Whitespace) as int);
    let word = rest.take(run(rest, 0, CharClass::WordChar) as int);
    let unit = word.take(run(word, 0, CharClass::NotSlash) as int);
    ||| is_unit(unit)
    ||| starts_with_follower(word)
    ||| rest.len() > 0 && (rest[0] == '=' || rest[0] == '<' || rest[0] == '>' || rest[0] as u32
        == 0xb1)
}

/// `1.`, `1:`, `1)`, `1．`, `1.2.3 `, `1.29:`: a number and a separator. A
/// number without a dot needs more than blanks after it (`2025 年` is no
/// label), and a dotted number followed by blanks must not read as a
/// quantity (`1.29 GB`).
pub open spec fn number_label(t: Seq<char>) -> Option<(int, bool)> {
    let d = run(t, 0, CharClass::Digit) as int;
    let n = dotted_end(t, d);
    if d == 0 {
        None
    } else {
        match number_separator(t, n) {
            None => None,
            Some((s, only_blank)) => if is_blank(t[n]) && n == d {
                None
            } else if n > d && only_blank && reads_as_quantity(t.skip(n + s)) {
                None
            } else {
                Some((n + s, true))
            },
        }
    }
}

/// `A)`, `a.`, `一、`: one ASCII letter or kanji numerals, and an ordinal
/// separator.
pub open spec fn letter_label(t: Seq<char>) -> Option<(int, bool)> {
    let n = if t.len() > 0 && is_ascii_letter(t[0]) {
        1
    } else {
        run(t, 0, CharClass::Kanji) as int
    };
    if n == 0 {
        None
    } else {
        match ordinal_separator(t, n) {
            Some(s) => Some((n + s, true)),
            None => None,
        }
    }
}

/// `①`, followed by blanks or the end.
pub open spec fn circled_label(t: Seq<char>) -> Option<(int, bool)> {
    if t.len() > 0 && is_circled_number(t[0]) {
        match blank_or_end(t, 1) {
            Some(e) => Some((e, true)),
            None => None,
        }
    } else {
        None
    }
}

/// The label that `t` begins with: its rule, its length (with the blanks
/// its pattern takes), and whether removing it leaves a sentence. Phase
/// labels come first, then bracketed, numbered, lettered and circled ones.
#[verifier::opaque]
pub open spec fn label(t: Seq<char>) -> Option<(Rule, int, bool)> {
    match keyword_label(t) {
        Some((n, r)) => Some((Rule::KeywordPrefix, n, r)),
        None => match bracketed_label(t) {
            Some((n, r)) => Some((Rule::Prefix, n, r)),
            None => match number_label(t) {
                Some((n, r)) => Some((Rule::Prefix, n, r)),
                None => match letter_label(t) {
                    Some((n, r)) => Some((Rule::Prefix, n, r)),
                    None => match circled_label(t) {
                        Some((n, r)) => Some((Rule::Prefix, n, r)),
                        None => None,
                    },
                },
            },
        },
    }
}


// ---------------------------------------------------------------------------
// Matching
// ---------------------------------------------------------------------------
/// `r` is the length and flag that `s` gives, as machine integers.
pub open spec fn same_label(r: Option<(usize, bool)>, s: Option<(int, bool)>) -> bool {
    match r {
        Some((n, b)) => s == Some((n as int, b)),
        None => s is None,
    }
}

fn close_mark(c: char) -> (r: bool)
    ensures
        r == is_close_mark(c),
{
    c == '.' || c == ')' || c == ':'
}

fn wide_mark(c: char) -> (r: bool)
    ensures
        r == is_wide_mark(c),
{
    let u = c as u32;
    u == 0xff1a || u == 0x3001 || u == 0xff0e
}

fn dash(c: char) -> (r: bool)
    ensures
        r == is_dash(c),
{
    let u = c as u32;
    u == 0x2d || u == 0x2013 || u == 0x2014
}

fn digit(c: char) -> (r: bool)
    ensures
        r == is_digit(c),
{
    let u = c as u32;
    0x30 <= u && u <= 0x39
}

fn ascii_letter(c: char) -> (r: bool)
    ensures
        r == is_ascii_letter(c),
{
    let u = c as u32;
    (0x41 <= u && u <= 0x5a) || (0x61 <= u && u <= 0x7a)
}

fn keyword_letter(c: char) -> (r: bool)
    ensures
        r == is_keyword_letter(c),
{
    let u = c as u32;
    ascii_letter(c) || u == 0x17f || u == 0x212a
}

fn circled_number(c: char) -> (r: bool)
    ensures
        r == is_circled_number(c),
{
    let u = c as u32;
    (0x2460 <= u && u <= 0x2473) || (0x3251 <= u && u <= 0x325f) || (0x32b1 <= u && u <= 0x32bf)
}

fn blank_or_end_at(t: &[char], k: usize) -> (r: Option<usize>)
    requires
        k <= t@.len(),
    ensures
        r matches Some(e) ==> blank_or_end(t@, k as int) == Some(e as int) && e <= t.len(),
        r is None ==> blank_or_end(t@, k as int) is None,
{
    let b = run_len(t, k, CharClass::Blank);
    if b > 0 {
        Some(k + b)
    } else if k == t.len() {
        Some(k)
    } else {
        None
    }
}

fn keyword_label_at(t: &[char]) -> (r: Option<(usize, bool)>)
    ensures
        same_label(r, keyword_label(t@)),
        r matches Some((n, _)) ==> 0 < n <= t.len(),
{
    let w = match keyword_length(t) {
        Some(w) => w,
        None => return None,
    };
    proof {
        assert(w <= t@.len()) by {
            if keyword_len(t@) == Some(4int) { }
        }
    }
    let p = w + run_len(t, w, CharClass::Blank);
    let q = if p < t.len() && digit(t[p]) {
        p + run_len(t, p, CharClass::Digit)
    } else if p < t.len() && (keyword_letter(t[p]) || circled_number(t[p])) {
        p + 1
    } else {
        return None;
    };
    let b = run_len(t, q, CharClass::Blank);
    if q < t.len() && (close_mark(t[q]) || wide_mark(t[q])) {
        Some((q + 1, true))
    } else if q + b < t.len() && dash(t[q + b]) {
        let after = run_len(t, q + b + 1, CharClass::Blank);
        Some((q + b + 1 + after, true))
    } else if b > 0 {
        Some((q + b, false))
    } else if q == t.len() {
        Some((q, false))
    } else {
        None
    }
}

fn bracketed_label_at(t: &[char]) -> (r: Option<(usize, bool)>)
    ensures
        same_label(r, bracketed_label(t@)),
        r matches Some((n, _)) ==> 0 < n <= t.len(),
{
    if t.len() == 0 || !(t[0] == '(' || t[0] == '[') {
        return None;
    }
    let j = if 1 < t.len() && digit(t[1]) {
        1 + run_len(t, 1, CharClass::Digit)
    } else if 1 < t.len() && ascii_letter(t[1]) {
        2
    } else {
        let k = run_len(t, 1, CharClass::Kanji);
        if k > 0 {
            1 + k
        } else {
            return None;
        }
    };
    if j < t.len() && ((t[0] == '(' && t[j] == ')') || (t[0] == '[' && t[j] == ']')) {
        match blank_or_end_at(t, j + 1) {
            Some(e) => Some((e, true)),
            None => None,
        }
    } else {
        None
    }
}

fn dotted_end_at(t: &[char], d: usize) -> (n: usize)
    requires
        d <= t@.len(),
    ensures
        n == dotted_end(t@, d as int),
        d <= n <= t.len(),
{
    let mut n = d;
    while n < t.len() && n + 1 < t.len() && t[n] == '.' && digit(t[n + 1])
        invariant
            d <= n <= t@.len(),
            dotted_end(t@, d as int) == dotted_end(t@, n as int),
        decreases t@.len() - n,
    {
        n = n + 1 + run_len(t, n + 1, CharClass::Digit);
    }
    n
}

fn ordinal_separator_at(t: &[char], n: usize) -> (r: Option<usize>)
    requires
        n <= t@.len(),
    ensures
        r matches Some(s) ==> ordinal_separator(t@, n as int) == Some(s as int) && 0 < s && n + s <= t.len(),
        r is None ==> ordinal_separator(t@, n as int) is None,
{
    if n < t.len() && close_mark(t[n]) {
        match blank_or_end_at(t, n + 1) {
            Some(e) => Some(e - n),
            None => None,
        }
    } else if n < t.len() && wide_mark(t[n]) {
        Some(1)
    } else {
        None
    }
}

fn eq2(u: &[char], c0: char, c1: char) -> (r: bool)
    ensures
        r == is2(u@, c0, c1),
{
    u.len() == 2 && u[0] == c0 && u[1] == c1
}

fn eq3(u: &[char], c0: char, c1: char, c2: char) -> (r: bool)
    ensures
        r == is3(u@, c0, c1, c2),
{
    u.len() == 3 && u[0] == c0 && u[1] == c1 && u[2] == c2
}

fn unit(u: &[char]) -> (r: bool)
    ensures
        r == is_unit(u@),
{
    eq2(u, 'G', 'B') || eq2(u, 'M', 'B') || eq2(u, 'K', 'B') || eq2(u, 'T', 'B') || eq3(
        u,
        'G',
        'H',
        'z',
    ) || eq3(u, 'M', 'H', 'z') || eq2(u, 'H', 'z') || eq2(u, 'm', 's') || eq2(u, 'p', 'x')
        || eq2(u, 'm', 'm') || eq2(u, 'c', 'm') || eq2(u, 'k', 'm') || (u.len() == 1 && u[0]
        == 'm') || eq2(u, 'k', 'g') || (u.len() == 1 && u[0] == 'g') || eq3(u, 'B', 'T', 'C')
        || eq3(u, 'E', 'T', 'H') || (u.len() == 4 && u[0] == 'U' && u[1] == 'S' && u[2] == 'D'
        && u[3] == 'C')
}

fn first1(w: &[char], c0: u32) -> (r: bool)
    ensures
        r == starts1(w@, c0),
{
    w.len() >= 1 && w[0] as u32 == c0
}

fn first2(w: &[char], c0: u32, c1: u32) -> (r: bool)
    ensures
        r == starts2(w@, c0, c1),
{
    w.len() >= 2 && w[0] as u32 == c0 && w[1] as u32 == c1
}

fn follower(w: &[char]) -> (r: bool)
    ensures
        r == starts_with_follower(w@),
{
    first1(w, 0x25) || first1(w, 0x2103) || first1(w, 0x500d) || first1(w, 0x5186) || first1(
        w,
        0x4eba,
    ) || first1(w, 0x306e) || first1(w, 0x306f) || first1(w, 0x3092) || first1(w, 0x306b)
        || first1(w, 0x3078) || first1(w, 0x3067) || first1(w, 0x3068) || first2(
        w,
        0x304b,
        0x3089,
    ) || first2(w, 0x307e, 0x3067) || (w.len() >= 3 && w[0] as u32 == 0x3068 && w[1] as u32
        == 0x3044 && w[2] as u32 == 0x3046) || first2(w, 0x306a, 0x3069) || first2(
        w,
        0x4ee5,
        0x4e0a,
    ) || first2(w, 0x4ee5, 0x4e0b) || first2(w, 0x672a, 0x6e80) || first2(w, 0x524d, 0x5f8c)
        || first2(w, 0x7a0b, 0x5ea6)
}

fn quantity(r: &[char]) -> (b: bool)
    ensures
        b == reads_as_quantity(r@),
{
    let ws = run_len(r, 0, CharClass::Whitespace);
    let rest = &r[ws..r.len()];
    let wl = run_len(rest, 0, CharClass::WordChar);
    let word = &rest[0..wl];
    let ul = run_len(word, 0, CharClass::NotSlash);
    let u = &word[0..ul];
    proof {
        assert(rest@ =~= r@.skip(ws as int));
        assert(word@ =~= rest@.take(wl as int));
        assert(u@ =~= word@.take(ul as int));
    }
    unit(u) || follower(word) || (rest.len() > 0 && (rest[0] == '=' || rest[0] == '<' || rest[0]
        == '>' || rest[0] as u32 == 0xb1))
}

fn number_label_at(t: &[char]) -> (r: Option<(usize, bool)>)
    ensures
        same_label(r, number_label(t@)),
        r matches Some((n, _)) ==> 0 < n <= t.len(),
{
    let d = run_len(t, 0, CharClass::Digit);
    if d == 0 {
        return None;
    }
    let n = dotted_end_at(t, d);
    let b = run_len(t, n, CharClass::Blank);
    let (s, only_blank) = match ordinal_separator_at(t, n) {
        Some(s) => (s, false),
        None => if b > 0 {
            if n + b < t.len() && dash(t[n + b]) && run_len(t, n + b + 1, CharClass::Blank) > 0 {
                (b + 1 + run_len(t, n + b + 1, CharClass::Blank), false)
            } else {
                (b, true)
            }
        } else {
            return None;
        },
    };
    proof {
        assert(number_separator(t@, n as int) == Some((s as int, only_blank)));
        assert(n < t@.len());
    }
    if (t[n] == ' ' || t[n] == '\t') && n == d {
        None
    } else if n > d && only_blank && quantity(&t[n + s..t.len()]) {
        proof {
            assert(t@.skip(n + s) =~= t@.subrange(n + s, t@.len() as int));
        }
        None
    } else {
        proof {
            assert(t@.skip(n + s) =~= t@.subrange(n + s, t@.len() as int));
        }
        Some((n + s, true))
    }
}

fn letter_label_at(t: &[char]) -> (r: Option<(usize, bool)>)
    ensures
        same_label(r, letter_label(t@)),
        r matches Some((n, _)) ==> 0 < n <= t.len(),
{
    let n = if t.len() > 0 && ascii_letter(t[0]) {
        1
    } else {
        run_len(t, 0, CharClass::Kanji)
    };
    if n == 0 {
        return None;
    }
    match ordinal_separator_at(t, n) {
        Some(s) => Some((n + s, true)),
        None => None,
    }
}

fn circled_label_at(t: &[char]) -> (r: Option<(usize, bool)>)
    ensures
        same_label(r, circled_label(t@)),
        r matches Some((n, _)) ==> 0 < n <= t.len(),
{
    if t.len() > 0 && circled_number(t[0]) {
        match blank_or_end_at(t, 1) {
            Some(e) => Some((e, true)),
            None => None,
        }
    } else {
        None
    }
}

/// The label that `t` begins with; see [`label`].
pub fn find_label(t: &[char]) -> (r: Option<(Rule, usize, bool)>)
    ensures
        match r {
            Some((rule, n, removable)) => label(t@) == Some((rule, n as int, removable)) && 0 < n
                <= t@.len(),
            None => label(t@) is None,
        },
{
    reveal(label);
    if let Some((n, removable)) = keyword_label_at(t) {
        return Some((Rule::KeywordPrefix, n, removable));
    }
    let found = if let Some(l) = bracketed_label_at(t) {
        Some(l)
    } else if let Some(l) = number_label_at(t) {
        Some(l)
    } else if let Some(l) = letter_label_at(t) {
        Some(l)
    } else {
        circled_label_at(t)
    };
    match found {
        Some((n, removable)) => Some((Rule::Prefix, n, removable)),
        None => None,
    }
}


// ---------------------------------------------------------------------------
// Lines
// ---------------------------------------------------------------------------
/// The length of `t.take(n)` without its trailing blanks.
pub open spec fn trim_blank_end(t: Seq<char>, n: int) -> int
    decreases n,
{
    if n > 0 && is_blank(t[n - 1]) {
        trim_blank_end(t, n - 1)
    } else {
        n
    }
}

/// What a line of prose reports: the rule of its leading label, the byte
/// range of the label (without the blanks around it) relative to the line,
/// and the byte range whose removal drops the label with the blanks after
/// it. Removal is offered where the context allows edits (`fixable`), the
/// label's form allows it, and text remains after it on the line (in the
/// line itself, or, where `followed`, after the line on the same source line).
#[verifier::opaque]
pub open spec fn line_finding(line: Seq<char>, fixable: bool, followed: bool) -> Option<
    (Rule, int, int, Option<(int, int)>),
> {
    let lead = run(line, 0, CharClass::Blank) as int;
    let text = line.skip(lead);
    match label(text) {
        None => None,
        Some((rule, n, removable)) => {
            let cut = lead + n + run(text, n, CharClass::Blank);
            let fix = if fixable && removable && (cut < line.len() || followed) {
                Some((byte_at(line, lead) as int, byte_at(line, cut) as int))
            } else {
                None
            };
            Some(
                (
                    rule,
                    byte_at(line, lead) as int,
                    byte_at(line, lead + trim_blank_end(text, n)) as int,
                    fix,
                ),
            )
        },
    }
}

/// The warning that `line_finding` describes, for a line whose first byte
/// is at `base`.
pub open spec fn finding(line: Seq<char>, base: int, fixable: bool, followed: bool) -> Option<
    DiagView,
> {
    match line_finding(line, fixable, followed) {
        Some((rule, s, e, fix)) => Some(
            (
                rule,
                rule.spec_message(),
                base + s,
                base + e,
                Severity::Warning,
                match fix {
                    Some((a, b)) => Some((base + a, base + b)),
                    None => None,
                },
            ),
        ),
        None => None,
    }
}

fn trim_blank_end_at(t: &[char], n: usize) -> (m: usize)
    requires
        n <= t@.len(),
    ensures
        m == trim_blank_end(t@, n as int),
        m <= n,
{
    let mut m = n;
    while m > 0 && (t[m - 1] == ' ' || t[m - 1] == '\t')
        invariant
            m <= n <= t@.len(),
            trim_blank_end(t@, n as int) == trim_blank_end(t@, m as int),
        decreases m,
    {
        m = m - 1;
    }
    m
}

/// The warning for the line `text[lo..hi]`, if it begins with a label.
pub fn line_diagnostic(text: &Text, lo: usize, hi: usize, fixable: bool, followed: bool) -> (r:
    Option<Diagnostic>)
    requires
        text.wf(),
        lo <= hi <= text@.len(),
    ensures
        r is None <==> finding(
            text@.subrange(lo as int, hi as int),
            byte_at(text@, lo as int) as int,
            fixable,
            followed,
        ) is None,
        r matches Some(d) ==> finding(
            text@.subrange(lo as int, hi as int),
            byte_at(text@, lo as int) as int,
            fixable,
            followed,
        ) == Some(d.view()),
        r matches Some(d) ==> {
            &&& byte_at(text@, lo as int) <= d.start <= d.end <= byte_at(text@, hi as int)
            &&& d.fix matches Some((a, b)) ==> a == d.start && a < b <= byte_at(
                text@,
                hi as int,
            )
        },
{
    reveal(line_finding);
    let line = &text.chars.as_slice()[lo..hi];
    let ghost l = text@.subrange(lo as int, hi as int);
    assert(line@ == l);
    let lead = run_len(line, 0, CharClass::Blank);
    let rest = &line[lead..line.len()];
    assert(rest@ =~= l.skip(lead as int));
    match find_label(rest) {
        None => None,
        Some((rule, n, removable)) => {
            let after = run_len(rest, n, CharClass::Blank);
            let cut = lead + n + after;
            let trimmed = trim_blank_end_at(rest, n);
            proof {
                lemma_byte_at_subrange(text@, lo as int, hi as int, lead as int);
                lemma_byte_at_subrange(text@, lo as int, hi as int, cut as int);
                lemma_byte_at_subrange(text@, lo as int, hi as int, (lead + trimmed) as int);
                lemma_byte_at_mono(text@, lo as int, lo + lead);
                lemma_byte_at_mono(text@, lo + lead, lo + lead + trimmed);
                lemma_byte_at_mono(text@, lo + lead + trimmed, hi as int);
                lemma_byte_at_mono(text@, lo + lead, lo + cut);
                lemma_byte_at_mono(text@, lo + cut, hi as int);
            }
            let start = text.byte(lo + lead);
            let end = text.byte(lo + lead + trimmed);
            let fix = if fixable && removable && (cut < line.len() || followed) {
                Some((start, text.byte(lo + cut)))
            } else {
                None
            };
            Some(Diagnostic::warning(rule, start, end, fix))
        },
    }
}

/// Pushes the warning for `line`, whose first byte is at `start` of the
/// source, if the line begins with a label.
pub fn check_line(line: &str, start: usize, diagnostics: &mut Vec<Diagnostic>)
    requires
        fits(line@),
        start + utf8_len(line@) <= usize::MAX,
    ensures
        finding(line@, start as int, true, false) is None ==> final(diagnostics)@ == old(
            diagnostics,
        )@,
        finding(line@, start as int, true, false) is Some ==> {
            &&& final(diagnostics)@.len() == old(diagnostics)@.len() + 1
            &&& final(diagnostics)@.drop_last() == old(diagnostics)@
            &&& finding(line@, start as int, true, false) == Some(final(diagnostics)@.last().view())
        },
{
    let text = Text::new(line);
    let n = text.len();
    proof {
        assert(text@.subrange(0, n as int) =~= line@);
        assert(text@.take(0) =~= Seq::<char>::empty());
    }
    if let Some(d) = line_diagnostic(&text, 0, n, true, false) {
        proof {
            lemma_byte_at_full(text@);
            assert(byte_at(text@, 0) == 0);
            assert(finding(line@, 0, true, false) == Some(d.view()));
        }
        let shifted = match d.fix {
            Some((a, b)) => Some((start + a, start + b)),
            None => None,
        };
        let e = Diagnostic::warning(d.rule, start + d.start, start + d.end, shifted);
        proof {
            reveal(line_finding);
            assert(finding(line@, start as int, true, false) == Some(e.view()));
        }
        diagnostics.push(e);
    }
}

// ---------------------------------------------------------------------------
// Bounds
// ---------------------------------------------------------------------------
proof fn lemma_keyword_len(t: Seq<char>)
    ensures
        keyword_len(t) matches Some(w) ==> 0 <= w <= t.len(),
{
    assert(keyword(0).len() == 4);
    assert(keyword(1).len() == 5);
    assert(keyword(2).len() == 5);
    assert(keyword(3).len() == 4);
    assert(keyword(4).len() == 4);
    assert(keyword(5).len() == 4);
    assert(keyword(6).len() == 4);
    assert(keyword(7).len() == 3);
}

proof fn lemma_keyword_label(t: Seq<char>)
    ensures
        keyword_label(t) matches Some((n, _)) ==> 0 <= n <= t.len(),
{
    lemma_keyword_len(t);
    if let Some(w) = keyword_len(t) {
        lemma_run_bound(t, w, CharClass::Blank);
        let p = w + run(t, w, CharClass::Blank);
        if p < t.len() && is_digit(t[p]) {
            lemma_run_bound(t, p, CharClass::Digit);
        }
        if let Some(q) = keyword_ordinal_end(t, p) {
            lemma_run_bound(t, q, CharClass::Blank);
            let b = run(t, q, CharClass::Blank) as int;
            if q + b < t.len() {
                lemma_run_bound(t, q + b + 1, CharClass::Blank);
            }
        }
    }
}

proof fn lemma_blank_or_end(t: Seq<char>, k: int)
    requires
        0 <= k <= t.len(),
    ensures
        blank_or_end(t, k) matches Some(e) ==> k <= e <= t.len(),
{
    lemma_run_bound(t, k, CharClass::Blank);
}

proof fn lemma_bracketed_label(t: Seq<char>)
    ensures
        bracketed_label(t) matches Some((n, _)) ==> 0 <= n <= t.len(),
{
    if t.len() > 1 {
        lemma_run_bound(t, 1, CharClass::Digit);
        lemma_run_bound(t, 1, CharClass::Kanji);
    }
    if let Some(j) = bracket_inner_end(t) {
        if j < t.len() {
            lemma_blank_or_end(t, j + 1);
        }
    }
}

proof fn lemma_dotted_end(t: Seq<char>, n: int)
    requires
        0 <= n <= t.len(),
    ensures
        n <= dotted_end(t, n) <= t.len(),
    decreases t.len() - n,
{
    if n + 1 < t.len() && t[n] == '.' && is_digit(t[n + 1]) {
        lemma_run_bound(t, n + 1, CharClass::Digit);
        lemma_dotted_end(t, n + 1 + run(t, n + 1, CharClass::Digit));
    }
}

proof fn lemma_ordinal_separator(t: Seq<char>, n: int)
    requires
        0 <= n <= t.len(),
    ensures
        ordinal_separator(t, n) matches Some(s) ==> 0 <= s && n + s <= t.len(),
{
    if n < t.len() {
        lemma_blank_or_end(t, n + 1);
    }
}

proof fn lemma_number_label(t: Seq<char>)
    ensures
        number_label(t) matches Some((m, _)) ==> 0 <= m <= t.len(),
{
    lemma_run_bound(t, 0, CharClass::Digit);
    let d = run(t, 0, CharClass::Digit) as int;
    lemma_dotted_end(t, d);
    let n = dotted_end(t, d);
    lemma_ordinal_separator(t, n);
    lemma_run_bound(t, n, CharClass::Blank);
    let b = run(t, n, CharClass::Blank) as int;
    if n + b < t.len() {
        lemma_run_bound(t, n + b + 1, CharClass::Blank);
    }
}

proof fn lemma_letter_label(t: Seq<char>)
    ensures
        letter_label(t) matches Some((m, _)) ==> 0 <= m <= t.len(),
{
    lemma_run_bound(t, 0, CharClass::Kanji);
    let n = if t.len() > 0 && is_ascii_letter(t[0]) {
        1
    } else {
        run(t, 0, CharClass::Kanji) as int
    };
    lemma_ordinal_separator(t, n);
}

/// A run of `n` characters of class `k` from `i`, ended by the end of the
/// text or by a character outside the class, has length `n`.
pub proof fn lemma_run_exact(t: Seq<char>, i: int, n: int, k: CharClass)
    requires
        0 <= i,
        0 <= n,
        i + n <= t.len(),
        forall|j: int| i <= j < i + n ==> in_class(#[trigger] t[j], k),
        i + n == t.len() || !in_class(t[i + n], k),
    ensures
        run(t, i, k) == n,
    decreases n,
{
    if n > 0 {
        lemma_run_exact(t, i + 1, n - 1, k);
    }
}

/// Of the phase words, `t` begins with `w` (in any case) and with no word
/// tried before it.
proof fn lemma_keyword_len_of(w: Seq<char>, t: Seq<char>)
    requires
        w == seq!['s', 't', 'e', 'p'] || w == seq!['p', 'h', 'a', 's', 'e'] || w == seq![
            's',
            't',
            'a',
            'g',
            'e',
        ] || w == seq!['t', 'a', 's', 'k'] || w == seq!['ス', 'テ', 'ッ', 'プ'] || w == seq![
            'フ',
            'ェ',
            'ー',
            'ズ',
        ] || w == seq!['ス', 'テ', 'ー', 'ジ'] || w == seq!['タ', 'ス', 'ク'],
        w.len() <= t.len(),
        forall|i: int| 0 <= i < w.len() ==> folds_to(#[trigger] t[i], w[i]),
    ensures
        keyword_len(t) == Some(w.len() as int),
{
    let k: int = if w == seq!['s', 't', 'e', 'p'] {
        0
    } else if w == seq!['p', 'h', 'a', 's', 'e'] {
        1
    } else if w == seq!['s', 't', 'a', 'g', 'e'] {
        2
    } else if w == seq!['t', 'a', 's', 'k'] {
        3
    } else if w == seq!['ス', 'テ', 'ッ', 'プ'] {
        4
    } else if w == seq!['フ', 'ェ', 'ー', 'ズ'] {
        5
    } else if w == seq!['ス', 'テ', 'ー', 'ジ'] {
        6
    } else {
        7
    };
    assert(keyword(k) =~= w);
    assert(begins_with_word(t, keyword(k)));
    assert(folds_to(t[0], w[0]));
    assert(folds_to(t[1], w[1]));
    assert(folds_to(t[2], w[2]));
    assert forall|j: int| 0 <= j < k implies !begins_with_word(t, #[trigger] keyword(j)) by {
        let kw = keyword(j);
        if k == 2 && j == 0 {
            assert(!folds_to(t[2], kw[2]));
        } else if k == 6 && j == 4 {
            assert(!folds_to(t[2], kw[2]));
        } else {
            assert(!folds_to(t[0], kw[0]));
        }
    }
}

/// A phase word (step, phase, stage, task, ステップ, フェーズ, ステージ,
/// タスク, the Latin ones in any case), a blank, digits and `:` begin a
/// phase label that covers all of them and whose removal leaves a sentence.
pub proof fn lemma_phase_word_label(w: Seq<char>, t: Seq<char>, d: int)
    requires
        w == seq!['s', 't', 'e', 'p'] || w == seq!['p', 'h', 'a', 's', 'e'] || w == seq![
            's',
            't',
            'a',
            'g',
            'e',
        ] || w == seq!['t', 'a', 's', 'k'] || w == seq!['ス', 'テ', 'ッ', 'プ'] || w == seq![
            'フ',
            'ェ',
            'ー',
            'ズ',
        ] || w == seq!['ス', 'テ', 'ー', 'ジ'] || w == seq!['タ', 'ス', 'ク'],
        d > 0,
        w.len() + 1 + d < t.len(),
        forall|i: int| 0 <= i < w.len() ==> folds_to(#[trigger] t[i], w[i]),
        t[w.len() as int] == ' ',
        forall|j: int| w.len() + 1 <= j < w.len() + 1 + d ==> is_digit(#[trigger] t[j]),
        t[w.len() + 1 + d] == ':',
    ensures
        label(t) == Some((Rule::KeywordPrefix, w.len() + 2 + d, true)),
{
    reveal(label);
    lemma_keyword_len_of(w, t);
    let n = w.len() as int;
    assert(is_digit(t[n + 1]));
    lemma_run_exact(t, n, 1, CharClass::Blank);
    lemma_run_exact(t, n + 1, d, CharClass::Digit);
    assert(keyword_ordinal_end(t, n + 1) == Some(n + 1 + d));
    assert(is_close_mark(t[n + 1 + d]));
    assert(keyword_separator(t, n + 1 + d) == Some((1int, true)));
}

/// No phase word begins with a digit or a bracket.
proof fn lemma_no_keyword(t: Seq<char>)
    requires
        t.len() > 0,
        is_digit(t[0]) || t[0] == '(' || t[0] == '[',
    ensures
        keyword_len(t) is None,
{
    assert forall|j: int| 0 <= j < 8 implies !begins_with_word(t, #[trigger] keyword(j)) by {
        let kw = keyword(j);
        assert(kw.len() > 0);
        assert(!folds_to(t[0], kw[0]));
    }
}

/// Digits, then `.`, `)` or `:`, then blanks (up to the end or a character
/// that is not blank) begin a numbered label that covers them all and whose
/// removal leaves a sentence.
pub proof fn lemma_number_label_form(t: Seq<char>, d: int, b: int)
    requires
        d > 0,
        b > 0,
        d + 1 + b <= t.len(),
        forall|j: int| 0 <= j < d ==> is_digit(#[trigger] t[j]),
        t[d] == '.' || t[d] == ')' || t[d] == ':',
        forall|j: int| d + 1 <= j < d + 1 + b ==> is_blank(#[trigger] t[j]),
        d + 1 + b == t.len() || !is_blank(t[d + 1 + b]),
    ensures
        label(t) == Some((Rule::Prefix, d + 1 + b, true)),
{
    reveal(label);
    lemma_no_keyword(t);
    lemma_run_exact(t, 0, d, CharClass::Digit);
    lemma_run_exact(t, d + 1, b, CharClass::Blank);
    assert(is_blank(t[d + 1]));
    assert(dotted_end(t, d) == d);
    assert(blank_or_end(t, d + 1) == Some(d + 1 + b));
    assert(ordinal_separator(t, d) == Some(1 + b));
    assert(number_separator(t, d) == Some((1 + b, false)));
    assert(number_label(t) == Some((d + 1 + b, true)));
}

/// `(` or `[`, digits, the matching `)` or `]`, then blanks (up to the end or
/// a character that is not blank) begin a bracketed label that covers them
/// all and whose removal leaves a sentence.
pub proof fn lemma_bracketed_label_form(t: Seq<char>, d: int, b: int)
    requires
        d > 0,
        b > 0,
        d + 2 + b <= t.len(),
        t[0] == '(' && t[d + 1] == ')' || t[0] == '[' && t[d + 1] == ']',
        forall|j: int| 1 <= j < d + 1 ==> is_digit(#[trigger] t[j]),
        forall|j: int| d + 2 <= j < d + 2 + b ==> is_blank(#[trigger] t[j]),
        d + 2 + b == t.len() || !is_blank(t[d + 2 + b]),
    ensures
        label(t) == Some((Rule::Prefix, d + 2 + b, true)),
{
    reveal(label);
    lemma_no_keyword(t);
    assert(is_digit(t[1]));
    lemma_run_exact(t, 1, d, CharClass::Digit);
    lemma_run_exact(t, d + 2, b, CharClass::Blank);
    assert(is_blank(t[d + 2]));
    assert(bracket_inner_end(t) == Some(d + 1));
    assert(blank_or_end(t, d + 2) == Some(d + 2 + b));
}

/// One ASCII letter, then `.`, `)` or `:`, then blanks (up to the end or a
/// character that is not blank) begin a lettered label that covers them all
/// and whose removal leaves a sentence.
pub proof fn lemma_letter_label_form(t: Seq<char>, b: int)
    requires
        b > 0,
        2 + b <= t.len(),
        is_ascii_letter(t[0]),
        t[1] == '.' || t[1] == ')' || t[1] == ':',
        forall|j: int| 2 <= j < 2 + b ==> is_blank(#[trigger] t[j]),
        2 + b == t.len() || !is_blank(t[2 + b]),
    ensures
        label(t) == Some((Rule::Prefix, 2 + b, true)),
{
    reveal(label);
    assert forall|j: int| 0 <= j < 8 implies !begins_with_word(t, #[trigger] keyword(j)) by {
        let kw = keyword(j);
        assert(kw.len() > 1);
        assert(!folds_to(t[1], kw[1]));
    }
    lemma_run_exact(t, 0, 0, CharClass::Digit);
    lemma_run_exact(t, 2, b, CharClass::Blank);
    assert(is_blank(t[2]));
    assert(blank_or_end(t, 2) == Some(2 + b));
    assert(ordinal_separator(t, 1) == Some(1 + b));
}

/// A label lies within the text it begins.
pub proof fn lemma_label_bound(t: Seq<char>)
    ensures
        label(t) matches Some((_, n, _)) ==> 0 <= n <= t.len(),
{
    reveal(label);
    lemma_keyword_label(t);
    lemma_bracketed_label(t);
    lemma_number_label(t);
    lemma_letter_label(t);
    if t.len() > 0 {
        lemma_blank_or_end(t, 1);
    }
}

/// The removal that a line offers lies within the line, between two of its
/// character boundaries, and is offered only where edits are allowed.
pub proof fn lemma_line_finding_fix(line: Seq<char>, fixable: bool, followed: bool)
    ensures
        line_finding(line, fixable, followed) matches Some((_, _, _, Some((p, q)))) ==> {
            &&& fixable
            &&& exists|lo: int, hi: int|
                0 <= lo <= hi <= line.len() && p == byte_at(line, lo) && q == byte_at(line, hi)
        },
{
    reveal(line_finding);
    lemma_run_bound(line, 0, CharClass::Blank);
    let lead = run(line, 0, CharClass::Blank) as int;
    let text = line.skip(lead);
    lemma_label_bound(text);
    if let Some((rule, n, removable)) = label(text) {
        lemma_run_bound(text, n, CharClass::Blank);
        let cut = lead + n + run(text, n, CharClass::Blank);
        if fixable && removable && (cut < line.len() || followed) {
            assert(0 <= lead <= cut <= line.len());
            assert(line_finding(line, fixable, followed) matches Some((_, _, _, Some((p, q))))
                && p == byte_at(line, lead) && q == byte_at(line, cut));
        }
    }
}

} // verus!
