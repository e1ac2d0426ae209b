//! Calibration values: the first and the last digit of each line, read as a
//! two-digit number and summed over all lines.  The second reading also
//! counts digits spelled out in English ("zero" to "nine").
use vstd::prelude::*;
use crate::text::{is_digit, digit_value, is_digit_byte, is_continuation};

verus! {

// ---------------------------------------------------------------------------
// Digits written as digits
// ---------------------------------------------------------------------------

/// The first digit of `s`, if it has one.
pub open spec fn first_digit(s: Seq<u8>) -> Option<int>
    decreases s.len(),
{
    if s.len() == 0 {
        None
    } else {
        match first_digit(s.drop_last()) {
            Some(d) => Some(d),
            None => if is_digit(s.last()) { Some(digit_value(s.last())) } else { None },
        }
    }
}

/// The last digit of `s`, if it has one.
pub open spec fn last_digit(s: Seq<u8>) -> Option<int>
    decreases s.len(),
{
    if s.len() == 0 {
        None
    } else if is_digit(s.last()) {
        Some(digit_value(s.last()))
    } else {
        last_digit(s.drop_last())
    }
}

/// The calibration value of one line: its first and last digit read as a
/// two-digit number, or 0 when the line holds no digit.
pub open spec fn line_value(s: Seq<u8>) -> int {
    match (first_digit(s), last_digit(s)) {
        (Some(f), Some(l)) => 10 * f + l,
        _ => 0,
    }
}

/// Sum of the calibration values of all lines.
pub open spec fn calibration_total(lines: Seq<Seq<u8>>) -> int
    decreases lines.len(),
{
    if lines.len() == 0 {
        0
    } else {
        calibration_total(lines.drop_last()) + line_value(lines.last())
    }
}

proof fn lemma_digit_bounds(s: Seq<u8>)
    ensures
        first_digit(s) matches Some(d) ==> 0 <= d <= 9,
        last_digit(s) matches Some(d) ==> 0 <= d <= 9,
        first_digit(s) is Some <==> last_digit(s) is Some,
        0 <= line_value(s) <= 99,
    decreases s.len(),
{
    if s.len() > 0 {
        lemma_digit_bounds(s.drop_last());
    }
}

proof fn lemma_calibration_total_prefix(lines: Seq<Seq<u8>>, j: int)
    requires
        0 <= j <= lines.len(),
    ensures
        0 <= calibration_total(lines.take(j)) <= calibration_total(lines),
    decreases lines.len(),
{
    if lines.len() > 0 {
        lemma_digit_bounds(lines.last());
        if j == lines.len() {
            assert(lines.take(j) =~= lines);
            lemma_calibration_total_prefix(lines.drop_last(), j - 1);
            assert(lines.drop_last().take(j - 1) =~= lines.take(j).drop_last());
        } else {
            lemma_calibration_total_prefix(lines.drop_last(), j);
            assert(lines.drop_last().take(j) =~= lines.take(j));
        }
    }
}

/// Calibration value of one line (digits only).
fn digits_value(line: &Vec<u8>) -> (v: i32)
    ensures
        v == line_value(line@),
{
    let mut first: Option<u8> = None;
    let mut last: Option<u8> = None;
    let mut i: usize = 0;
    while i < line.len()
        invariant
            i <= line.len(),
            match first {
                Some(f) => first_digit(line@.take(i as int)) == Some(digit_value(f)) && is_digit(f),
                None => first_digit(line@.take(i as int)) is None,
            },
            match last {
                Some(l) => last_digit(line@.take(i as int)) == Some(digit_value(l)) && is_digit(l),
                None => last_digit(line@.take(i as int)) is None,
            },
        decreases line.len() - i,
    {
        let c = line[i];
        assert(line@.take(i + 1).drop_last() =~= line@.take(i as int));
        if is_digit_byte(c) {
            if first.is_none() {
                first = Some(c);
            }
            last = Some(c);
        }
        i += 1;
    }
    assert(line@.take(i as int) =~= line@);
    match (first, last) {
        (Some(f), Some(l)) => 10 * ((f - ('0' as u8)) as i32) + ((l - ('0' as u8)) as i32),
        _ => {
            proof {
                lemma_digit_bounds(line@);
            }
            0
        },
    }
}

/// Sum of the calibration values of all lines, reading digits only.
pub fn a(lines: &Vec<Vec<u8>>) -> (total: i32)
    requires
        calibration_total(lines.deep_view()) <= i32::MAX,
    ensures
        total == calibration_total(lines.deep_view()),
{
    let ghost all = lines.deep_view();
    let mut acc: i32 = 0;
    let mut j: usize = 0;
    while j < lines.len()
        invariant
            j <= lines.len(),
            all == lines.deep_view(),
            calibration_total(all) <= i32::MAX,
            acc == calibration_total(all.take(j as int)),
        decreases lines.len() - j,
    {
        let v = digits_value(&lines[j]);
        proof {
            assert(all.take(j + 1).drop_last() =~= all.take(j as int));
            assert(all[j as int] == lines[j as int]@);
            lemma_calibration_total_prefix(all, j + 1);
        }
        acc = acc + v;
        j += 1;
    }
    assert(all.take(j as int) =~= all);
    acc
}


/// The digits-only total of the lines fits in an `i32`.
pub fn calibration_fits(lines: &Vec<Vec<u8>>) -> (r: bool)
    ensures
        r == (calibration_total(lines.deep_view()) <= i32::MAX),
{
    let ghost all = lines.deep_view();
    let mut acc: u64 = 0;
    let mut j: usize = 0;
    while j < lines.len()
        invariant
            j <= lines.len(),
            all == lines.deep_view(),
            acc == calibration_total(all.take(j as int)),
            acc <= i32::MAX,
        decreases lines.len() - j,
    {
        let v = digits_value(&lines[j]);
        proof {
            assert(all.take(j + 1).drop_last() =~= all.take(j as int));
            assert(all[j as int] == lines[j as int]@);
            lemma_digit_bounds(lines[j as int]@);
        }
        acc = acc + v as u64;
        if acc > 0x7fff_ffff {
            proof {
                lemma_calibration_total_prefix(all, j + 1);
            }
            return false;
        }
        j += 1;
    }
    assert(all.take(j as int) =~= all);
    true
}

// ---------------------------------------------------------------------------
// Digits written as digits or spelled out
// ---------------------------------------------------------------------------

/// The English word for the digit `k` (for `k` from 0 to 9).
pub open spec fn digit_word(k: int) -> Seq<u8> {
    if k == 0 {
        seq!['z' as u8, 'e' as u8, 'r' as u8, 'o' as u8]
    } else if k == 1 {
        seq!['o' as u8, 'n' as u8, 'e' as u8]
    } else if k == 2 {
        seq!['t' as u8, 'w' as u8, 'o' as u8]
    } else if k == 3 {
        seq!['t' as u8, 'h' as u8, 'r' as u8, 'e' as u8, 'e' as u8]
    } else if k == 4 {
        seq!['f' as u8, 'o' as u8, 'u' as u8, 'r' as u8]
    } else if k == 5 {
        seq!['f' as u8, 'i' as u8, 'v' as u8, 'e' as u8]
    } else if k == 6 {
        seq!['s' as u8, 'i' as u8, 'x' as u8]
    } else if k == 7 {
        seq!['s' as u8, 'e' as u8, 'v' as u8, 'e' as u8, 'n' as u8]
    } else if k == 8 {
        seq!['e' as u8, 'i' as u8, 'g' as u8, 'h' as u8, 't' as u8]
    } else {
        seq!['n' as u8, 'i' as u8, 'n' as u8, 'e' as u8]
    }
}
/// The word for digit `k` ends at position `p` of `s`.
pub open spec fn word_ends_at(s: Seq<u8>, p: int, k: int) -> bool {
    &&& 0 <= k < 10
    &&& 0 <= p < s.len()
    &&& digit_word(k).len() <= p + 1
    &&& s.subrange(p + 1 - digit_word(k).len(), p + 1) == digit_word(k)
}

/// The least digit `k >= from` whose word ends at position `p` of `s`.
pub open spec fn word_ending_at(s: Seq<u8>, p: int, from: int) -> Option<int>
    decreases 10 - from,
{
    if from >= 10 {
        None
    } else if word_ends_at(s, p, from) {
        Some(from)
    } else {
        word_ending_at(s, p, from + 1)
    }
}

/// The digit read at position `p` of `s`: a digit character there, or a
/// digit word that ends there.
pub open spec fn token_at(s: Seq<u8>, p: int) -> Option<int> {
    if is_digit(s[p]) {
        Some(digit_value(s[p]))
    } else {
        word_ending_at(s, p, 0)
    }
}

/// The first digit read among the positions before `n`.
pub open spec fn first_token(s: Seq<u8>, n: int) -> Option<int>
    decreases n,
{
    if n <= 0 {
        None
    } else {
        match first_token(s, n - 1) {
            Some(d) => Some(d),
            None => token_at(s, n - 1),
        }
    }
}

/// The last digit read among the positions before `n`.
pub open spec fn last_token(s: Seq<u8>, n: int) -> Option<int>
    decreases n,
{
    if n <= 0 {
        None
    } else {
        match token_at(s, n - 1) {
            Some(d) => Some(d),
            None => last_token(s, n - 1),
        }
    }
}

/// The calibration value of a line when spelled digits count as digits.
pub open spec fn spelled_line_value(s: Seq<u8>) -> int {
    match (first_token(s, s.len() as int), last_token(s, s.len() as int)) {
        (Some(f), Some(l)) => 10 * f + l,
        _ => 0,
    }
}

/// Sum of the spelled calibration values of all lines.
pub open spec fn spelled_total(lines: Seq<Seq<u8>>) -> int
    decreases lines.len(),
{
    if lines.len() == 0 {
        0
    } else {
        spelled_total(lines.drop_last()) + spelled_line_value(lines.last())
    }
}

/// The least digit `k >= from` whose word is exactly `s[lo..=hi]`.
pub open spec fn span_word(s: Seq<u8>, lo: int, hi: int, from: int) -> Option<int>
    decreases 10 - from,
{
    if from >= 10 {
        None
    } else if s.subrange(lo, hi + 1) == digit_word(from) {
        Some(from)
    } else {
        span_word(s, lo, hi, from + 1)
    }
}

/// The digit held, as an integer.
pub open spec fn as_int(o: Option<u32>) -> Option<int> {
    match o {
        Some(d) => Some(d as int),
        None => None,
    }
}

proof fn lemma_word_shape(k: int)
    requires
        0 <= k < 10,
    ensures
        3 <= digit_word(k).len() <= 5,
        forall|j: int| 0 <= j < digit_word(k).len() ==> !is_digit(#[trigger] digit_word(k)[j]),
{
}

/// No digit word is a proper tail of another, and distinct digits have
/// distinct words.
proof fn lemma_word_tails(k1: int, k2: int)
    requires
        0 <= k1 < 10,
        0 <= k2 < 10,
        k1 != k2,
        digit_word(k2).len() <= digit_word(k1).len(),
    ensures
        digit_word(k1).subrange(
            digit_word(k1).len() - digit_word(k2).len(),
            digit_word(k1).len() as int,
        ) != digit_word(k2),
{
    let w1 = digit_word(k1);
    let w2 = digit_word(k2);
    let o = w1.len() - w2.len();
    if w1.subrange(o, w1.len() as int) == w2 {
        assert(w1[o] == w2[0]);
        assert(w1[o + 1] == w2[1]);
        assert(w1[o + 2] == w2[2]);
    }
}

/// No digit word sits strictly inside another one.
proof fn lemma_word_interior(k1: int, k2: int, o: int)
    requires
        0 <= k1 < 10,
        0 <= k2 < 10,
        0 < o,
        o + digit_word(k2).len() < digit_word(k1).len(),
    ensures
        digit_word(k1).subrange(o, o + digit_word(k2).len()) != digit_word(k2),
{
    let w1 = digit_word(k1);
    let w2 = digit_word(k2);
    if w1.subrange(o, o + w2.len()) == w2 {
        assert(w1[o] == w2[0]);
        assert(w1[o + 1] == w2[1]);
        assert(w1[o + 2] == w2[2]);
    }
}

/// At most one digit word ends at a position.
proof fn lemma_word_unique(s: Seq<u8>, p: int, k1: int, k2: int)
    requires
        word_ends_at(s, p, k1),
        word_ends_at(s, p, k2),
    ensures
        k1 == k2,
{
    if k1 != k2 {
        let w1 = digit_word(k1);
        let w2 = digit_word(k2);
        if w2.len() <= w1.len() {
            lemma_word_tails(k1, k2);
            assert(w1.subrange(w1.len() - w2.len(), w1.len() as int) =~= s.subrange(
                p + 1 - w2.len(),
                p + 1,
            ));
        } else {
            lemma_word_tails(k2, k1);
            assert(w2.subrange(w2.len() - w1.len(), w2.len() as int) =~= s.subrange(
                p + 1 - w1.len(),
                p + 1,
            ));
        }
    }
}

/// A word ending at `p` that starts before the start of a word ending at
/// `i < p` would hold that word strictly inside it.
proof fn lemma_word_no_overlap(s: Seq<u8>, i: int, k: int, p: int, k2: int)
    requires
        word_ends_at(s, i, k),
        word_ends_at(s, p, k2),
        i < p,
    ensures
        p + 1 - digit_word(k2).len() >= i + 1 - digit_word(k).len(),
{
    let w = digit_word(k);
    let w2 = digit_word(k2);
    let q = i + 1 - w.len();
    let q2 = p + 1 - w2.len();
    if q2 < q {
        lemma_word_interior(k2, k, q - q2);
        assert(w2.subrange(q - q2, q - q2 + w.len()) =~= s.subrange(q, i + 1));
    }
}

/// A word that ends at `p` contains no digit, so it cannot cover a digit.
proof fn lemma_word_avoids_digit(s: Seq<u8>, p: int, k: int, d: int)
    requires
        word_ends_at(s, p, k),
        p + 1 - digit_word(k).len() <= d <= p,
    ensures
        !is_digit(s[d]),
{
    lemma_word_shape(k);
    let q = p + 1 - digit_word(k).len();
    assert(s.subrange(q, p + 1)[d - q] == s[d]);
}

proof fn lemma_word_ending_at(s: Seq<u8>, p: int, from: int, k: int)
    requires
        0 <= from <= k,
        word_ends_at(s, p, k),
    ensures
        word_ending_at(s, p, from) == Some(k),
    decreases k - from,
{
    if from < k {
        if word_ends_at(s, p, from) {
            lemma_word_unique(s, p, from, k);
        }
        lemma_word_ending_at(s, p, from + 1, k);
    }
}

proof fn lemma_word_ending_at_some(s: Seq<u8>, p: int, from: int)
    requires
        0 <= from,
    ensures
        word_ending_at(s, p, from) matches Some(k) ==> from <= k < 10 && word_ends_at(s, p, k),
    decreases 10 - from,
{
    if from < 10 {
        lemma_word_ending_at_some(s, p, from + 1);
    }
}

proof fn lemma_span_word(s: Seq<u8>, lo: int, hi: int, from: int)
    requires
        0 <= from,
        0 <= lo <= hi < s.len(),
    ensures
        span_word(s, lo, hi, from) matches Some(k) ==> from <= k < 10 && word_ends_at(s, hi, k)
            && lo == hi + 1 - digit_word(k).len(),
    decreases 10 - from,
{
    if from < 10 {
        lemma_span_word(s, lo, hi, from + 1);
    }
}

proof fn lemma_span_word_found(s: Seq<u8>, hi: int, from: int, k: int)
    requires
        0 <= from <= k,
        word_ends_at(s, hi, k),
    ensures
        span_word(s, hi + 1 - digit_word(k).len(), hi, from) == Some(k),
    decreases k - from,
{
    if from < k {
        let lo = hi + 1 - digit_word(k).len();
        if s.subrange(lo, hi + 1) == digit_word(from) {
            // two different digits with the same word
            lemma_word_shape(from);
            if digit_word(from).len() <= digit_word(k).len() {
                lemma_word_tails(k, from);
                assert(digit_word(k).subrange(0, digit_word(k).len() as int) =~= digit_word(k));
            } else {
                lemma_word_tails(from, k);
                assert(digit_word(from).subrange(0, digit_word(from).len() as int) =~= digit_word(from));
            }
        }
        lemma_span_word_found(s, hi, from + 1, k);
    }
}

fn digit_word_bytes(k: usize) -> (w: Vec<u8>)
    requires
        k < 10,
    ensures
        w@ == digit_word(k as int),
{
    if k == 0 {
        let w = vec!['z' as u8, 'e' as u8, 'r' as u8, 'o' as u8];
        assert(w@ =~= digit_word(k as int));
        w
    } else if k == 1 {
        let w = vec!['o' as u8, 'n' as u8, 'e' as u8];
        assert(w@ =~= digit_word(k as int));
        w
    } else if k == 2 {
        let w = vec!['t' as u8, 'w' as u8, 'o' as u8];
        assert(w@ =~= digit_word(k as int));
        w
    } else if k == 3 {
        let w = vec!['t' as u8, 'h' as u8, 'r' as u8, 'e' as u8, 'e' as u8];
        assert(w@ =~= digit_word(k as int));
        w
    } else if k == 4 {
        let w = vec!['f' as u8, 'o' as u8, 'u' as u8, 'r' as u8];
        assert(w@ =~= digit_word(k as int));
        w
    } else if k == 5 {
        let w = vec!['f' as u8, 'i' as u8, 'v' as u8, 'e' as u8];
        assert(w@ =~= digit_word(k as int));
        w
    } else if k == 6 {
        let w = vec!['s' as u8, 'i' as u8, 'x' as u8];
        assert(w@ =~= digit_word(k as int));
        w
    } else if k == 7 {
        let w = vec!['s' as u8, 'e' as u8, 'v' as u8, 'e' as u8, 'n' as u8];
        assert(w@ =~= digit_word(k as int));
        w
    } else if k == 8 {
        let w = vec!['e' as u8, 'i' as u8, 'g' as u8, 'h' as u8, 't' as u8];
        assert(w@ =~= digit_word(k as int));
        w
    } else {
        let w = vec!['n' as u8, 'i' as u8, 'n' as u8, 'e' as u8];
        assert(w@ =~= digit_word(k as int));
        w
    }
}

/// `line[lo..=hi]` is exactly the word `w`.
fn span_equals(line: &Vec<u8>, lo: usize, hi: usize, w: &Vec<u8>) -> (r: bool)
    requires
        lo <= hi < line.len(),
    ensures
        r == (line@.subrange(lo as int, hi + 1) == w@),
{
    if hi + 1 - lo != w.len() {
        return false;
    }
    let mut j: usize = 0;
    while j < w.len()
        invariant
            hi + 1 - lo == w.len(),
            hi < line.len(),
            j <= w.len(),
            forall|t: int| 0 <= t < j ==> line@[lo + t] == w@[t],
        decreases w.len() - j,
    {
        if line[lo + j] != w[j] {
            assert(line@.subrange(lo as int, hi + 1)[j as int] != w@[j as int]);
            return false;
        }
        j += 1;
    }
    assert(line@.subrange(lo as int, hi + 1) =~= w@);
    true
}

/// The digit whose word is exactly `line[lo..=hi]`, if any.
fn spelled_digit(line: &Vec<u8>, lo: usize, hi: usize) -> (r: Option<u32>)
    requires
        lo <= hi < line.len(),
    ensures
        as_int(r) == span_word(line@, lo as int, hi as int, 0),
{
    let mut k: usize = 0;
    while k < 10
        invariant
            k <= 10,
            lo <= hi < line.len(),
            span_word(line@, lo as int, hi as int, 0) == span_word(line@, lo as int, hi as int, k as int),
        decreases 10 - k,
    {
        let w = digit_word_bytes(k);
        if span_equals(line, lo, hi, &w) {
            return Some(k as u32);
        }
        k += 1;
    }
    None
}

/// Calibration value of one line, spelled digits included.
fn spelled_value(line: &Vec<u8>) -> (v: i32)
    ensures
        v == spelled_line_value(line@),
{
    let ghost s = line@;
    let n = line.len();
    let mut first: Option<u32> = None;
    let mut last: Option<u32> = None;
    let mut start: usize = 0;
    let mut i: usize = 0;
    while i < n
        invariant
            n == line.len(),
            s == line@,
            start <= i <= n,
            as_int(first) == first_token(s, i as int),
            as_int(last) == last_token(s, i as int),
            first matches Some(d) ==> d <= 9,
            last matches Some(d) ==> d <= 9,
            forall|p: int, k: int|
                i <= p < n && #[trigger] word_ends_at(s, p, k) ==> p + 1 - digit_word(k).len()
                    >= start,
        decreases n - i,
    {
        let end = i;
        let c = line[i];
        if is_digit_byte(c) {
            let d = (c - ('0' as u8)) as u32;
            start = i + 1;
            if first.is_none() {
                first = Some(d);
            }
            last = Some(d);
            proof {
                assert forall|p: int, k: int|
                    i + 1 <= p < n && #[trigger] word_ends_at(s, p, k) implies p + 1
                    - digit_word(k).len() >= i + 1 by {
                    if p + 1 - digit_word(k).len() <= i {
                        lemma_word_avoids_digit(s, p, k, i as int);
                    }
                }
            }
        } else {
            let ghost tok = word_ending_at(s, i as int, 0);
            let ghost first0 = first;
            let ghost last0 = last;
            proof {
                lemma_word_ending_at_some(s, i as int, 0);
                if let Some(k) = tok {
                    lemma_word_shape(k);
                }
            }
            let mut save_start = start;
            let mut ii = start;
            while ii < end
                invariant
                    n == line.len(),
                    s == line@,
                    end == i,
                    i < n,
                    start <= ii <= end,
                    tok == word_ending_at(s, i as int, 0),
                    tok matches Some(k) ==> word_ends_at(s, i as int, k) && 3 <= digit_word(k).len()
                        && i + 1 - digit_word(k).len() >= start,
                    first0 matches Some(d) ==> d <= 9,
                    match tok {
                        Some(k) => if i + 1 - digit_word(k).len() < ii {
                            &&& as_int(first) == (match first0 {
                                Some(d) => Some(d as int),
                                None => Some(k),
                            })
                            &&& as_int(last) == Some(k)
                            &&& save_start == i + 1 - digit_word(k).len()
                            &&& first matches Some(d) ==> d <= 9
                            &&& last matches Some(d) ==> d <= 9
                        } else {
                            first == first0 && last == last0 && save_start == start
                        },
                        None => first == first0 && last == last0 && save_start == start,
                    },
                decreases end - ii,
            {
                let found = spelled_digit(line, ii, end);
                proof {
                    lemma_span_word(s, ii as int, end as int, 0);
                    if let Some(k) = tok {
                        if ii == i + 1 - digit_word(k).len() {
                            lemma_span_word_found(s, end as int, 0, k);
                        }
                    }
                    if let Some(k2) = found {
                        lemma_word_ending_at(s, i as int, 0, k2 as int);
                    }
                }
                if let Some(digit) = found {
                    if first.is_none() {
                        first = Some(digit);
                    }
                    last = Some(digit);
                    save_start = ii;
                }
                ii += 1;
            }
            start = save_start;
            proof {
                assert forall|p: int, k: int|
                    i + 1 <= p < n && #[trigger] word_ends_at(s, p, k) implies p + 1
                    - digit_word(k).len() >= start by {
                    if let Some(k0) = tok {
                        lemma_word_no_overlap(s, i as int, k0, p, k);
                    }
                }
                if tok is None {
                    assert(token_at(s, i as int) is None);
                }
            }
        }
        i += 1;
    }
    match (first, last) {
        (Some(f), Some(l)) => 10 * (f as i32) + (l as i32),
        _ => 0,
    }
}

/// No digit word ("zero" to "nine") occurs anywhere in `s`.
pub open spec fn has_no_digit_word(s: Seq<u8>) -> bool {
    forall|p: int, k: int| !word_ends_at(s, p, k)
}

proof fn lemma_no_word_ends(s: Seq<u8>, p: int, from: int)
    requires
        has_no_digit_word(s),
    ensures
        word_ending_at(s, p, from) is None,
    decreases 10 - from,
{
    if from < 10 {
        assert(!word_ends_at(s, p, from));
        lemma_no_word_ends(s, p, from + 1);
    }
}

proof fn lemma_plain_tokens(s: Seq<u8>, n: int)
    requires
        0 <= n <= s.len(),
        has_no_digit_word(s),
    ensures
        first_token(s, n) == first_digit(s.take(n)),
        last_token(s, n) == last_digit(s.take(n)),
    decreases n,
{
    if n > 0 {
        lemma_plain_tokens(s, n - 1);
        assert(s.take(n).drop_last() =~= s.take(n - 1));
        assert(s.take(n).last() == s[n - 1]);
        lemma_no_word_ends(s, n - 1, 0);
    } else {
        assert(s.take(n) =~= Seq::<u8>::empty());
    }
}

/// The bytes `w` end at position `p` of `s`.
pub open spec fn ends_with_at(s: Seq<u8>, p: int, w: Seq<u8>) -> bool {
    &&& 0 <= p < s.len()
    &&& w.len() <= p + 1
    &&& s.subrange(p + 1 - w.len(), p + 1) == w
}

proof fn lemma_name_read(s: Seq<u8>, p: int, k: int)
    requires
        word_ends_at(s, p, k),
    ensures
        token_at(s, p) == Some(k),
{
    lemma_word_shape(k);
    let w = digit_word(k);
    assert(s.subrange(p + 1 - w.len(), p + 1)[w.len() - 1] == s[p]);
    lemma_word_ending_at(s, p, 0, k);
}

/// Wherever the English name of a digit ends in a line, the spelled reading
/// reads that digit there: "zero" gives 0, "one" 1, and so on to "nine",
/// which gives 9.
pub proof fn law_digit_names_read(s: Seq<u8>, p: int)
    ensures
        ends_with_at(s, p, seq!['z' as u8, 'e' as u8, 'r' as u8, 'o' as u8]) ==> token_at(s, p) == Some(0int),
        ends_with_at(s, p, seq!['o' as u8, 'n' as u8, 'e' as u8]) ==> token_at(s, p) == Some(1int),
        ends_with_at(s, p, seq!['t' as u8, 'w' as u8, 'o' as u8]) ==> token_at(s, p) == Some(2int),
        ends_with_at(s, p, seq!['t' as u8, 'h' as u8, 'r' as u8, 'e' as u8, 'e' as u8]) ==> token_at(s, p) == Some(3int),
        ends_with_at(s, p, seq!['f' as u8, 'o' as u8, 'u' as u8, 'r' as u8]) ==> token_at(s, p) == Some(4int),
        ends_with_at(s, p, seq!['f' as u8, 'i' as u8, 'v' as u8, 'e' as u8]) ==> token_at(s, p) == Some(5int),
        ends_with_at(s, p, seq!['s' as u8, 'i' as u8, 'x' as u8]) ==> token_at(s, p) == Some(6int),
        ends_with_at(s, p, seq!['s' as u8, 'e' as u8, 'v' as u8, 'e' as u8, 'n' as u8]) ==> token_at(s, p) == Some(7int),
        ends_with_at(s, p, seq!['e' as u8, 'i' as u8, 'g' as u8, 'h' as u8, 't' as u8]) ==> token_at(s, p) == Some(8int),
        ends_with_at(s, p, seq!['n' as u8, 'i' as u8, 'n' as u8, 'e' as u8]) ==> token_at(s, p) == Some(9int),
{
    if ends_with_at(s, p, seq!['z' as u8, 'e' as u8, 'r' as u8, 'o' as u8]) {
        assert(digit_word(0) =~= seq!['z' as u8, 'e' as u8, 'r' as u8, 'o' as u8]);
        lemma_name_read(s, p, 0);
    }
    if ends_with_at(s, p, seq!['o' as u8, 'n' as u8, 'e' as u8]) {
        assert(digit_word(1) =~= seq!['o' as u8, 'n' as u8, 'e' as u8]);
        lemma_name_read(s, p, 1);
    }
    if ends_with_at(s, p, seq!['t' as u8, 'w' as u8, 'o' as u8]) {
        assert(digit_word(2) =~= seq!['t' as u8, 'w' as u8, 'o' as u8]);
        lemma_name_read(s, p, 2);
    }
    if ends_with_at(s, p, seq!['t' as u8, 'h' as u8, 'r' as u8, 'e' as u8, 'e' as u8]) {
        assert(digit_word(3) =~= seq!['t' as u8, 'h' as u8, 'r' as u8, 'e' as u8, 'e' as u8]);
        lemma_name_read(s, p, 3);
    }
    if ends_with_at(s, p, seq!['f' as u8, 'o' as u8, 'u' as u8, 'r' as u8]) {
        assert(digit_word(4) =~= seq!['f' as u8, 'o' as u8, 'u' as u8, 'r' as u8]);
        lemma_name_read(s, p, 4);
    }
    if ends_with_at(s, p, seq!['f' as u8, 'i' as u8, 'v' as u8, 'e' as u8]) {
        assert(digit_word(5) =~= seq!['f' as u8, 'i' as u8, 'v' as u8, 'e' as u8]);
        lemma_name_read(s, p, 5);
    }
    if ends_with_at(s, p, seq!['s' as u8, 'i' as u8, 'x' as u8]) {
        assert(digit_word(6) =~= seq!['s' as u8, 'i' as u8, 'x' as u8]);
        lemma_name_read(s, p, 6);
    }
    if ends_with_at(s, p, seq!['s' as u8, 'e' as u8, 'v' as u8, 'e' as u8, 'n' as u8]) {
        assert(digit_word(7) =~= seq!['s' as u8, 'e' as u8, 'v' as u8, 'e' as u8, 'n' as u8]);
        lemma_name_read(s, p, 7);
    }
    if ends_with_at(s, p, seq!['e' as u8, 'i' as u8, 'g' as u8, 'h' as u8, 't' as u8]) {
        assert(digit_word(8) =~= seq!['e' as u8, 'i' as u8, 'g' as u8, 'h' as u8, 't' as u8]);
        lemma_name_read(s, p, 8);
    }
    if ends_with_at(s, p, seq!['n' as u8, 'i' as u8, 'n' as u8, 'e' as u8]) {
        assert(digit_word(9) =~= seq!['n' as u8, 'i' as u8, 'n' as u8, 'e' as u8]);
        lemma_name_read(s, p, 9);
    }
}

/// On lines where no digit is spelled out (none of "zero" to "nine"
/// occurs), reading digit words changes nothing: both readings give the
/// same total.
pub proof fn law_unspelled_lines_agree(lines: Seq<Seq<u8>>)
    requires
        forall|j: int| 0 <= j < lines.len() ==> has_no_digit_word(#[trigger] lines[j]),
    ensures
        spelled_total(lines) == calibration_total(lines),
    decreases lines.len(),
{
    if lines.len() > 0 {
        let front = lines.drop_last();
        assert forall|j: int| 0 <= j < front.len() implies has_no_digit_word(#[trigger] front[j]) by {
            assert(front[j] == lines[j]);
        }
        law_unspelled_lines_agree(front);
        let last = lines.last();
        assert(has_no_digit_word(lines[lines.len() - 1]));
        lemma_plain_tokens(last, last.len() as int);
        assert(last.take(last.len() as int) =~= last);
    }
}

proof fn lemma_token_bounds(s: Seq<u8>, n: int)
    requires
        n <= s.len(),
    ensures
        first_token(s, n) matches Some(d) ==> 0 <= d <= 9,
        last_token(s, n) matches Some(d) ==> 0 <= d <= 9,
        first_token(s, n) is Some <==> last_token(s, n) is Some,
    decreases n,
{
    if n > 0 {
        lemma_token_bounds(s, n - 1);
        lemma_word_ending_at_some(s, n - 1, 0);
    }
}

proof fn lemma_spelled_total_prefix(lines: Seq<Seq<u8>>, j: int)
    requires
        0 <= j <= lines.len(),
    ensures
        0 <= spelled_total(lines.take(j)) <= spelled_total(lines),
    decreases lines.len(),
{
    if lines.len() > 0 {
        lemma_token_bounds(lines.last(), lines.last().len() as int);
        if j == lines.len() {
            assert(lines.take(j) =~= lines);
            lemma_spelled_total_prefix(lines.drop_last(), j - 1);
            assert(lines.drop_last().take(j - 1) =~= lines.take(j).drop_last());
        } else {
            lemma_spelled_total_prefix(lines.drop_last(), j);
            assert(lines.drop_last().take(j) =~= lines.take(j));
        }
    }
}

/// Sum of the calibration values of all lines, reading both digits and
/// digit words ("one", "two", ...; "zero" counts as 0).
///
/// The reading cuts each line by byte position; every cut must fall
/// between two characters (`cuts_whole`), which always holds of ASCII
/// lines.
pub fn b(lines: &Vec<Vec<u8>>) -> (total: i32)
    requires
        forall|j: int| 0 <= j < lines.len() ==> cuts_whole(#[trigger] lines[j]@),
        spelled_total(lines.deep_view()) <= i32::MAX,
    ensures
        total == spelled_total(lines.deep_view()),
{
    let ghost all = lines.deep_view();
    let mut acc: i32 = 0;
    let mut j: usize = 0;
    while j < lines.len()
        invariant
            j <= lines.len(),
            all == lines.deep_view(),
            spelled_total(all) <= i32::MAX,
            acc == spelled_total(all.take(j as int)),
        decreases lines.len() - j,
    {
        let v = spelled_value(&lines[j]);
        proof {
            assert(all.take(j + 1).drop_last() =~= all.take(j as int));
            assert(all[j as int] == lines[j as int]@);
            lemma_spelled_total_prefix(all, j + 1);
        }
        acc = acc + v;
        j += 1;
    }
    assert(all.take(j as int) =~= all);
    acc
}

/// The spelled total of the lines fits in an `i32`.
pub fn spelled_fits(lines: &Vec<Vec<u8>>) -> (r: bool)
    ensures
        r == (spelled_total(lines.deep_view()) <= i32::MAX),
{
    let ghost all = lines.deep_view();
    let mut acc: u64 = 0;
    let mut j: usize = 0;
    while j < lines.len()
        invariant
            j <= lines.len(),
            all == lines.deep_view(),
            acc == spelled_total(all.take(j as int)),
            acc <= i32::MAX,
        decreases lines.len() - j,
    {
        let v = spelled_value(&lines[j]);
        proof {
            assert(all.take(j + 1).drop_last() =~= all.take(j as int));
            assert(all[j as int] == lines[j as int]@);
            lemma_token_bounds(lines[j as int]@, lines[j as int]@.len() as int);
        }
        acc = acc + v as u64;
        if acc > 0x7fff_ffff {
            proof {
                lemma_spelled_total_prefix(all, j + 1);
            }
            return false;
        }
        j += 1;
    }
    assert(all.take(j as int) =~= all);
    true
}

// ---------------------------------------------------------------------------
// Where the spelled reading cuts a line
// ---------------------------------------------------------------------------

/// Where the next search for a spelled digit starts, once position `e` has
/// been read with the search starting at `st`: the start of the digit word
/// that ends at `e`, if it starts at `st` or later.
pub open spec fn start_after_word(s: Seq<u8>, e: int, st: int) -> int {
    match word_ending_at(s, e, 0) {
        Some(k) => if e + 1 - digit_word(k).len() >= st {
            e + 1 - digit_word(k).len()
        } else {
            st
        },
        None => st,
    }
}

/// Where the search for a spelled digit ending at position `i` starts: just
/// after the last digit before `i`, or at the start of the last word found
/// since.
pub open spec fn scan_start(s: Seq<u8>, i: int) -> int
    decreases i,
{
    if i <= 0 {
        0
    } else if is_digit(s[i - 1]) {
        i
    } else {
        start_after_word(s, i - 1, scan_start(s, i - 1))
    }
}

/// At a character `e` that is not a digit, the reading cuts the line at
/// every position from the search start up to `e`, and just after `e`;
/// each such cut falls between two characters.
pub open spec fn cut_whole_at(s: Seq<u8>, e: int) -> bool {
    !is_continuation(s[e]) && !is_digit(s[e]) && scan_start(s, e) < e ==> {
        &&& e + 1 == s.len() || !is_continuation(s[e + 1])
        &&& forall|q: int| scan_start(s, e) <= q < e ==> !is_continuation(#[trigger] s[q])
    }
}

/// Every cut of the spelled reading falls between two characters.
pub open spec fn cuts_whole(s: Seq<u8>) -> bool {
    forall|e: int| 0 <= e < s.len() ==> #[trigger] cut_whole_at(s, e)
}

/// The digit whose word ends at position `i` of the line, if any.
fn word_ending(line: &Vec<u8>, i: usize) -> (r: Option<usize>)
    requires
        i < line.len(),
    ensures
        match r {
            Some(k) => word_ending_at(line@, i as int, 0) == Some(k as int),
            None => word_ending_at(line@, i as int, 0) is None,
        },
{
    let mut k: usize = 0;
    while k < 10
        invariant
            k <= 10,
            i < line.len(),
            word_ending_at(line@, i as int, 0) == word_ending_at(line@, i as int, k as int),
        decreases 10 - k,
    {
        let w = digit_word_bytes(k);
        if w.len() <= i + 1 && span_equals(line, i + 1 - w.len(), i, &w) {
            return Some(k);
        }
        k += 1;
    }
    None
}

/// Every cut of the spelled reading of the line falls between two
/// characters.
fn line_cuts_whole(line: &Vec<u8>) -> (r: bool)
    ensures
        r == cuts_whole(line@),
{
    let ghost s = line@;
    let n = line.len();
    let mut start: usize = 0;
    let mut i: usize = 0;
    while i < n
        invariant
            n == line.len(),
            s == line@,
            start <= i <= n,
            start == scan_start(s, i as int),
            forall|e: int| 0 <= e < i ==> #[trigger] cut_whole_at(s, e),
        decreases n - i,
    {
        let c = line[i];
        if is_digit_byte(c) {
            start = i + 1;
        } else {
            if start < i && !(0x80 <= c && c < 0xc0) {
                if i + 1 < n && 0x80 <= line[i + 1] && line[i + 1] < 0xc0 {
                    assert(!cut_whole_at(s, i as int));
                    return false;
                }
                let mut q = start;
                while q < i
                    invariant
                        n == line.len(),
                        s == line@,
                        start <= q <= i < n,
                        start < i,
                        start == scan_start(s, i as int),
                        !is_digit(s[i as int]),
                        !is_continuation(s[i as int]),
                        forall|t: int| start <= t < q ==> !is_continuation(#[trigger] s[t]),
                    decreases i - q,
                {
                    if 0x80 <= line[q] && line[q] < 0xc0 {
                        assert(!cut_whole_at(s, i as int));
                        return false;
                    }
                    q += 1;
                }
            }
            assert(cut_whole_at(s, i as int));
            let ghost st = start;
            match word_ending(line, i) {
                Some(k) => {
                    proof {
                        lemma_word_ending_at_some(s, i as int, 0);
                    }
                    let w = digit_word_bytes(k);
                    if i + 1 - w.len() >= start {
                        start = i + 1 - w.len();
                    }
                },
                None => {},
            }
            assert(start == start_after_word(s, i as int, st as int));
        }
        i += 1;
    }
    true
}

/// Every cut of the spelled reading of every line falls between two
/// characters.
pub fn lines_cut_whole(lines: &Vec<Vec<u8>>) -> (r: bool)
    ensures
        r == forall|j: int| 0 <= j < lines.len() ==> cuts_whole(#[trigger] lines[j]@),
{
    let mut j: usize = 0;
    while j < lines.len()
        invariant
            j <= lines.len(),
            forall|t: int| 0 <= t < j ==> cuts_whole(#[trigger] lines[t]@),
        decreases lines.len() - j,
    {
        if !line_cuts_whole(&lines[j]) {
            return false;
        }
        j += 1;
    }
    true
}

} // verus!
