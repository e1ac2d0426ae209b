//! Byte-level text helpers shared by the parsers.
use vstd::prelude::*;

verus! {

/// An ASCII decimal digit.
pub open spec fn is_digit(b: u8) -> bool {
    '0' as u8 <= b <= '9' as u8
}

/// A UTF-8 continuation byte: it never starts a character.
pub open spec fn is_continuation(b: u8) -> bool {
    0x80 <= b < 0xc0
}

/// The value of an ASCII digit.
pub open spec fn digit_value(b: u8) -> int {
    b - ('0' as u8)
}

/// The byte is an ASCII digit.
pub fn is_digit_byte(b: u8) -> (r: bool)
    ensures
        r == is_digit(b),
{
    '0' as u8 <= b && b <= '9' as u8
}

/// How a parser refuses its input: `Error` lets an enclosing repetition or
/// alternative try something else; `Incomplete` says that more input could
/// have changed the answer, and ends every enclosing parser.
#[derive(Clone, Copy, Debug, PartialEq, Eq, Structural)]
pub enum Fail {
    Error,
    Incomplete,
}

/// `t` stands in `s` at `pos`.
pub open spec fn tag_at(s: Seq<u8>, pos: int, t: Seq<u8>) -> bool {
    0 <= pos && pos + t.len() <= s.len() && s.subrange(pos, pos + t.len()) == t
}

/// `t` stands in `s` at `pos`.
pub fn tag(s: &[u8], pos: usize, t: &[u8]) -> (r: bool)
    requires
        pos <= s.len(),
    ensures
        r == tag_at(s@, pos as int, t@),
{
    if t.len() > s.len() - pos {
        return false;
    }
    let mut j: usize = 0;
    while j < t.len()
        invariant
            pos + t.len() <= s.len(),
            j <= t.len(),
            forall|k: int| 0 <= k < j ==> s@[pos + k] == t@[k],
        decreases t.len() - j,
    {
        if s[pos + j] != t[j] {
            assert(s@.subrange(pos as int, pos + t.len())[j as int] != t@[j as int]);
            return false;
        }
        j += 1;
    }
    assert(s@.subrange(pos as int, pos + t.len()) =~= t@);
    true
}

/// The number of consecutive digits in `s` from `pos` on.
pub open spec fn digit_run(s: Seq<u8>, pos: int) -> int
    decreases s.len() - pos,
{
    if pos < 0 || pos >= s.len() || !is_digit(s[pos]) {
        0
    } else {
        1 + digit_run(s, pos + 1)
    }
}

/// The digit run stays in `s`, holds digits only and ends at a non-digit.
pub proof fn lemma_digit_run(s: Seq<u8>, pos: int)
    requires
        0 <= pos <= s.len(),
    ensures
        0 <= digit_run(s, pos) <= s.len() - pos,
        forall|k: int| pos <= k < pos + digit_run(s, pos) ==> is_digit(#[trigger] s[k]),
        pos + digit_run(s, pos) < s.len() ==> !is_digit(s[pos + digit_run(s, pos)]),
    decreases s.len() - pos,
{
    if pos < s.len() && is_digit(s[pos]) {
        lemma_digit_run(s, pos + 1);
    }
}

/// How many bytes `take_while_m_n(m, n, is_digit)` takes at `pos`.  The
/// streaming form answers `Incomplete` when the digits run to the end of the
/// input before `n` of them were seen; the complete form takes them if there
/// are at least `m`.
pub open spec fn take_digits(s: Seq<u8>, pos: int, m: int, n: int, streaming: bool) -> Result<
    int,
    Fail,
> {
    let r = digit_run(s, pos);
    let rest = s.len() - pos;
    if r < rest {
        if r >= m {
            Ok(if r <= n { r } else { n })
        } else {
            Err(Fail::Error)
        }
    } else if rest >= n {
        Ok(n)
    } else if streaming {
        Err(Fail::Incomplete)
    } else if rest >= m {
        Ok(rest)
    } else {
        Err(Fail::Error)
    }
}

/// What `take_digits` takes is `m` to `n` digits inside `s`.
pub proof fn lemma_take_digits(s: Seq<u8>, pos: int, m: int, n: int, streaming: bool)
    requires
        0 <= pos <= s.len(),
        0 <= m <= n,
    ensures
        take_digits(s, pos, m, n, streaming) matches Ok(len) ==> m <= len <= n && pos + len
            <= s.len() && forall|k: int| pos <= k < pos + len ==> is_digit(#[trigger] s[k]),
{
    lemma_digit_run(s, pos);
}

/// How many bytes `take_while_m_n(m, n, is_digit)` takes at `pos`.
pub fn take_digits_exec(s: &[u8], pos: usize, m: usize, n: usize, streaming: bool) -> (r: Result<
    usize,
    Fail,
>)
    requires
        pos <= s.len(),
        m <= n,
    ensures
        match r {
            Ok(len) => take_digits(s@, pos as int, m as int, n as int, streaming) == Ok::<
                int,
                Fail,
            >(len as int),
            Err(f) => take_digits(s@, pos as int, m as int, n as int, streaming) == Err::<
                int,
                Fail,
            >(f),
        },
{
    let mut k = pos;
    while k < s.len() && is_digit_byte(s[k])
        invariant
            pos <= k <= s.len(),
            digit_run(s@, pos as int) == (k - pos) + digit_run(s@, k as int),
        decreases s.len() - k,
    {
        k += 1;
    }
    let r = k - pos;
    let rest = s.len() - pos;
    if r < rest {
        if r >= m {
            Ok(if r <= n { r } else { n })
        } else {
            Err(Fail::Error)
        }
    } else if rest >= n {
        Ok(n)
    } else if streaming {
        Err(Fail::Incomplete)
    } else if rest >= m {
        Ok(rest)
    } else {
        Err(Fail::Error)
    }
}

/// The value of the decimal numeral `s[pos..end]`.
pub open spec fn decimal(s: Seq<u8>, pos: int, end: int) -> nat
    decreases end - pos,
{
    if end <= pos {
        0
    } else {
        decimal(s, pos, end - 1) * 10 + (s[end - 1] - ('0' as u8)) as nat
    }
}

/// 10 to the power `n`.
pub open spec fn pow10(n: nat) -> nat
    decreases n,
{
    if n == 0 {
        1
    } else {
        10 * pow10((n - 1) as nat)
    }
}

/// A numeral of `k` digits is below 10 to the power `k`.
pub proof fn lemma_decimal_bound(s: Seq<u8>, pos: int, end: int)
    requires
        0 <= pos <= end <= s.len(),
        forall|k: int| pos <= k < end ==> is_digit(#[trigger] s[k]),
    ensures
        decimal(s, pos, end) < pow10((end - pos) as nat),
    decreases end - pos,
{
    if end > pos {
        lemma_decimal_bound(s, pos, end - 1);
        let d = decimal(s, pos, end - 1);
        let p = pow10((end - 1 - pos) as nat);
        assert(is_digit(s[end - 1]));
        assert(d * 10 + 9 < p * 10) by (nonlinear_arith)
            requires
                d < p,
        ;
    }
}

/// Powers of 10 grow with the exponent.
pub proof fn lemma_pow10_mono(a: nat, b: nat)
    requires
        a <= b,
    ensures
        pow10(a) <= pow10(b),
    decreases b,
{
    if a < b {
        lemma_pow10_mono(a, (b - 1) as nat);
    }
}

/// The value of the numeral `s[pos..end]` (at most 20 digits).
pub fn decimal_exec(s: &[u8], pos: usize, end: usize) -> (v: u128)
    requires
        pos <= end <= s.len(),
        end - pos <= 20,
        forall|k: int| pos <= k < end ==> is_digit(#[trigger] s@[k]),
    ensures
        v == decimal(s@, pos as int, end as int),
{
    let mut v: u128 = 0;
    let mut k = pos;
    proof {
        reveal_with_fuel(pow10, 21);
        assert(pow10(20) == 100000000000000000000nat);
    }
    while k < end
        invariant
            pos <= k <= end <= s.len(),
            end - pos <= 20,
            pow10(20) == 100000000000000000000nat,
            forall|t: int| pos <= t < end ==> is_digit(#[trigger] s@[t]),
            v == decimal(s@, pos as int, k as int),
        decreases end - k,
    {
        proof {
            lemma_decimal_bound(s@, pos as int, k + 1);
            lemma_pow10_mono((k + 1 - pos) as nat, 20);
        }
        v = v * 10 + ((s[k] - ('0' as u8)) as u128);
        k += 1;
    }
    v
}

/// A number of one to twenty digits.
pub open spec fn long_number_at(s: Seq<u8>, pos: int) -> Result<(int, u128), Fail> {
    match take_digits(s, pos, 1, 20, false) {
        Ok(len) => Ok((pos + len, decimal(s, pos, pos + len) as u128)),
        Err(f) => Err(f),
    }
}

/// Below 10^20, the bound of a twenty-digit number.
pub open spec fn below_e20(v: u128) -> bool {
    v < 100000000000000000000
}

/// Reads a number of one to twenty digits at `pos`.
pub fn take_long_number(s: &[u8], pos: usize) -> (r: Result<(usize, u128), Fail>)
    requires
        pos <= s.len(),
    ensures
        at(r) == long_number_at(s@, pos as int),
        r matches Ok((p, v)) ==> pos < p <= s.len() && below_e20(v),
{
    proof {
        lemma_take_digits(s@, pos as int, 1, 20, false);
    }
    match take_digits_exec(s, pos, 1, 20, false) {
        Ok(len) => {
            proof {
                lemma_decimal_bound(s@, pos as int, pos + len);
                lemma_pow10_mono(len as nat, 20);
                reveal_with_fuel(pow10, 21);
            }
            let v = decimal_exec(s, pos, pos + len);
            Ok((pos + len, v))
        },
        Err(f) => Err(f),
    }
}

/// `b` stands in `s` at `pos`.
pub fn tag_byte(s: &[u8], pos: usize, b: u8) -> (r: bool)
    requires
        pos <= s.len(),
    ensures
        r == tag_at(s@, pos as int, seq![b]),
{
    if pos < s.len() && s[pos] == b {
        assert(s@.subrange(pos as int, pos + 1) =~= seq![b]);
        true
    } else {
        if pos < s.len() {
            assert(s@.subrange(pos as int, pos + 1)[0] == s@[pos as int]);
        }
        false
    }
}

/// A parser's outcome with the position it stopped at widened to `int`.
pub open spec fn at<T>(r: Result<(usize, T), Fail>) -> Result<(int, T), Fail> {
    match r {
        Ok((p, v)) => Ok((p as int, v)),
        Err(f) => Err(f),
    }
}

/// A parser's outcome with the position widened and the value taken by its view.
pub open spec fn at_view<T: View>(r: Result<(usize, T), Fail>) -> Result<(int, T::V), Fail> {
    match r {
        Ok((p, v)) => Ok((p as int, v@)),
        Err(f) => Err(f),
    }
}

/// Put `front` before the items that a parse of a repetition produced.
pub open spec fn prepend<T>(front: Seq<T>, r: Result<(int, Seq<T>), Fail>) -> Result<
    (int, Seq<T>),
    Fail,
> {
    match r {
        Ok((p, rest)) => Ok((p, front + rest)),
        Err(f) => Err(f),
    }
}

/// Putting `front` and then `x` in front of a result.
pub proof fn lemma_prepend_push<T>(front: Seq<T>, x: T, r: Result<(int, Seq<T>), Fail>)
    ensures
        prepend(front.push(x), r) == prepend(front, prepend(seq![x], r)),
{
    if let Ok((p, rest)) = r {
        assert(front.push(x) + rest =~= front + (seq![x] + rest));
    }
}

/// Putting `front` in front of an empty result.
pub proof fn lemma_prepend_empty<T>(front: Seq<T>, p: int)
    ensures
        prepend(front, Ok((p, Seq::<T>::empty()))) == Ok::<(int, Seq<T>), Fail>((p, front)),
{
    assert(front + Seq::<T>::empty() =~= front);
}

/// A space, tab, carriage return or line feed.
pub open spec fn is_multispace(b: u8) -> bool {
    b == 32 || b == 9 || b == 13 || b == 10
}

/// The number of consecutive `is_multispace` bytes from `pos` on.
pub open spec fn space_run(s: Seq<u8>, pos: int) -> int
    decreases s.len() - pos,
{
    if pos < 0 || pos >= s.len() || !is_multispace(s[pos]) {
        0
    } else {
        1 + space_run(s, pos + 1)
    }
}

/// The white-space run stays in `s`.
pub proof fn lemma_space_run(s: Seq<u8>, pos: int)
    requires
        0 <= pos <= s.len(),
    ensures
        0 <= space_run(s, pos) <= s.len() - pos,
    decreases s.len() - pos,
{
    if pos < s.len() && is_multispace(s[pos]) {
        lemma_space_run(s, pos + 1);
    }
}

/// The position after the spaces that start at `pos` (`multispace0`).
pub fn skip_spaces(s: &[u8], pos: usize) -> (p: usize)
    requires
        pos <= s.len(),
    ensures
        p == pos + space_run(s@, pos as int),
        pos <= p <= s.len(),
{
    proof {
        lemma_space_run(s@, pos as int);
    }
    let mut k = pos;
    while k < s.len() && (s[k] == 32 || s[k] == 9 || s[k] == 13 || s[k] == 10)
        invariant
            pos <= k <= s.len(),
            space_run(s@, pos as int) == (k - pos) + space_run(s@, k as int),
        decreases s.len() - k,
    {
        k += 1;
    }
    k
}

/// The two byte strings are equal.
pub fn bytes_equal(a: &[u8], b: &[u8]) -> (r: bool)
    ensures
        r == (a@ == b@),
{
    if a.len() != b.len() {
        return false;
    }
    let mut i: usize = 0;
    while i < a.len()
        invariant
            a.len() == b.len(),
            i <= a.len(),
            forall|k: int| 0 <= k < i ==> a@[k] == b@[k],
        decreases a.len() - i,
    {
        if a[i] != b[i] {
            return false;
        }
        i += 1;
    }
    assert(a@ =~= b@);
    true
}

/// Where the digits of an unsigned numeral start: after one leading `+`.
pub open spec fn sign_skip(t: Seq<u8>) -> int {
    if t.len() > 0 && t[0] == '+' as u8 {
        1
    } else {
        0
    }
}

/// What `str::parse::<u32>` gives for `t`: an optional `+`, then one or more
/// digits whose value fits in a `u32`; anything else is refused.
pub open spec fn u32_text(t: Seq<u8>) -> Option<u32> {
    let d = sign_skip(t);
    if d < t.len() && (forall|k: int| d <= k < t.len() ==> is_digit(#[trigger] t[k])) && decimal(
        t,
        d,
        t.len() as int,
    ) <= u32::MAX {
        Some(decimal(t, d, t.len() as int) as u32)
    } else {
        None
    }
}

/// Reads `t` as an unsigned 32-bit decimal numeral.
pub fn parse_u32(t: &[u8]) -> (r: Option<u32>)
    ensures
        r == u32_text(t@),
{
    let d: usize = if t.len() > 0 && t[0] == '+' as u8 {
        1
    } else {
        0
    };
    if d >= t.len() {
        return None;
    }
    let mut k: usize = d;
    let mut acc: u64 = 0;
    let mut over = false;
    let mut ok = true;
    while k < t.len()
        invariant
            d == sign_skip(t@),
            d <= k <= t.len(),
            ok == (forall|q: int| d <= q < k ==> is_digit(#[trigger] t@[q])),
            ok && !over ==> acc == decimal(t@, d as int, k as int) && acc <= u32::MAX,
            ok && over ==> decimal(t@, d as int, k as int) > u32::MAX,
        decreases t.len() - k,
    {
        let b = t[k];
        if !is_digit_byte(b) {
            ok = false;
        } else if ok && !over {
            let nv: u64 = acc * 10 + ((b - ('0' as u8)) as u64);
            if nv > 0xffff_ffffu64 {
                over = true;
            } else {
                acc = nv;
            }
        }
        k += 1;
    }
    if ok && !over {
        Some(acc as u32)
    } else {
        None
    }
}

} // verus!
