//! Scratchcards: each line `Card <id>: <winning numbers> | <numbers you
//! have>`.  A card is worth one point for its first match and doubles for
//! every further match; the answer is the total number of points.
use vstd::prelude::*;
use std::collections::HashSet;
use crate::text::{
    Fail, at, decimal, decimal_exec, lemma_decimal_bound, lemma_pow10_mono, lemma_prepend_empty,
    lemma_prepend_push, lemma_take_digits, pow10, prepend, skip_spaces, space_run, tag, tag_at,
    tag_byte, take_digits, take_digits_exec, is_digit, digit_run, is_multispace,
};

verus! {

broadcast use vstd::std_specs::hash::group_hash_axioms;

/// A card: its id, its winning numbers and the numbers on it.
#[derive(Debug)]
pub struct Card {
    pub cid: u32,
    pub winning: HashSet<u32>,
    pub present: HashSet<u32>,
}

/// A card as plain values.
pub struct CardView {
    pub cid: u32,
    pub winning: Set<u32>,
    pub present: Set<u32>,
}

impl View for Card {
    type V = CardView;

    open spec fn view(&self) -> CardView {
        CardView { cid: self.cid, winning: self.winning@, present: self.present@ }
    }
}

/// How many of the numbers on the card are winning numbers.
pub open spec fn matches_of(c: CardView) -> nat {
    c.present.intersect(c.winning).len()
}

/// The points of a card: none without a match, else 1 doubled once for
/// every match after the first.
pub open spec fn points(c: CardView) -> int {
    if matches_of(c) > 0 {
        vstd::arithmetic::power2::pow2((matches_of(c) - 1) as nat) as int
    } else {
        0
    }
}

/// A card without a match is worth nothing, one match is worth one point,
/// and each further match doubles the points.
pub proof fn law_points_double(c: CardView, d: CardView)
    ensures
        points(c) == 0 <==> matches_of(c) == 0,
        matches_of(c) == 1 ==> points(c) == 1,
        matches_of(d) >= 1 && matches_of(c) == matches_of(d) + 1 ==> points(c) == 2 * points(d),
{
    if matches_of(c) > 0 {
        vstd::arithmetic::power2::lemma_pow2_pos((matches_of(c) - 1) as nat);
    }
    if matches_of(c) > 1 {
        vstd::arithmetic::power2::lemma_pow2_unfold((matches_of(c) - 1) as nat);
    }
    if matches_of(c) == 1 {
        vstd::arithmetic::power2::lemma2_to64();
    }
}

/// How many entries of `s` are in `b`.
pub open spec fn count_in(s: Seq<u32>, b: Set<u32>) -> nat
    decreases s.len(),
{
    if s.len() == 0 {
        0
    } else {
        count_in(s.drop_last(), b) + if b.contains(s.last()) { 1nat } else { 0nat }
    }
}

proof fn lemma_count_in(s: Seq<u32>, b: Set<u32>)
    requires
        s.no_duplicates(),
    ensures
        count_in(s, b) == s.to_set().intersect(b).len(),
    decreases s.len(),
{
    if s.len() == 0 {
        assert(s.to_set().intersect(b) =~= Set::empty());
    } else {
        let t = s.drop_last();
        let x = s.last();
        assert(t.no_duplicates());
        lemma_count_in(t, b);
        assert(s =~= t.push(x));
        broadcast use vstd::seq_lib::seq_to_set_is_finite;
        assert(!t.contains(x)) by {
            if t.contains(x) {
                let k = choose|k: int| 0 <= k < t.len() && t[k] == x;
                assert(s[k] == s[s.len() - 1]);
            }
        }
        assert(s.to_set() =~= t.to_set().insert(x));
        if b.contains(x) {
            assert(s.to_set().intersect(b) =~= t.to_set().intersect(b).insert(x));
        } else {
            assert(s.to_set().intersect(b) =~= t.to_set().intersect(b));
        }
    }
}

fn common(a: &HashSet<u32>, b: &HashSet<u32>) -> (n: usize)
    ensures
        n == a@.intersect(b@).len(),
{
    let ghost keys = vstd::std_specs::iter::IteratorSpec::remaining(&vstd::std_specs::hash::spec_hash_keys_iter(a)).unref();
    proof {
        lemma_count_in(keys, b@);
    }
    let size = a.len();
    assert(keys.len() == size);
    let mut n: usize = 0;
    for x in it: a.iter()
        invariant
            keys.len() <= usize::MAX,
            it.seq().unref() == keys,
            keys.no_duplicates(),
            count_in(keys, b@) == a@.intersect(b@).len(),
            n == count_in(keys.take(it.index() as int), b@),
            n <= it.index(),
    {
        assert(keys.take(it.index() + 1).drop_last() =~= keys.take(it.index() as int));
        if b.contains(x) {
            n += 1;
        }
    }
    assert(keys.take(keys.len() as int) =~= keys);
    n
}

// ---------------------------------------------------------------------------
// The grammar of a card
// ---------------------------------------------------------------------------

/// A number of one to six digits.
pub open spec fn number_at(s: Seq<u8>, pos: int) -> Result<(int, u32), Fail> {
    match take_digits(s, pos, 1, 6, false) {
        Ok(len) => Ok((pos + len, decimal(s, pos, pos + len) as u32)),
        Err(f) => Err(f),
    }
}

/// `Card` at the start of a line.
pub open spec fn word_card() -> Seq<u8> {
    seq!['C' as u8, 'a' as u8, 'r' as u8, 'd' as u8]
}

/// `Card`, white space, the id and `:`.
pub open spec fn card_id_at(s: Seq<u8>, pos: int) -> Result<(int, u32), Fail> {
    if !tag_at(s, pos, word_card()) {
        Err(Fail::Error)
    } else if space_run(s, pos + 4) == 0 {
        Err(Fail::Error)
    } else {
        match number_at(s, pos + 4 + space_run(s, pos + 4)) {
            Err(f) => Err(f),
            Ok((p, id)) => if tag_at(s, p, seq![':' as u8]) {
                Ok((p + 1, id))
            } else {
                Err(Fail::Error)
            },
        }
    }
}

/// A number with optional white space on both sides.
pub open spec fn spaced_number_at(s: Seq<u8>, pos: int) -> Result<(int, u32), Fail> {
    match number_at(s, pos + space_run(s, pos)) {
        Err(f) => Err(f),
        Ok((p, v)) => Ok((p + space_run(s, p), v)),
    }
}

/// Winning numbers up to and including the `|`.
pub open spec fn winning_from(s: Seq<u8>, pos: int) -> Result<(int, Seq<u32>), Fail>
    decreases s.len() - pos,
{
    if tag_at(s, pos, seq!['|' as u8]) {
        Ok((pos + 1, seq![]))
    } else {
        match spaced_number_at(s, pos) {
            Err(f) => Err(f),
            Ok((p, v)) => if p <= pos || p > s.len() {
                Err(Fail::Error)
            } else {
                prepend(seq![v], winning_from(s, p))
            },
        }
    }
}

/// A number after optional white space.
pub open spec fn present_number_at(s: Seq<u8>, pos: int) -> Result<(int, u32), Fail> {
    number_at(s, pos + space_run(s, pos))
}

/// Further numbers, as many as parse.
pub open spec fn more_present(s: Seq<u8>, pos: int) -> Result<(int, Seq<u32>), Fail>
    decreases s.len() - pos,
{
    match present_number_at(s, pos) {
        Err(Fail::Error) => Ok((pos, seq![])),
        Err(f) => Err(f),
        Ok((p, v)) => if p <= pos || p > s.len() {
            Err(Fail::Error)
        } else {
            prepend(seq![v], more_present(s, p))
        },
    }
}

/// One or more numbers.
pub open spec fn present_at(s: Seq<u8>, pos: int) -> Result<(int, Seq<u32>), Fail> {
    match present_number_at(s, pos) {
        Err(f) => Err(f),
        Ok((p, v)) => prepend(seq![v], more_present(s, p)),
    }
}

/// A whole card line; the two lists become sets.
pub open spec fn card_at(s: Seq<u8>) -> Result<(int, CardView), Fail> {
    match card_id_at(s, 0) {
        Err(f) => Err(f),
        Ok((p, cid)) => match winning_from(s, p) {
            Err(f) => Err(f),
            Ok((q, winning)) => match present_at(s, q) {
                Err(f) => Err(f),
                Ok((r, present)) => Ok(
                    (r, CardView { cid, winning: winning.to_set(), present: present.to_set() }),
                ),
            },
        },
    }
}

fn take_number(s: &[u8], pos: usize) -> (r: Result<(usize, u32), Fail>)
    requires
        pos <= s.len(),
    ensures
        at(r) == number_at(s@, pos as int),
        r matches Ok((p, _)) ==> pos < p <= s.len(),
{
    proof {
        lemma_take_digits(s@, pos as int, 1, 6, false);
    }
    match take_digits_exec(s, pos, 1, 6, false) {
        Ok(len) => {
            proof {
                lemma_decimal_bound(s@, pos as int, pos + len);
                lemma_pow10_mono(len as nat, 6);
                reveal_with_fuel(pow10, 7);
            }
            let v = decimal_exec(s, pos, pos + len);
            Ok((pos + len, v as u32))
        },
        Err(f) => Err(f),
    }
}

/// Reads `Card`, white space, the id and `:`.
pub fn card_id(s: &[u8], pos: usize) -> (r: Result<(usize, u32), Fail>)
    requires
        pos <= s.len(),
    ensures
        at(r) == card_id_at(s@, pos as int),
        r matches Ok((p, _)) ==> pos < p <= s.len(),
{
    let w = vec!['C' as u8, 'a' as u8, 'r' as u8, 'd' as u8];
    assert(w@ =~= word_card());
    if !tag(s, pos, w.as_slice()) {
        return Err(Fail::Error);
    }
    let q = skip_spaces(s, pos + 4);
    if q == pos + 4 {
        return Err(Fail::Error);
    }
    match take_number(s, q) {
        Ok((p, id)) => if tag_byte(s, p, ':' as u8) {
            Ok((p + 1, id))
        } else {
            Err(Fail::Error)
        },
        Err(f) => Err(f),
    }
}

fn winning_numbers(s: &[u8], pos: usize) -> (r: Result<(usize, Vec<u32>), Fail>)
    requires
        pos <= s.len(),
    ensures
        match r {
            Ok((p, v)) => winning_from(s@, pos as int) == Ok::<(int, Seq<u32>), Fail>(
                (p as int, v@),
            ) && pos < p <= s.len(),
            Err(f) => winning_from(s@, pos as int) == Err::<(int, Seq<u32>), Fail>(f),
        },
{
    let mut out: Vec<u32> = Vec::new();
    let mut p = pos;
    loop
        invariant
            pos <= p <= s.len(),
            prepend(out@, winning_from(s@, p as int)) == winning_from(s@, pos as int),
        decreases s.len() - p,
    {
        if tag_byte(s, p, '|' as u8) {
            proof {
                lemma_prepend_empty(out@, p + 1);
            }
            return Ok((p + 1, out));
        }
        let q = skip_spaces(s, p);
        match take_number(s, q) {
            Ok((p2, v)) => {
                let p3 = skip_spaces(s, p2);
                proof {
                    lemma_prepend_push(out@, v, winning_from(s@, p3 as int));
                }
                out.push(v);
                p = p3;
            },
            Err(f) => {
                return Err(f);
            },
        }
    }
}

fn present_numbers(s: &[u8], pos: usize) -> (r: Result<(usize, Vec<u32>), Fail>)
    requires
        pos <= s.len(),
    ensures
        match r {
            Ok((p, v)) => present_at(s@, pos as int) == Ok::<(int, Seq<u32>), Fail>(
                (p as int, v@),
            ) && pos < p <= s.len(),
            Err(f) => present_at(s@, pos as int) == Err::<(int, Seq<u32>), Fail>(f),
        },
{
    let (p0, v0) = match take_number(s, skip_spaces(s, pos)) {
        Ok(x) => x,
        Err(f) => return Err(f),
    };
    let mut out: Vec<u32> = Vec::new();
    out.push(v0);
    let mut p = p0;
    loop
        invariant
            pos < p <= s.len(),
            prepend(out@, more_present(s@, p as int)) == present_at(s@, pos as int),
        decreases s.len() - p,
    {
        match take_number(s, skip_spaces(s, p)) {
            Ok((p2, v)) => {
                proof {
                    lemma_prepend_push(out@, v, more_present(s@, p2 as int));
                }
                out.push(v);
                p = p2;
            },
            Err(Fail::Error) => {
                proof {
                    lemma_prepend_empty(out@, p as int);
                }
                return Ok((p, out));
            },
            Err(f) => {
                return Err(f);
            },
        }
    }
}

/// The set of the numbers of the list.
fn set_of(v: &Vec<u32>) -> (r: HashSet<u32>)
    ensures
        r@ == v@.to_set(),
{
    let mut set: HashSet<u32> = HashSet::new();
    let mut i: usize = 0;
    while i < v.len()
        invariant
            i <= v.len(),
            set@ == v@.take(i as int).to_set(),
        decreases v.len() - i,
    {
        set.insert(v[i]);
        assert(v@.take(i + 1).to_set() =~= v@.take(i as int).to_set().insert(v@[i as int])) by {
            assert(v@.take(i + 1) =~= v@.take(i as int).push(v@[i as int]));
            assert forall|x: u32| v@.take(i + 1).contains(x) <==> (v@.take(i as int).contains(x)
                || x == v@[i as int]) by {
                if v@.take(i + 1).contains(x) {
                    let k = choose|k: int| 0 <= k < i + 1 && #[trigger] v@.take(i + 1)[k] == x;
                    if k < i {
                        assert(v@.take(i as int)[k] == x);
                    }
                }
                if v@.take(i as int).contains(x) {
                    let k = choose|k: int| 0 <= k < i && #[trigger] v@.take(i as int)[k] == x;
                    assert(v@.take(i + 1)[k] == x);
                }
                if x == v@[i as int] {
                    assert(v@.take(i + 1)[i as int] == x);
                }
            }
        }
        i += 1;
    }
    assert(v@.take(i as int) =~= v@);
    set
}

/// Reads one card line.
pub fn card(s: &[u8]) -> (r: Result<(usize, Card), Fail>)
    ensures
        match r {
            Ok((p, c)) => card_at(s@) == Ok::<(int, CardView), Fail>((p as int, c@)),
            Err(f) => card_at(s@) == Err::<(int, CardView), Fail>(f),
        },
{
    let (p, cid) = match card_id(s, 0) {
        Ok(x) => x,
        Err(f) => return Err(f),
    };
    let (q, winning_) = match winning_numbers(s, p) {
        Ok(x) => x,
        Err(f) => return Err(f),
    };
    let winning = set_of(&winning_);
    let (r, present_) = match present_numbers(s, q) {
        Ok(x) => x,
        Err(f) => return Err(f),
    };
    let present = set_of(&present_);
    Ok((r, Card { cid, winning, present }))
}

// ---------------------------------------------------------------------------
// Points
// ---------------------------------------------------------------------------

/// The cards read from the lines that parse, in order.
pub open spec fn parsed_cards(lines: Seq<Seq<u8>>) -> Seq<CardView>
    decreases lines.len(),
{
    if lines.len() == 0 {
        seq![]
    } else {
        parsed_cards(lines.drop_last()) + match card_at(lines.last()) {
            Ok((_, c)) => seq![c],
            Err(_) => Seq::<CardView>::empty(),
        }
    }
}

/// Total points of the cards.
pub open spec fn points_sum(cards: Seq<CardView>) -> int
    decreases cards.len(),
{
    if cards.len() == 0 {
        0
    } else {
        points_sum(cards.drop_last()) + points(cards.last())
    }
}

/// No card has more than 32 matches, so its points fit in a `u32`.
pub open spec fn matches_fit(cards: Seq<CardView>) -> bool {
    forall|i: int| 0 <= i < cards.len() ==> matches_of(#[trigger] cards[i]) <= 32
}

proof fn lemma_points_sum_prefix(cards: Seq<CardView>, j: int)
    requires
        0 <= j <= cards.len(),
    ensures
        0 <= points_sum(cards.take(j)) <= points_sum(cards),
    decreases cards.len(),
{
    if cards.len() > 0 {
        if j == cards.len() {
            assert(cards.take(j) =~= cards);
            lemma_points_sum_prefix(cards.drop_last(), j - 1);
            assert(cards.drop_last().take(j - 1) =~= cards.take(j).drop_last());
        } else {
            lemma_points_sum_prefix(cards.drop_last(), j);
            assert(cards.drop_last().take(j) =~= cards.take(j));
        }
    }
}

/// 2 to the power `k`.
fn two_to(k: u32) -> (r: u32)
    requires
        k < 32,
    ensures
        r == vstd::arithmetic::power2::pow2(k as nat),
{
    let mut r: u32 = 1;
    let mut i: u32 = 0;
    proof {
        vstd::arithmetic::power2::lemma2_to64();
    }
    while i < k
        invariant
            i <= k < 32,
            r == vstd::arithmetic::power2::pow2(i as nat),
        decreases k - i,
    {
        proof {
            vstd::arithmetic::power2::lemma_pow2_unfold((i + 1) as nat);
            vstd::arithmetic::power2::lemma_pow2_strictly_increases((i + 1) as nat, 32);
            vstd::arithmetic::power2::lemma2_to64();
        }
        r = r * 2;
        i += 1;
    }
    r
}

fn parse_cards(lines: &Vec<Vec<u8>>) -> (cards: Vec<Card>)
    ensures
        cards@.map_values(|c: Card| c@) == parsed_cards(lines.deep_view()),
{
    let ghost all = lines.deep_view();
    let mut cards: Vec<Card> = Vec::new();
    let mut j: usize = 0;
    while j < lines.len()
        invariant
            j <= lines.len(),
            all == lines.deep_view(),
            cards@.map_values(|c: Card| c@) == parsed_cards(all.take(j as int)),
        decreases lines.len() - j,
    {
        proof {
            assert(all.take(j + 1).drop_last() =~= all.take(j as int));
            assert(all[j as int] == lines[j as int]@);
        }
        let ghost before = cards@;
        match card(lines[j].as_slice()) {
            Ok((_, c)) => {
                cards.push(c);
                assert(cards@.map_values(|c: Card| c@) =~= before.map_values(|c: Card| c@) + seq![
                    c@,
                ]);
            },
            Err(_) => {
                assert(cards@.map_values(|c: Card| c@) =~= before.map_values(|c: Card| c@)
                    + Seq::<CardView>::empty());
            },
        }
        j += 1;
    }
    assert(all.take(j as int) =~= all);
    cards
}

/// Total points of the cards among the lines that parse.
pub fn a(lines: &Vec<Vec<u8>>) -> (total: u32)
    requires
        matches_fit(parsed_cards(lines.deep_view())),
        points_sum(parsed_cards(lines.deep_view())) <= u32::MAX,
    ensures
        total == points_sum(parsed_cards(lines.deep_view())),
{
    let cards = parse_cards(lines);
    let ghost cs = cards@.map_values(|c: Card| c@);
    let mut acc: u32 = 0;
    let mut j: usize = 0;
    while j < cards.len()
        invariant
            j <= cards.len(),
            cs == cards@.map_values(|c: Card| c@),
            matches_fit(cs),
            points_sum(cs) <= u32::MAX,
            acc == points_sum(cs.take(j as int)),
        decreases cards.len() - j,
    {
        let crd = &cards[j];
        let exponent = common(&crd.present, &crd.winning);
        proof {
            assert(cs[j as int] == crd@);
            assert(matches_of(cs[j as int]) <= 32);
            assert(cs.take(j + 1).drop_last() =~= cs.take(j as int));
            lemma_points_sum_prefix(cs, j + 1);
        }
        if exponent > 0 {
            acc = acc + two_to(exponent as u32 - 1);
        }
        j += 1;
    }
    assert(cs.take(j as int) =~= cs);
    acc
}

/// No card has more than 32 matches and the total points fit in a `u32`.
pub fn points_check(lines: &Vec<Vec<u8>>) -> (r: bool)
    ensures
        r == (matches_fit(parsed_cards(lines.deep_view())) && points_sum(
            parsed_cards(lines.deep_view()),
        ) <= u32::MAX),
{
    let cards = parse_cards(lines);
    let ghost cs = cards@.map_values(|c: Card| c@);
    let mut acc: u64 = 0;
    let mut j: usize = 0;
    while j < cards.len()
        invariant
            j <= cards.len(),
            cs == cards@.map_values(|c: Card| c@),
            cs == parsed_cards(lines.deep_view()),
            forall|i: int| 0 <= i < j ==> matches_of(#[trigger] cs[i]) <= 32,
            acc == points_sum(cs.take(j as int)),
            acc <= u32::MAX,
        decreases cards.len() - j,
    {
        let crd = &cards[j];
        let exponent = common(&crd.present, &crd.winning);
        proof {
            assert(cs[j as int] == crd@);
            assert(cs.take(j + 1).drop_last() =~= cs.take(j as int));
            assert(cs.take(j + 1).last() == cs[j as int]);
            lemma_points_sum_prefix(cs, j + 1);
            lemma_points_sum_prefix(cs, j as int);
        }
        if exponent > 32 {
            proof {
                if exponent > 33 {
                    vstd::arithmetic::power2::lemma_pow2_strictly_increases(
                        32,
                        (exponent - 1) as nat,
                    );
                }
                vstd::arithmetic::power2::lemma2_to64();
                assert(points(cs[j as int]) > u32::MAX);
            }
            return false;
        }
        if exponent > 0 {
            acc = acc + two_to(exponent as u32 - 1) as u64;
        }
        if acc > 0xffff_ffff {
            return false;
        }
        j += 1;
    }
    assert(cs.take(j as int) =~= cs);
    true
}


proof fn lemma_digit_run_exact(s: Seq<u8>, pos: int, end: int)
    requires
        0 <= pos <= end <= s.len(),
        forall|k: int| pos <= k < end ==> is_digit(#[trigger] s[k]),
        end == s.len() || !is_digit(s[end]),
    ensures
        digit_run(s, pos) == end - pos,
    decreases end - pos,
{
    if pos < end {
        lemma_digit_run_exact(s, pos + 1, end);
    }
}

proof fn lemma_space_run_exact(s: Seq<u8>, pos: int, end: int)
    requires
        0 <= pos <= end <= s.len(),
        forall|k: int| pos <= k < end ==> is_multispace(#[trigger] s[k]),
        end == s.len() || !is_multispace(s[end]),
    ensures
        space_run(s, pos) == end - pos,
    decreases end - pos,
{
    if pos < end {
        lemma_space_run_exact(s, pos + 1, end);
    }
}

/// A numeral of one to six digits is read whole: the reading stops just
/// after its last digit and gives its value.
pub proof fn law_number_read(s: Seq<u8>, pos: int, n: int)
    requires
        0 <= pos,
        1 <= n <= 6,
        pos + n <= s.len(),
        forall|k: int| pos <= k < pos + n ==> is_digit(#[trigger] s[k]),
        pos + n == s.len() || !is_digit(s[pos + n]),
    ensures
        number_at(s, pos) == Ok::<(int, u32), Fail>((pos + n, decimal(s, pos, pos + n) as u32)),
        decimal(s, pos, pos + n) < 1_000_000,
{
    lemma_digit_run_exact(s, pos, pos + n);
    lemma_decimal_bound(s, pos, pos + n);
    lemma_pow10_mono(n as nat, 6);
    reveal_with_fuel(pow10, 7);
}

/// A card line that starts with `Card`, white space, an id of one to six
/// digits and `:` is read with that id.
pub proof fn law_card_id_read(s: Seq<u8>, q: int, n: int)
    requires
        4 < q,
        1 <= n <= 6,
        q + n < s.len(),
        s.subrange(0, 4) == seq!['C' as u8, 'a' as u8, 'r' as u8, 'd' as u8],
        forall|k: int| 4 <= k < q ==> #[trigger] s[k] == ' ' as u8,
        forall|k: int| q <= k < q + n ==> is_digit(#[trigger] s[k]),
        s[q + n] == ':' as u8,
    ensures
        card_id_at(s, 0) == Ok::<(int, u32), Fail>((q + n + 1, decimal(s, q, q + n) as u32)),
        decimal(s, q, q + n) < 1_000_000,
{
    assert(is_digit(s[q]));
    lemma_space_run_exact(s, 4, q);
    law_number_read(s, q, n);
    assert(s.subrange(q + n, q + n + 1) =~= seq![':' as u8]);
    assert(s.subrange(0, 4) =~= word_card());
}

} // verus!
