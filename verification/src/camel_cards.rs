//! Camel Cards: each line holds a hand of cards and a bid.  Hands are
//! ranked by their type (five of a kind down to high card, with jokers
//! joining the strongest group) and then card by card; the answer is the sum
//! of each bid times the rank of its hand, the weakest hand having rank 1.
use vstd::prelude::*;
use vstd::relations::{sorted_by, total_ordering};
use vstd::multiset::Multiset;
use std::cmp::Ordering;
use itertools::Itertools;
use crate::text::{
    Fail, at_view, decimal, decimal_exec, lemma_take_digits, prepend, lemma_prepend_empty,
    lemma_prepend_push, tag_at, tag_byte, take_digits, take_digits_exec, space_run, skip_spaces,
    lemma_space_run,
};

verus! {

/// The type of a hand, strongest first.
#[derive(Clone, Copy, Debug, PartialEq, Eq, Structural)]
pub enum Hand {
    Five,
    Chariot,
    FullHouse,
    Three,
    TwoPair,
    Pair,
    High,
}

/// Position of a hand type in the order above (0 is five of a kind).
pub open spec fn hand_rank(h: Hand) -> int {
    match h {
        Hand::Five => 0,
        Hand::Chariot => 1,
        Hand::FullHouse => 2,
        Hand::Three => 3,
        Hand::TwoPair => 4,
        Hand::Pair => 5,
        Hand::High => 6,
    }
}

/// Card values in ascending order.
pub open spec fn ascending() -> spec_fn(u8, u8) -> bool {
    |x: u8, y: u8| x <= y
}

/// The runs of equal neighbours in `s`, each with its length, in order.
pub open spec fn runs(s: Seq<u8>) -> Seq<(usize, u8)>
    decreases s.len(),
{
    if s.len() == 0 {
        seq![]
    } else {
        let r = runs(s.drop_last());
        if r.len() > 0 && r.last().1 == s.last() {
            r.update(r.len() - 1, ((r.last().0 + 1) as usize, r.last().1))
        } else {
            r.push((1usize, s.last()))
        }
    }
}

/// A group of jokers (card value 1) that is not all five cards.
pub open spec fn is_loose_joker(g: (usize, u8)) -> bool {
    g.1 == 1 && g.0 != 5
}

/// The groups that are not loose jokers.
pub open spec fn kept_groups(g: Seq<(usize, u8)>) -> Seq<(usize, u8)>
    decreases g.len(),
{
    if g.len() == 0 {
        seq![]
    } else if is_loose_joker(g.last()) {
        kept_groups(g.drop_last())
    } else {
        kept_groups(g.drop_last()).push(g.last())
    }
}

/// The size of the last group of loose jokers (0 when there is none).
pub open spec fn joker_count(g: Seq<(usize, u8)>) -> usize
    decreases g.len(),
{
    if g.len() == 0 {
        0
    } else if is_loose_joker(g.last()) {
        g.last().0
    } else {
        joker_count(g.drop_last())
    }
}

/// How two groups compare when looking for the group the jokers join:
/// five jokers below everything, then by size, then by card value.
pub open spec fn group_order(x: (usize, u8), y: (usize, u8)) -> Ordering {
    if x.1 == 1 {
        Ordering::Less
    } else if y.1 == 1 {
        Ordering::Greater
    } else if x.0 == y.0 {
        if x.1 < y.1 {
            Ordering::Less
        } else if x.1 == y.1 {
            Ordering::Equal
        } else {
            Ordering::Greater
        }
    } else if x.0 < y.0 {
        Ordering::Less
    } else {
        Ordering::Greater
    }
}

/// Group `x` comes below group `y`.
pub open spec fn group_less(x: (usize, u8), y: (usize, u8)) -> bool {
    group_order(x, y) == Ordering::Less
}

/// Group `x` comes above group `y`.
pub open spec fn group_greater(x: (usize, u8), y: (usize, u8)) -> bool {
    group_order(x, y) == Ordering::Greater
}

/// The position that a search for the largest of `g[0..n]` settles on,
/// keeping the later of two groups that are not ordered the other way.
pub open spec fn max_pos(g: Seq<(usize, u8)>, n: int) -> int
    decreases n,
{
    if n <= 1 {
        0
    } else {
        let b = max_pos(g, n - 1);
        if group_greater(g[b], g[n - 1]) {
            b
        } else {
            n - 1
        }
    }
}

/// No two groups hold the same card value.
pub open spec fn distinct_values(g: Seq<(usize, u8)>) -> bool {
    forall|i: int, j: int| 0 <= i < j < g.len() ==> g[i].1 != g[j].1
}

/// The hand type of one group size.
pub open spec fn hand_of_size(n: usize) -> Hand {
    if n == 1 {
        Hand::High
    } else if n == 2 {
        Hand::Pair
    } else if n == 3 {
        Hand::Three
    } else if n == 4 {
        Hand::Chariot
    } else if n == 5 {
        Hand::Five
    } else {
        Hand::High
    }
}

/// How the types of two groups add up to the type of the hand.
pub open spec fn combine(a: Hand, b: Hand) -> Hand {
    match (a, b) {
        (Hand::High, o) => o,
        (o, Hand::High) => o,
        (Hand::Five, _) => Hand::Five,
        (_, Hand::Five) => Hand::Five,
        (Hand::Chariot, _) => Hand::Chariot,
        (_, Hand::Chariot) => Hand::Chariot,
        (Hand::Pair, Hand::Three) => Hand::FullHouse,
        (Hand::Three, Hand::Pair) => Hand::FullHouse,
        (Hand::FullHouse, _) => Hand::FullHouse,
        (_, Hand::FullHouse) => Hand::FullHouse,
        (Hand::Three, _) => Hand::Three,
        (_, Hand::Three) => Hand::Three,
        (Hand::Pair, Hand::Pair) => Hand::TwoPair,
        (Hand::TwoPair, _) => Hand::TwoPair,
        (_, Hand::TwoPair) => Hand::TwoPair,
    }
}

/// The types of the groups, combined from left to right.
pub open spec fn combine_all(hs: Seq<Hand>) -> Hand
    decreases hs.len(),
{
    if hs.len() <= 1 {
        hs[0]
    } else {
        combine(combine_all(hs.drop_last()), hs.last())
    }
}

/// The groups of equal cards of a hand, in ascending card order.
pub open spec fn card_groups(cards: Seq<u8>) -> Seq<(usize, u8)> {
    runs(cards.sort_by(ascending()))
}

/// Group `i` is above every other group.
pub open spec fn above_all(g: Seq<(usize, u8)>, i: usize) -> bool {
    &&& i < g.len()
    &&& forall|j: int| 0 <= j < g.len() && j != i ==> group_less(#[trigger] g[j], g[i as int])
}

/// The hand has a type: some group other than loose jokers exists.
pub open spec fn has_hand(cards: Seq<u8>) -> bool {
    kept_groups(card_groups(cards)).len() > 0
}

/// The groups after the loose jokers joined the largest group.
pub open spec fn joined_groups(cards: Seq<u8>) -> Seq<(usize, u8)> {
    let g = kept_groups(card_groups(cards));
    let m = max_pos(g, g.len() as int);
    g.update(m, ((g[m].0 + joker_count(card_groups(cards))) as usize, g[m].1))
}

/// The type of a hand: loose jokers join the largest group (the one with
/// the highest card among the largest), then the group sizes decide.
pub open spec fn hand_type(cards: Seq<u8>) -> Hand {
    combine_all(joined_groups(cards).map_values(|x: (usize, u8)| hand_of_size(x.0)))
}

// ---------------------------------------------------------------------------
// Calls into std and itertools
// ---------------------------------------------------------------------------

/// `<[u8]>::sort`: per the standard library's documentation, the slice ends
/// up in ascending order holding the same elements as before.
#[verifier::external_body]
fn sort_values(v: &mut Vec<u8>)
    ensures
        final(v)@.to_multiset() == old(v)@.to_multiset(),
        sorted_by(final(v)@, ascending()),
{
    v.sort();
}

/// `Itertools::dedup_with_count` on the values: each run of equal
/// neighbours becomes one pair of its length and its value, in order.
#[verifier::external_body]
fn dedup_values_with_count(v: &Vec<u8>) -> (r: Vec<(usize, u8)>)
    ensures
        r@ == runs(v@),
{
    v.iter().dedup_with_count().map(|(n, c)| (n, *c)).collect()
}

/// `Itertools::position_max_by` with `group_cmp` as the comparison: `None`
/// for no groups, else the position of the maximum.  With distinct values
/// `group_cmp` is a strict total order, so the maximum is the one group
/// above all the others.
#[verifier::external_body]
fn position_max_group(g: &Vec<(usize, u8)>) -> (r: Option<usize>)
    requires
        distinct_values(g@),
    ensures
        r is None <==> g@.len() == 0,
        r matches Some(i) ==> above_all(g@, i),
{
    g.iter().position_max_by(|x, y| group_cmp(x, y))
}

/// How two groups compare (see `group_order`).
pub fn group_cmp(x: &(usize, u8), y: &(usize, u8)) -> (o: Ordering)
    ensures
        o == group_order(*x, *y),
{
    if x.1 == 1 {
        Ordering::Less
    } else if y.1 == 1 {
        Ordering::Greater
    } else if x.0 == y.0 {
        if x.1 < y.1 {
            Ordering::Less
        } else if x.1 == y.1 {
            Ordering::Equal
        } else {
            Ordering::Greater
        }
    } else if x.0 < y.0 {
        Ordering::Less
    } else {
        Ordering::Greater
    }
}

// ---------------------------------------------------------------------------
// Facts about the groups
// ---------------------------------------------------------------------------

/// Values strictly ascending, sizes between 1 and `bound`.
pub open spec fn ascending_groups(g: Seq<(usize, u8)>, bound: int) -> bool {
    &&& forall|i: int, j: int| 0 <= i < j < g.len() ==> g[i].1 < g[j].1
    &&& forall|i: int| 0 <= i < g.len() ==> 1 <= #[trigger] g[i].0 <= bound
}

proof fn lemma_sort_values(orig: Seq<u8>, v: Seq<u8>)
    requires
        v.to_multiset() == orig.to_multiset(),
        sorted_by(v, ascending()),
    ensures
        v == orig.sort_by(ascending()),
{
    let leq = ascending();
    assert(total_ordering(leq)) by {
        assert(vstd::relations::reflexive(leq));
        assert(vstd::relations::antisymmetric(leq));
        assert(vstd::relations::transitive(leq));
        assert(vstd::relations::strongly_connected(leq));
    }
    orig.lemma_sort_by_ensures(leq);
    vstd::seq_lib::lemma_sorted_unique(v, orig.sort_by(leq), leq);
}

proof fn lemma_runs(s: Seq<u8>)
    requires
        sorted_by(s, ascending()),
        s.len() <= usize::MAX,
    ensures
        ascending_groups(runs(s), s.len() as int),
        s.len() > 0 ==> runs(s).len() > 0 && runs(s).last().1 == s.last(),
        s.len() == 0 ==> runs(s).len() == 0,
    decreases s.len(),
{
    if s.len() > 0 {
        let t = s.drop_last();
        assert(sorted_by(t, ascending()));
        lemma_runs(t);
        let r = runs(t);
        if t.len() > 0 {
            assert(ascending()(s[t.len() - 1], s[s.len() - 1]));
            assert(r.last().1 == t.last());
            assert(1 <= r[r.len() - 1].0 <= t.len());
        }
        if r.len() > 0 && r.last().1 == s.last() {
            let u = r.update(r.len() - 1, ((r.last().0 + 1) as usize, r.last().1));
            assert forall|i: int| 0 <= i < u.len() implies 1 <= #[trigger] u[i].0 <= s.len() by {
                if i < r.len() - 1 {
                    assert(u[i] == r[i]);
                }
            }
        } else {
            let u = r.push((1usize, s.last()));
            assert forall|i: int, j: int| 0 <= i < j < u.len() implies u[i].1 < u[j].1 by {
                if j == u.len() - 1 {
                    if i < r.len() - 1 {
                        assert(r[i].1 < r[r.len() - 1].1);
                    }
                }
            }
            assert forall|i: int| 0 <= i < u.len() implies 1 <= #[trigger] u[i].0 <= s.len() by {
                if i < r.len() {
                    assert(u[i] == r[i]);
                }
            }
        }
    }
}

proof fn lemma_kept_groups(g: Seq<(usize, u8)>, bound: int)
    requires
        ascending_groups(g, bound),
        0 <= bound,
    ensures
        ascending_groups(kept_groups(g), bound),
        forall|i: int| 0 <= i < kept_groups(g).len() ==> #[trigger] kept_groups(g)[i].1 <= g.last().1,
        0 <= joker_count(g) <= bound,
    decreases g.len(),
{
    if g.len() > 0 {
        let t = g.drop_last();
        lemma_kept_groups(t, bound);
        if t.len() > 0 {
            assert(g[t.len() - 1].1 < g[g.len() - 1].1);
            assert forall|i: int| 0 <= i < kept_groups(t).len() implies #[trigger] kept_groups(t)[i].1
                < g.last().1 by {
                assert(kept_groups(t)[i].1 <= t.last().1);
            }
        }
        assert(1 <= g[g.len() - 1].0 <= bound);
        assert(joker_count(g) == g.last().0 || joker_count(g) == joker_count(t));
    }
}

proof fn lemma_group_order_pair(x: (usize, u8), y: (usize, u8))
    requires
        x.1 != y.1,
    ensures
        group_less(x, y) <==> group_greater(y, x),
        group_less(x, y) || group_greater(x, y),
{
}

proof fn lemma_group_order(x: (usize, u8), y: (usize, u8), z: (usize, u8))
    requires
        x.1 != y.1,
        y.1 != z.1,
        x.1 != z.1,
    ensures
        group_less(x, y) <==> group_greater(y, x),
        group_less(x, y) || group_greater(x, y),
        group_less(x, y) && group_less(y, z) ==> group_less(x, z),
{
}

proof fn lemma_max_pos(g: Seq<(usize, u8)>, n: int)
    requires
        distinct_values(g),
        1 <= n <= g.len(),
    ensures
        0 <= max_pos(g, n) < n,
        forall|j: int| 0 <= j < n && j != max_pos(g, n) ==> group_less(#[trigger] g[j], g[max_pos(g, n)]),
    decreases n,
{
    if n > 1 {
        lemma_max_pos(g, n - 1);
        let b = max_pos(g, n - 1);
        lemma_group_order_pair(g[b], g[n - 1]);
        if !group_greater(g[b], g[n - 1]) {
            assert forall|j: int| 0 <= j < n && j != n - 1 implies group_less(
                #[trigger] g[j],
                g[n - 1],
            ) by {
                if j != b {
                    lemma_group_order(g[j], g[b], g[n - 1]);
                }
            }
        }
    }
}

proof fn lemma_above_all_unique(g: Seq<(usize, u8)>, i: usize, k: int)
    requires
        distinct_values(g),
        above_all(g, i),
        0 <= k < g.len(),
        forall|j: int| 0 <= j < g.len() && j != k ==> group_less(#[trigger] g[j], g[k]),
    ensures
        i == k,
{
    if i != k {
        assert(group_less(g[i as int], g[k]));
        assert(group_less(g[k], g[i as int]));
        lemma_group_order_pair(g[i as int], g[k]);
    }
}

/// The groups of the hand other than loose jokers, in ascending card order,
/// and the number of loose jokers.
fn kept_and_jokers(cards: Vec<u8>) -> (r: (Vec<(usize, u8)>, usize))
    requires
        cards@.len() <= isize::MAX,
    ensures
        r.0@ == kept_groups(card_groups(cards@)),
        r.1 == joker_count(card_groups(cards@)),
        ascending_groups(r.0@, cards@.len() as int),
        r.1 <= cards@.len(),
{
    let ghost orig = cards@;
    let mut cards = cards;
    sort_values(&mut cards);
    proof {
        broadcast use vstd::seq_lib::group_to_multiset_ensures;
        assert(cards@.len() == orig.len()) by {
            assert(cards@.to_multiset().len() == orig.to_multiset().len());
        }
        lemma_sort_values(orig, cards@);
        lemma_runs(cards@);
    }
    let ddwc = dedup_values_with_count(&cards);
    let ghost groups = ddwc@;
    proof {
        lemma_kept_groups(groups, cards@.len() as int);
    }
    let mut jokers: usize = 0;
    let mut fuuuck: Vec<(usize, u8)> = Vec::new();
    let mut i: usize = 0;
    while i < ddwc.len()
        invariant
            i <= ddwc.len(),
            groups == ddwc@,
            fuuuck@ == kept_groups(groups.take(i as int)),
            jokers == joker_count(groups.take(i as int)),
        decreases ddwc.len() - i,
    {
        assert(groups.take(i + 1).drop_last() =~= groups.take(i as int));
        let (cn, c) = ddwc[i];
        if c == 1 {
            if cn == 5 {
                fuuuck.push((cn, c));
            } else {
                jokers = cn;
            }
        } else {
            fuuuck.push((cn, c));
        }
        i += 1;
    }
    assert(groups.take(i as int) =~= groups);
    (fuuuck, jokers)
}

/// The hand has a type: some group other than loose jokers exists.
pub fn hand_exists(cards: Vec<u8>) -> (r: bool)
    requires
        cards@.len() <= isize::MAX,
    ensures
        r == has_hand(cards@),
{
    let (kept, _) = kept_and_jokers(cards);
    kept.len() > 0
}

/// The type of a hand given by its card values.
pub fn cards_to_hand(cards: Vec<u8>) -> (h: Hand)
    requires
        has_hand(cards@),
        cards@.len() <= isize::MAX,
    ensures
        h == hand_type(cards@),
{
    let ghost orig = cards@;
    let (fuuuck, jokers) = kept_and_jokers(cards);
    let mut fuuuck = fuuuck;
    let ghost kept = fuuuck@;
    assert(distinct_values(kept));
    let max_poz = match position_max_group(&fuuuck) {
        Some(m) => m,
        None => {
            assert(false);
            0
        },
    };
    proof {
        lemma_max_pos(kept, kept.len() as int);
        lemma_above_all_unique(kept, max_poz, max_pos(kept, kept.len() as int));
        assert(1 <= kept[max_poz as int].0 <= cards@.len());
        assert(jokers <= cards@.len());
        assert(isize::MAX + isize::MAX < usize::MAX);
    }
    let (cn_, c_) = fuuuck[max_poz];
    fuuuck.set(max_poz, (cn_ + jokers, c_));
    let ghost joined = fuuuck@;
    assert(joined == joined_groups(orig));
    let ghost sizes = joined.map_values(|x: (usize, u8)| hand_of_size(x.0));
    let mut acc = hand_of(fuuuck[0].0);
    let mut k: usize = 1;
    assert(sizes.take(1) =~= seq![sizes[0]]);
    while k < fuuuck.len()
        invariant
            1 <= k <= fuuuck.len(),
            joined == fuuuck@,
            sizes == joined.map_values(|x: (usize, u8)| hand_of_size(x.0)),
            acc == combine_all(sizes.take(k as int)),
        decreases fuuuck.len() - k,
    {
        assert(sizes.take(k + 1).drop_last() =~= sizes.take(k as int));
        acc = combine_hands(acc, hand_of(fuuuck[k].0));
        k += 1;
    }
    assert(sizes.take(k as int) =~= sizes);
    acc
}

/// The type of a hand does not depend on the order of its cards: two hands
/// holding the same cards, in any order, have the same type (and both have
/// one or neither).
pub proof fn law_hand_ignores_order(v1: Seq<u8>, v2: Seq<u8>)
    requires
        v1.to_multiset() == v2.to_multiset(),
    ensures
        card_groups(v1) == card_groups(v2),
        hand_type(v1) == hand_type(v2),
        has_hand(v1) == has_hand(v2),
{
    let leq = ascending();
    assert(total_ordering(leq)) by {
        assert(vstd::relations::reflexive(leq));
        assert(vstd::relations::antisymmetric(leq));
        assert(vstd::relations::transitive(leq));
        assert(vstd::relations::strongly_connected(leq));
    }
    v1.lemma_sort_by_ensures(leq);
    lemma_sort_values(v2, v1.sort_by(leq));
}

fn hand_of(n: usize) -> (h: Hand)
    ensures
        h == hand_of_size(n),
{
    match n {
        1 => Hand::High,
        2 => Hand::Pair,
        3 => Hand::Three,
        4 => Hand::Chariot,
        5 => Hand::Five,
        _ => Hand::High,
    }
}

fn combine_hands(a: Hand, b: Hand) -> (h: Hand)
    ensures
        h == combine(a, b),
{
    match (a, b) {
        (Hand::High, o) => o,
        (o, Hand::High) => o,
        (Hand::Five, _) => Hand::Five,
        (_, Hand::Five) => Hand::Five,
        (Hand::Chariot, _) => Hand::Chariot,
        (_, Hand::Chariot) => Hand::Chariot,
        (Hand::Pair, Hand::Three) => Hand::FullHouse,
        (Hand::Three, Hand::Pair) => Hand::FullHouse,
        (Hand::FullHouse, _) => Hand::FullHouse,
        (_, Hand::FullHouse) => Hand::FullHouse,
        (Hand::Three, _) => Hand::Three,
        (_, Hand::Three) => Hand::Three,
        (Hand::Pair, Hand::Pair) => Hand::TwoPair,
        (Hand::TwoPair, _) => Hand::TwoPair,
        (_, Hand::TwoPair) => Hand::TwoPair,
    }
}

// ---------------------------------------------------------------------------
// Hands with their bids, and how they are ranked
// ---------------------------------------------------------------------------

/// A hand of card values, its type and its bid.
#[derive(Debug)]
pub struct Cards {
    pub cards: Vec<u8>,
    pub hand: Hand,
    pub bid: u64,
}

/// A hand with its type and bid, as plain values.
pub struct CardsView {
    pub cards: Seq<u8>,
    pub hand: Hand,
    pub bid: u64,
}

impl View for Cards {
    type V = CardsView;

    open spec fn view(&self) -> CardsView {
        CardsView { cards: self.cards@, hand: self.hand, bid: self.bid }
    }
}

/// Card by card, a higher card comes first; a hand that is a proper prefix
/// of the other comes first.
pub open spec fn cards_lex(x: Seq<u8>, y: Seq<u8>) -> Ordering
    decreases x.len(),
{
    if x.len() == 0 {
        if y.len() == 0 {
            Ordering::Equal
        } else {
            Ordering::Less
        }
    } else if y.len() == 0 {
        Ordering::Greater
    } else if x[0] < y[0] {
        Ordering::Greater
    } else if x[0] > y[0] {
        Ordering::Less
    } else {
        cards_lex(x.drop_first(), y.drop_first())
    }
}

/// How two hands are ordered, stronger first: by type, then card by card.
pub open spec fn cards_order(a: CardsView, b: CardsView) -> Ordering {
    if hand_rank(a.hand) < hand_rank(b.hand) {
        Ordering::Less
    } else if hand_rank(a.hand) > hand_rank(b.hand) {
        Ordering::Greater
    } else {
        cards_lex(a.cards, b.cards)
    }
}

proof fn lemma_cards_lex_refl(x: Seq<u8>)
    ensures
        cards_lex(x, x) == Ordering::Equal,
    decreases x.len(),
{
    if x.len() > 0 {
        lemma_cards_lex_refl(x.drop_first());
    }
}

/// The cards from position `i` on.
pub open spec fn tail_from(s: Seq<u8>, i: usize) -> Seq<u8> {
    s.skip(i as int)
}

proof fn lemma_tail_step(s: Seq<u8>, i: usize)
    requires
        i < s.len(),
    ensures
        tail_from(s, i).drop_first() == s.skip(i + 1),
        tail_from(s, i).len() > 0,
        tail_from(s, i)[0] == s[i as int],
{
    assert(tail_from(s, i).drop_first() =~= s.skip(i + 1));
}

fn hand_position(h: Hand) -> (r: u8)
    ensures
        r == hand_rank(h),
{
    match h {
        Hand::Five => 0,
        Hand::Chariot => 1,
        Hand::FullHouse => 2,
        Hand::Three => 3,
        Hand::TwoPair => 4,
        Hand::Pair => 5,
        Hand::High => 6,
    }
}

impl Cards {
    /// How the two hands are ordered, stronger first (see `cards_order`).
    pub fn cmp(&self, other: &Self) -> (o: Ordering)
        ensures
            o == cards_order(self@, other@),
    {
        let h1 = hand_position(self.hand);
        let h2 = hand_position(other.hand);
        if h1 < h2 {
            return Ordering::Less;
        } else if h1 > h2 {
            return Ordering::Greater;
        }
        let mut i: usize = 0;
        assert(tail_from(self.cards@, 0) =~= self.cards@);
        assert(tail_from(other.cards@, 0) =~= other.cards@);
        loop
            invariant
                cards_order(self@, other@) == cards_lex(self.cards@, other.cards@),
                tail_from(self.cards@, i).len() == self.cards.len() - i,
                tail_from(other.cards@, i).len() == other.cards.len() - i,
                i <= self.cards.len(),
                i <= other.cards.len(),
                cards_lex(self.cards@, other.cards@) == cards_lex(
                    tail_from(self.cards@, i),
                    tail_from(other.cards@, i),
                ),
            decreases self.cards.len() - i,
        {
            if i == self.cards.len() {
                if i == other.cards.len() {
                    return Ordering::Equal;
                } else {
                    return Ordering::Less;
                }
            }
            if i == other.cards.len() {
                return Ordering::Greater;
            }
            let me = self.cards[i];
            let o = other.cards[i];
            proof {
                lemma_tail_step(self.cards@, i);
                lemma_tail_step(other.cards@, i);
            }
            if me < o {
                return Ordering::Greater;
            } else if me > o {
                return Ordering::Less;
            }
            i += 1;
        }
    }
}

/// Hand `j` ends up before hand `i` when the hands are sorted stronger
/// first, equal hands keeping their order.
pub open spec fn precedes(hs: Seq<CardsView>, j: int, i: int) -> bool {
    goes_before(hs[j], hs[i], j < i)
}

/// Hand `a` sorts before hand `b`: it is stronger, or equal and was first.
pub open spec fn goes_before(a: CardsView, b: CardsView, a_first: bool) -> bool {
    cards_order(a, b) == Ordering::Less || (cards_order(a, b) == Ordering::Equal && a_first)
}

fn goes_before_exec(a: &Cards, b: &Cards, a_first: bool) -> (r: bool)
    ensures
        r == goes_before(a@, b@, a_first),
{
    match a.cmp(b) {
        Ordering::Less => true,
        Ordering::Equal => a_first,
        Ordering::Greater => false,
    }
}

/// The number of hands among the first `m` that end up before hand `i`.
pub open spec fn count_before(hs: Seq<CardsView>, i: int, m: int) -> int
    decreases m,
{
    if m <= 0 {
        0
    } else {
        count_before(hs, i, m - 1) + if precedes(hs, m - 1, i) {
            1int
        } else {
            0int
        }
    }
}

/// Where hand `i` stands once the hands are sorted stronger first.
pub open spec fn sorted_position(hs: Seq<CardsView>, i: int) -> int {
    count_before(hs, i, hs.len() as int)
}

/// The winnings of the first `m` hands: each bid times its rank, where the
/// strongest hand has rank `hs.len()` and the weakest rank 1.
pub open spec fn winnings_upto(hs: Seq<CardsView>, m: int) -> int
    decreases m,
{
    if m <= 0 {
        0
    } else {
        winnings_upto(hs, m - 1) + hs[m - 1].bid * (hs.len() - sorted_position(hs, m - 1))
    }
}

/// Total winnings of all hands.
pub open spec fn winnings(hs: Seq<CardsView>) -> int {
    winnings_upto(hs, hs.len() as int)
}

proof fn lemma_count_before(hs: Seq<CardsView>, i: int, m: int)
    requires
        0 <= i < hs.len(),
        0 <= m <= hs.len(),
    ensures
        0 <= count_before(hs, i, m) <= m,
        m > i ==> count_before(hs, i, m) <= m - 1,
    decreases m,
{
    if m > 0 {
        lemma_count_before(hs, i, m - 1);
        if m - 1 == i {
            lemma_cards_lex_refl(hs[i].cards);
        }
    }
}

proof fn lemma_lex_flip(x: Seq<u8>, y: Seq<u8>)
    ensures
        cards_lex(x, y) == Ordering::Less <==> cards_lex(y, x) == Ordering::Greater,
        cards_lex(x, y) == Ordering::Equal <==> x == y,
    decreases x.len(),
{
    if x.len() == 0 && y.len() == 0 {
        assert(x =~= y);
    } else if x.len() > 0 && y.len() > 0 {
        lemma_lex_flip(x.drop_first(), y.drop_first());
        if x[0] == y[0] && x.drop_first() == y.drop_first() {
            assert(x =~= seq![x[0]] + x.drop_first());
            assert(y =~= seq![y[0]] + y.drop_first());
        }
        if x == y {
            assert(x.drop_first() == y.drop_first());
        }
    }
}

proof fn lemma_lex_trans(x: Seq<u8>, y: Seq<u8>, z: Seq<u8>)
    requires
        cards_lex(x, y) != Ordering::Greater,
        cards_lex(y, z) != Ordering::Greater,
    ensures
        cards_lex(x, z) != Ordering::Greater,
        cards_lex(x, y) == Ordering::Less || cards_lex(y, z) == Ordering::Less ==> cards_lex(x, z)
            == Ordering::Less,
    decreases x.len(),
{
    lemma_lex_flip(x, y);
    lemma_lex_flip(y, z);
    if x.len() > 0 && y.len() > 0 && z.len() > 0 && x[0] == y[0] && y[0] == z[0] {
        lemma_lex_trans(x.drop_first(), y.drop_first(), z.drop_first());
    }
}

/// Hand order is antisymmetric: `a` is stronger than `b` exactly when `b`
/// is weaker than `a`, and two hands rank equal exactly when their types and
/// cards are the same.
pub proof fn law_cards_order_flips(a: CardsView, b: CardsView)
    ensures
        cards_order(a, b) == Ordering::Less <==> cards_order(b, a) == Ordering::Greater,
        cards_order(a, b) == Ordering::Equal <==> (a.cards == b.cards && hand_rank(a.hand)
            == hand_rank(b.hand)),
{
    lemma_lex_flip(a.cards, b.cards);
}

/// Hand order is transitive: a hand no weaker than a second, itself no
/// weaker than a third, is no weaker than the third, and stronger when
/// either step is.
pub proof fn law_cards_order_chains(a: CardsView, b: CardsView, c: CardsView)
    requires
        cards_order(a, b) != Ordering::Greater,
        cards_order(b, c) != Ordering::Greater,
    ensures
        cards_order(a, c) != Ordering::Greater,
        cards_order(a, b) == Ordering::Less || cards_order(b, c) == Ordering::Less ==> cards_order(
            a,
            c,
        ) == Ordering::Less,
{
    if hand_rank(a.hand) == hand_rank(b.hand) && hand_rank(b.hand) == hand_rank(c.hand) {
        lemma_lex_trans(a.cards, b.cards, c.cards);
    }
}

proof fn lemma_precedes_order(hs: Seq<CardsView>, i: int, j: int, k: int)
    requires
        0 <= i < hs.len(),
        0 <= j < hs.len(),
        0 <= k < hs.len(),
    ensures
        !precedes(hs, i, i),
        i != j ==> (precedes(hs, i, j) <==> !precedes(hs, j, i)),
        precedes(hs, k, j) && precedes(hs, j, i) ==> precedes(hs, k, i),
{
    law_cards_order_flips(hs[i], hs[i]);
    law_cards_order_flips(hs[i], hs[j]);
    law_cards_order_flips(hs[j], hs[i]);
    if precedes(hs, k, j) && precedes(hs, j, i) {
        law_cards_order_chains(hs[k], hs[j], hs[i]);
    }
}

proof fn lemma_count_more(hs: Seq<CardsView>, i: int, j: int, m: int)
    requires
        0 <= m <= hs.len(),
        forall|k: int| 0 <= k < m && precedes(hs, k, j) ==> #[trigger] precedes(hs, k, i),
    ensures
        count_before(hs, j, m) <= count_before(hs, i, m),
        (exists|k: int| 0 <= k < m && precedes(hs, k, i) && !precedes(hs, k, j)) ==> count_before(
            hs,
            j,
            m,
        ) < count_before(hs, i, m),
    decreases m,
{
    if m > 0 {
        lemma_count_more(hs, i, j, m - 1);
        if exists|k: int| 0 <= k < m && precedes(hs, k, i) && !precedes(hs, k, j) {
            let k = choose|k: int| 0 <= k < m && precedes(hs, k, i) && !precedes(hs, k, j);
            if k < m - 1 {
                assert(exists|k2: int|
                    0 <= k2 < m - 1 && precedes(hs, k2, i) && !precedes(hs, k2, j));
            }
        }
    }
}

/// Sorting gives the hands distinct places: no two hands share a rank, so
/// the ranks are exactly 1 to the number of hands.
pub proof fn law_sorted_positions_distinct(hs: Seq<CardsView>, i: int, j: int)
    requires
        0 <= i < hs.len(),
        0 <= j < hs.len(),
        i != j,
    ensures
        sorted_position(hs, i) != sorted_position(hs, j),
        0 <= sorted_position(hs, i) < hs.len(),
{
    lemma_count_before(hs, i, hs.len() as int);
    lemma_precedes_order(hs, i, j, i);
    let (lo, hi) = if precedes(hs, j, i) {
        (j, i)
    } else {
        (i, j)
    };
    assert(precedes(hs, lo, hi));
    assert forall|k: int| 0 <= k < hs.len() && precedes(hs, k, lo) implies #[trigger] precedes(
        hs,
        k,
        hi,
    ) by {
        lemma_precedes_order(hs, hi, lo, k);
    }
    lemma_precedes_order(hs, lo, lo, lo);
    lemma_count_more(hs, hi, lo, hs.len() as int);
}

proof fn lemma_winnings_upto(hs: Seq<CardsView>, m: int)
    requires
        0 <= m <= hs.len(),
    ensures
        0 <= winnings_upto(hs, m) <= winnings(hs),
    decreases hs.len() - m,
{
    lemma_winnings_nonneg(hs, m);
    if m < hs.len() {
        lemma_winnings_upto(hs, m + 1);
        lemma_count_before(hs, m, hs.len() as int);
        let k = hs.len() - sorted_position(hs, m);
        assert(hs[m].bid * k >= 0) by (nonlinear_arith)
            requires
                k >= 1,
        ;
    }
}

proof fn lemma_winnings_nonneg(hs: Seq<CardsView>, m: int)
    requires
        0 <= m <= hs.len(),
    ensures
        0 <= winnings_upto(hs, m),
    decreases m,
{
    if m > 0 {
        lemma_winnings_nonneg(hs, m - 1);
        lemma_count_before(hs, m - 1, hs.len() as int);
        let k = hs.len() - sorted_position(hs, m - 1);
        assert(hs[m - 1].bid * k >= 0) by (nonlinear_arith)
            requires
                k >= 1,
        ;
    }
}

/// Where hand `i` stands once the hands are sorted stronger first.
fn position_of(hs: &Vec<Cards>, i: usize) -> (r: usize)
    requires
        i < hs.len(),
    ensures
        r == sorted_position(hs@.map_values(|c: Cards| c@), i as int),
        r < hs.len(),
{
    let ghost v = hs@.map_values(|c: Cards| c@);
    let mut count: usize = 0;
    let mut j: usize = 0;
    while j < hs.len()
        invariant
            j <= hs.len(),
            i < hs.len(),
            v == hs@.map_values(|c: Cards| c@),
            count == count_before(v, i as int, j as int),
        decreases hs.len() - j,
    {
        proof {
            lemma_count_before(v, i as int, j as int);
        }
        let before = goes_before_exec(&hs[j], &hs[i], j < i);
        if before {
            count = count + 1;
        }
        j += 1;
    }
    proof {
        lemma_count_before(v, i as int, hs.len() as int);
    }
    count
}

/// Total winnings: the hands sorted strongest first, the first one's bid
/// counting `hs.len()` times and each next one once less.
pub fn total_winnings(hs: &Vec<Cards>) -> (w: u64)
    requires
        winnings(hs@.map_values(|c: Cards| c@)) <= u64::MAX,
    ensures
        w == winnings(hs@.map_values(|c: Cards| c@)),
{
    let ghost v = hs@.map_values(|c: Cards| c@);
    let n = hs.len() as u64;
    let mut acc: u64 = 0;
    let mut i: usize = 0;
    while i < hs.len()
        invariant
            i <= hs.len(),
            n == hs.len(),
            v == hs@.map_values(|c: Cards| c@),
            winnings(v) <= u64::MAX,
            acc == winnings_upto(v, i as int),
        decreases hs.len() - i,
    {
        let r = position_of(hs, i);
        proof {
            lemma_winnings_upto(v, i + 1);
            lemma_winnings_nonneg(v, i as int);
            let k = hs.len() - r;
            assert(hs[i as int].bid * k <= winnings(v));
        }
        acc = acc + hs[i].bid * (n - r as u64);
        i += 1;
    }
    acc
}

// ---------------------------------------------------------------------------
// The grammar of the hands
// ---------------------------------------------------------------------------

/// A card character: 2 to 9, T, J, Q, K or A.
pub open spec fn is_card(b: u8) -> bool {
    ||| '2' as u8 <= b <= '9' as u8
    ||| b == 'T' as u8
    ||| b == 'J' as u8
    ||| b == 'Q' as u8
    ||| b == 'K' as u8
    ||| b == 'A' as u8
}

/// The value of a card: its digit, T 10, J 1 (the joker), Q 12, K 13, A 14.
pub open spec fn card_value(b: u8) -> u8 {
    if b == 'T' as u8 {
        10
    } else if b == 'J' as u8 {
        1
    } else if b == 'Q' as u8 {
        12
    } else if b == 'K' as u8 {
        13
    } else if b == 'A' as u8 {
        14
    } else {
        (b - '0' as u8) as u8
    }
}

/// The number of consecutive card characters from `pos` on.
pub open spec fn card_run(s: Seq<u8>, pos: int) -> int
    decreases s.len() - pos,
{
    if pos < 0 || pos >= s.len() || !is_card(s[pos]) {
        0
    } else {
        1 + card_run(s, pos + 1)
    }
}

proof fn lemma_card_run(s: Seq<u8>, pos: int)
    requires
        0 <= pos <= s.len(),
    ensures
        0 <= card_run(s, pos) <= s.len() - pos,
    decreases s.len() - pos,
{
    if pos < s.len() && is_card(s[pos]) {
        lemma_card_run(s, pos + 1);
    }
}

/// A hand line up to its bid: the card values and the bid.  The cards are
/// one or more card characters, then optional white space, a bid of one to
/// twenty digits that fits in a `u64`, and an optional line feed.
pub open spec fn hand_line_at(s: Seq<u8>, pos: int) -> Result<(int, (Seq<u8>, u64)), Fail> {
    let r = card_run(s, pos);
    if r == 0 {
        Err(Fail::Error)
    } else {
        let p1 = pos + r;
        let p2 = p1 + space_run(s, p1);
        match take_digits(s, p2, 1, 20, false) {
            Err(f) => Err(f),
            Ok(len) => {
                let v = decimal(s, p2, p2 + len);
                if v > u64::MAX {
                    Err(Fail::Error)
                } else {
                    let p3 = p2 + len;
                    let p4 = if tag_at(s, p3, seq!['\n' as u8]) { p3 + 1 } else { p3 };
                    Ok((p4, (s.subrange(pos, p1).map_values(|b: u8| card_value(b)), v as u64)))
                }
            },
        }
    }
}

/// A hand line with the type of its hand.
pub open spec fn cardes_at(s: Seq<u8>, pos: int) -> Result<(int, CardsView), Fail> {
    match hand_line_at(s, pos) {
        Err(f) => Err(f),
        Ok((p, (vals, bid))) => Ok((p, CardsView { cards: vals, hand: hand_type(vals), bid })),
    }
}

/// Hand lines up to the end of the input.
pub open spec fn cards_from(s: Seq<u8>, pos: int) -> Result<(int, Seq<CardsView>), Fail>
    decreases s.len() - pos,
{
    if pos >= s.len() {
        Ok((pos, seq![]))
    } else {
        match cardes_at(s, pos) {
            Err(f) => Err(f),
            Ok((p, c)) => if p <= pos || p > s.len() {
                Err(Fail::Error)
            } else {
                prepend(seq![c], cards_from(s, p))
            },
        }
    }
}

/// Every hand that the reading of the input reaches has a type (it is not
/// made of jokers alone, unless of exactly five of them).
pub open spec fn hands_have_types(s: Seq<u8>, pos: int) -> bool
    decreases s.len() - pos,
{
    pos >= s.len() || match hand_line_at(s, pos) {
        Err(_) => true,
        Ok((p, (vals, _))) => has_hand(vals) && (p <= pos || p > s.len() || hands_have_types(
            s,
            p,
        )),
    }
}

fn card_value_exec(b: u8) -> (v: u8)
    requires
        is_card(b),
    ensures
        v == card_value(b),
{
    if b == 'T' as u8 {
        10
    } else if b == 'J' as u8 {
        1
    } else if b == 'Q' as u8 {
        12
    } else if b == 'K' as u8 {
        13
    } else if b == 'A' as u8 {
        14
    } else {
        b - '0' as u8
    }
}

fn is_card_exec(b: u8) -> (r: bool)
    ensures
        r == is_card(b),
{
    ('2' as u8 <= b && b <= '9' as u8) || b == 'T' as u8 || b == 'J' as u8 || b == 'Q' as u8 || b
        == 'K' as u8 || b == 'A' as u8
}

/// Reads one hand line up to its bid: the card values and the bid.
pub fn hand_line(s: &[u8], pos: usize) -> (r: Result<(usize, (Vec<u8>, u64)), Fail>)
    requires
        pos <= s.len(),
    ensures
        match r {
            Ok((p, (v, bid))) => hand_line_at(s@, pos as int) == Ok::<(int, (Seq<u8>, u64)), Fail>(
                (p as int, (v@, bid)),
            ) && pos < p <= s.len() && v@.len() <= s.len(),
            Err(f) => hand_line_at(s@, pos as int) == Err::<(int, (Seq<u8>, u64)), Fail>(f),
        },
{
    let mut p1 = pos;
    while p1 < s.len() && is_card_exec(s[p1])
        invariant
            pos <= p1 <= s.len(),
            card_run(s@, pos as int) == (p1 - pos) + card_run(s@, p1 as int),
        decreases s.len() - p1,
    {
        p1 += 1;
    }
    proof {
        lemma_card_run(s@, p1 as int);
    }
    if p1 == pos {
        return Err(Fail::Error);
    }
    let p2 = skip_spaces(s, p1);
    proof {
        lemma_space_run(s@, p1 as int);
        lemma_take_digits(s@, p2 as int, 1, 20, false);
    }
    let len = match take_digits_exec(s, p2, 1, 20, false) {
        Ok(len) => len,
        Err(f) => return Err(f),
    };
    let v = decimal_exec(s, p2, p2 + len);
    if v > u64::MAX as u128 {
        return Err(Fail::Error);
    }
    let bid = v as u64;
    let p3 = p2 + len;
    let p4 = if tag_byte(s, p3, '\n' as u8) { p3 + 1 } else { p3 };
    let ghost run = s@.subrange(pos as int, p1 as int);
    let mut values: Vec<u8> = Vec::new();
    let mut k = pos;
    while k < p1
        invariant
            pos <= k <= p1 <= s.len(),
            card_run(s@, pos as int) == (p1 - pos) + card_run(s@, p1 as int),
            run == s@.subrange(pos as int, p1 as int),
            values@ == run.take(k - pos).map_values(|b: u8| card_value(b)),
        decreases p1 - k,
    {
        proof {
            lemma_card_run_prefix(s@, pos as int, k as int, p1 as int);
        }
        let c = card_value_exec(s[k]);
        values.push(c);
        assert(run.take(k + 1 - pos) =~= run.take(k - pos).push(s@[k as int]));
        assert(values@ =~= run.take(k + 1 - pos).map_values(|b: u8| card_value(b)));
        k += 1;
    }
    assert(run.take(p1 - pos) =~= run);
    Ok((p4, (values, bid)))
}

/// Reads one hand line.
pub fn cardes(s: &[u8], pos: usize) -> (r: Result<(usize, Cards), Fail>)
    requires
        pos <= s.len(),
        s.len() <= isize::MAX,
        hand_line_at(s@, pos as int) matches Ok((_, (vals, _))) ==> has_hand(vals),
    ensures
        at_view(r) == cardes_at(s@, pos as int),
        r matches Ok((p, _)) ==> pos < p <= s.len(),
{
    let (p4, (values, bid)) = match hand_line(s, pos) {
        Ok(x) => x,
        Err(f) => return Err(f),
    };
    let mut again: Vec<u8> = Vec::new();
    let mut t: usize = 0;
    while t < values.len()
        invariant
            t <= values.len(),
            again@ == values@.take(t as int),
        decreases values.len() - t,
    {
        again.push(values[t]);
        assert(again@ =~= values@.take(t + 1));
        t += 1;
    }
    assert(again@ =~= values@);
    let hand = cards_to_hand(again);
    Ok((p4, Cards { cards: values, hand, bid }))
}

proof fn lemma_card_run_prefix(s: Seq<u8>, pos: int, k: int, end: int)
    requires
        0 <= pos <= k < end <= s.len(),
        card_run(s, pos) == (end - pos) + card_run(s, end),
    ensures
        is_card(s[k]),
    decreases k - pos,
{
    lemma_card_run(s, end);
    assert(card_run(s, pos) == 1 + card_run(s, pos + 1));
    if k > pos {
        lemma_card_run_prefix(s, pos + 1, k, end);
    }
}

/// Reads hand lines up to the end of the input.
pub fn cards(s: &[u8]) -> (r: Result<(usize, Vec<Cards>), Fail>)
    requires
        s.len() <= isize::MAX,
        hands_have_types(s@, 0),
    ensures
        match r {
            Ok((p, hs)) => cards_from(s@, 0) == Ok::<(int, Seq<CardsView>), Fail>(
                (p as int, hs@.map_values(|c: Cards| c@)),
            ),
            Err(f) => cards_from(s@, 0) == Err::<(int, Seq<CardsView>), Fail>(f),
        },
{
    let mut out: Vec<Cards> = Vec::new();
    let mut p: usize = 0;
    loop
        invariant
            p <= s.len(),
            s.len() <= isize::MAX,
            hands_have_types(s@, p as int),
            prepend(out@.map_values(|c: Cards| c@), cards_from(s@, p as int)) == cards_from(s@, 0),
        decreases s.len() - p,
    {
        if p == s.len() {
            proof {
                lemma_prepend_empty(out@.map_values(|c: Cards| c@), p as int);
            }
            return Ok((p, out));
        }
        match cardes(s, p) {
            Ok((p2, c)) => {
                proof {
                    lemma_prepend_push(
                        out@.map_values(|c: Cards| c@),
                        c@,
                        cards_from(s@, p2 as int),
                    );
                }
                let ghost before = out@;
                out.push(c);
                assert(out@.map_values(|c: Cards| c@) =~= before.map_values(|c: Cards| c@).push(
                    c@,
                ));
                p = p2;
            },
            Err(f) => {
                return Err(f);
            },
        }
    }
}

/// Reads the hand lines of the input and returns where reading stopped and
/// the total winnings of the hands.
pub fn a(body: &[u8]) -> (r: Result<(usize, u64), Fail>)
    requires
        body.len() <= isize::MAX,
        hands_have_types(body@, 0),
        cards_from(body@, 0) matches Ok((_, hs)) ==> winnings(hs) <= u64::MAX,
    ensures
        match cards_from(body@, 0) {
            Ok((p, hs)) => r matches Ok((q, w)) && q == p && w == winnings(hs),
            Err(f) => r == Err::<(usize, u64), Fail>(f),
        },
{
    match cards(body) {
        Ok((p, hands)) => {
            let w = total_winnings(&hands);
            Ok((p, w))
        },
        Err(f) => Err(f),
    }
}

/// Every hand that the reading of the input reaches has a type.
pub fn hands_typed(s: &[u8]) -> (r: bool)
    requires
        s.len() <= isize::MAX,
    ensures
        r == hands_have_types(s@, 0),
{
    let mut p: usize = 0;
    loop
        invariant
            p <= s.len() <= isize::MAX,
            hands_have_types(s@, 0) == hands_have_types(s@, p as int),
        decreases s.len() - p,
    {
        if p == s.len() {
            return true;
        }
        match hand_line(s, p) {
            Err(_) => {
                return true;
            },
            Ok((p2, (values, _))) => {
                if !hand_exists(values) {
                    return false;
                }
                p = p2;
            },
        }
    }
}

/// The total winnings of the hands fit in a `u64`.
pub fn winnings_fit(hs: &Vec<Cards>) -> (r: bool)
    ensures
        r == (winnings(hs@.map_values(|c: Cards| c@)) <= u64::MAX),
{
    let ghost v = hs@.map_values(|c: Cards| c@);
    let n = hs.len() as u128;
    let mut acc: u128 = 0;
    let mut i: usize = 0;
    while i < hs.len()
        invariant
            i <= hs.len(),
            n == hs.len(),
            v == hs@.map_values(|c: Cards| c@),
            acc == winnings_upto(v, i as int),
            acc <= u64::MAX,
        decreases hs.len() - i,
    {
        let r = position_of(hs, i);
        proof {
            lemma_winnings_upto(v, i + 1);
        }
        let k = n - r as u128;
        assert(hs[i as int].bid as u128 * k <= 0xffff_ffff_ffff_fffe_0000_0000_0000_0001u128)
            by (nonlinear_arith)
            requires
                hs[i as int].bid <= 0xffff_ffff_ffff_ffffu64,
                k <= 0xffff_ffff_ffff_ffffu128,
        ;
        acc = acc + hs[i].bid as u128 * k;
        if acc > 0xffff_ffff_ffff_ffff {
            return false;
        }
        i += 1;
    }
    true
}


// ---------------------------------------------------------------------------
// A joker never weakens a hand
// ---------------------------------------------------------------------------

/// The total size of the groups.
pub open spec fn sizes_sum(g: Seq<(usize, u8)>) -> int
    decreases g.len(),
{
    if g.len() == 0 {
        0
    } else {
        sizes_sum(g.drop_last()) + g.last().0
    }
}

/// The size of the largest group (0 when there is none).
pub open spec fn max_size(g: Seq<(usize, u8)>) -> int
    decreases g.len(),
{
    if g.len() == 0 {
        0
    } else if max_size(g.drop_last()) < g.last().0 {
        g.last().0 as int
    } else {
        max_size(g.drop_last())
    }
}

proof fn lemma_runs_count(s: Seq<u8>)
    requires
        sorted_by(s, ascending()),
        s.len() <= usize::MAX,
    ensures
        forall|i: int|
            0 <= i < runs(s).len() ==> (#[trigger] runs(s)[i]).0 == s.to_multiset().count(
                runs(s)[i].1,
            ),
        forall|y: u8|
            s.to_multiset().count(y) > 0 ==> exists|i: int|
                0 <= i < runs(s).len() && (#[trigger] runs(s)[i]).1 == y,
        sizes_sum(runs(s)) == s.len(),
    decreases s.len(),
{
    broadcast use vstd::seq_lib::group_to_multiset_ensures;

    if s.len() > 0 {
        let t = s.drop_last();
        let l = s.last();
        assert(sorted_by(t, ascending()));
        lemma_runs_count(t);
        lemma_runs(t);
        assert(s =~= t.push(l));
        assert(s.to_multiset() =~= t.to_multiset().insert(l));
        let r = runs(t);
        let u = runs(s);
        if r.len() > 0 && r.last().1 == l {
            assert forall|i: int| 0 <= i < u.len() implies (#[trigger] u[i]).0
                == s.to_multiset().count(u[i].1) by {
                if i < r.len() - 1 {
                    assert(u[i] == r[i]);
                    assert(r[i].1 < r[r.len() - 1].1);
                }
            }
            assert forall|y: u8| s.to_multiset().count(y) > 0 implies exists|i: int|
                0 <= i < u.len() && (#[trigger] u[i]).1 == y by {
                if y == l {
                    assert(u[r.len() - 1].1 == y);
                } else {
                    assert(t.to_multiset().count(y) > 0);
                    let i = choose|i: int| 0 <= i < r.len() && (#[trigger] r[i]).1 == y;
                    assert(u[i].1 == y);
                }
            }
            assert(u.drop_last() =~= r.drop_last());
            assert(r =~= r.drop_last().push(r.last()));
        } else {
            assert(!t.contains(l)) by {
                if t.contains(l) {
                    let j = choose|j: int| 0 <= j < t.len() && t[j] == l;
                    assert(ascending()(t[j], t[t.len() - 1]) || j == t.len() - 1);
                    assert(ascending()(s[t.len() - 1], s[s.len() - 1]));
                }
            }
            assert(t.to_multiset().count(l) == 0);
            assert forall|i: int| 0 <= i < u.len() implies (#[trigger] u[i]).0
                == s.to_multiset().count(u[i].1) by {
                if i < r.len() {
                    assert(u[i] == r[i]);
                    assert(t.contains(r[i].1));
                }
            }
            assert forall|y: u8| s.to_multiset().count(y) > 0 implies exists|i: int|
                0 <= i < u.len() && (#[trigger] u[i]).1 == y by {
                if y == l {
                    assert(u[r.len() as int].1 == y);
                } else {
                    assert(t.to_multiset().count(y) > 0);
                    let i = choose|i: int| 0 <= i < r.len() && (#[trigger] r[i]).1 == y;
                    assert(u[i].1 == y);
                }
            }
            assert(u.drop_last() =~= r);
        }
    }
}


/// The hand type of groups whose largest holds `m` cards and which hold `e`
/// cards more than there are groups.
pub open spec fn shape(m: int, e: int) -> Hand {
    if m >= 5 {
        Hand::Five
    } else if m == 4 {
        Hand::Chariot
    } else if m == 3 {
        if e >= 3 {
            Hand::FullHouse
        } else {
            Hand::Three
        }
    } else if m == 2 {
        if e >= 2 {
            Hand::TwoPair
        } else {
            Hand::Pair
        }
    } else {
        Hand::High
    }
}

proof fn lemma_fold(g: Seq<(usize, u8)>)
    requires
        g.len() >= 1,
        forall|i: int| 0 <= i < g.len() ==> (#[trigger] g[i]).0 >= 1,
        sizes_sum(g) <= 5,
    ensures
        combine_all(g.map_values(|x: (usize, u8)| hand_of_size(x.0))) == shape(
            max_size(g),
            sizes_sum(g) - g.len(),
        ),
        1 <= max_size(g),
        max_size(g) - 1 <= sizes_sum(g) - g.len() <= g.len() * (max_size(g) - 1),
    decreases g.len(),
{
    let t = g.drop_last();
    let hs = g.map_values(|x: (usize, u8)| hand_of_size(x.0));
    assert(hs.drop_last() =~= t.map_values(|x: (usize, u8)| hand_of_size(x.0)));
    if t.len() == 0 {
        assert(sizes_sum(t) == 0);
        assert(g[0].0 >= 1);
        assert(g.last() == g[0]);
        assert(hs.len() == 1);
        assert(combine_all(hs) == hs[0]);
        assert(max_size(t) == 0);
        assert(max_size(g) == g[0].0);
        assert(sizes_sum(g) == g[0].0);
        assert(g.len() == 1);
        assert(g.len() * (max_size(g) - 1) == max_size(g) - 1);
    } else {
        assert(sizes_sum(t) >= 0) by {
            lemma_sizes_nonneg(t);
        }
        assert(g[g.len() - 1].0 >= 1);
        lemma_fold(t);
        let m = max_size(t);
        let n = t.len();
        let e = sizes_sum(t) - n;
        let sz = g.last().0 as int;
        let m2 = max_size(g);
        assert(m2 == if m < sz { sz } else { m });
        assert(e + sz - 1 <= (n + 1) * (m2 - 1)) by (nonlinear_arith)
            requires
                e <= n * (m - 1),
                m <= m2,
                sz <= m2,
                n >= 0,
        ;
        assert(m == 1 ==> e == 0) by (nonlinear_arith)
            requires
                e <= n * (m - 1),
                m - 1 <= e,
        ;
        assert(m == 2 ==> e <= n) by (nonlinear_arith)
            requires
                e <= n * (m - 1),
        ;
        assert(hs.last() == hand_of_size(sz as usize));
        assert(combine_all(hs) == combine(combine_all(hs.drop_last()), hs.last()));
        assert(sizes_sum(g) == sizes_sum(t) + sz);
        assert(combine(shape(m, e), hand_of_size(sz as usize)) == shape(m2, e + sz - 1));
        assert(sizes_sum(g) - g.len() == e + sz - 1);
        assert(g.len() == n + 1);
    }
}

proof fn lemma_sizes_nonneg(g: Seq<(usize, u8)>)
    ensures
        sizes_sum(g) >= 0,
    decreases g.len(),
{
    if g.len() > 0 {
        lemma_sizes_nonneg(g.drop_last());
    }
}


proof fn lemma_kept_members(g: Seq<(usize, u8)>)
    ensures
        forall|i: int|
            0 <= i < kept_groups(g).len() ==> !is_loose_joker(#[trigger] kept_groups(g)[i])
                && exists|j: int| 0 <= j < g.len() && g[j] == kept_groups(g)[i],
        forall|j: int|
            0 <= j < g.len() && !is_loose_joker(#[trigger] g[j]) ==> exists|i: int|
                0 <= i < kept_groups(g).len() && kept_groups(g)[i] == g[j],
    decreases g.len(),
{
    if g.len() > 0 {
        let t = g.drop_last();
        let l = g.last();
        lemma_kept_members(t);
        let kt = kept_groups(t);
        let kg = kept_groups(g);
        if is_loose_joker(l) {
            assert(kg == kt);
            assert forall|i: int| 0 <= i < kg.len() implies !is_loose_joker(#[trigger] kg[i])
                && exists|j: int| 0 <= j < g.len() && g[j] == kg[i] by {
                let j = choose|j: int| 0 <= j < t.len() && t[j] == kt[i];
                assert(g[j] == kg[i]);
            }
            assert forall|j: int| 0 <= j < g.len() && !is_loose_joker(#[trigger] g[j]) implies exists|i: int|
                0 <= i < kg.len() && kg[i] == g[j] by {
                assert(t[j] == g[j]);
            }
        } else {
            assert(kg == kt.push(l));
            assert forall|i: int| 0 <= i < kg.len() implies !is_loose_joker(#[trigger] kg[i])
                && exists|j: int| 0 <= j < g.len() && g[j] == kg[i] by {
                if i < kt.len() {
                    assert(kg[i] == kt[i]);
                    let j = choose|j: int| 0 <= j < t.len() && t[j] == kt[i];
                    assert(g[j] == kg[i]);
                } else {
                    assert(g[g.len() - 1] == kg[i]);
                }
            }
            assert forall|j: int| 0 <= j < g.len() && !is_loose_joker(#[trigger] g[j]) implies exists|i: int|
                0 <= i < kg.len() && kg[i] == g[j] by {
                if j < t.len() {
                    assert(t[j] == g[j]);
                    let i = choose|i: int| 0 <= i < kt.len() && kt[i] == t[j];
                    assert(kg[i] == g[j]);
                } else {
                    assert(kg[kt.len() as int] == g[j]);
                }
            }
        }
    }
}

proof fn lemma_kept_sizes(g: Seq<(usize, u8)>)
    requires
        distinct_values(g),
    ensures
        sizes_sum(kept_groups(g)) + joker_count(g) == sizes_sum(g),
        forall|j: int| 0 <= j < g.len() && is_loose_joker(#[trigger] g[j]) ==> joker_count(g) == g[j].0,
        (forall|j: int| 0 <= j < g.len() ==> !is_loose_joker(#[trigger] g[j])) ==> joker_count(g) == 0,
    decreases g.len(),
{
    if g.len() > 0 {
        let t = g.drop_last();
        let l = g.last();
        assert(distinct_values(t));
        lemma_kept_sizes(t);
        let kt = kept_groups(t);
        let kg = kept_groups(g);
        assert forall|j: int| 0 <= j < t.len() implies #[trigger] t[j] == g[j] && t[j].1 != l.1 by {
            assert(g[j].1 != g[g.len() - 1].1);
        }
        if is_loose_joker(l) {
            assert(kg == kt);
            assert forall|j: int| 0 <= j < t.len() implies !is_loose_joker(#[trigger] t[j]) by {
                assert(t[j] == g[j]);
            }
        } else {
            assert(kg == kt.push(l));
            assert(kg.drop_last() =~= kt);
            assert forall|j: int| 0 <= j < g.len() && is_loose_joker(#[trigger] g[j]) implies joker_count(g)
                == g[j].0 by {
                assert(j < t.len());
                assert(t[j] == g[j]);
            }
            if forall|j: int| 0 <= j < g.len() ==> !is_loose_joker(#[trigger] g[j]) {
                assert forall|j: int| 0 <= j < t.len() implies !is_loose_joker(#[trigger] t[j]) by {
                    assert(t[j] == g[j]);
                }
            }
        }
    }
}


proof fn lemma_max_size(g: Seq<(usize, u8)>, i: int)
    requires
        0 <= i < g.len(),
    ensures
        max_size(g) >= g[i].0,
        (forall|j: int| 0 <= j < g.len() ==> (#[trigger] g[j]).0 <= g[i].0) ==> max_size(g) == g[i].0,
    decreases g.len(),
{
    let t = g.drop_last();
    if i < t.len() {
        lemma_max_size(t, i);
        if forall|j: int| 0 <= j < g.len() ==> (#[trigger] g[j]).0 <= g[i].0 {
            assert forall|j: int| 0 <= j < t.len() implies (#[trigger] t[j]).0 <= t[i].0 by {
                assert(t[j] == g[j]);
            }
        }
    } else if t.len() > 0 {
        if forall|j: int| 0 <= j < g.len() ==> (#[trigger] g[j]).0 <= g[i].0 {
            lemma_max_size_bound(t, g[i].0 as int);
        }
        lemma_max_size_nonneg(t);
    } else {
        assert(max_size(t) == 0);
    }
}

proof fn lemma_max_size_nonneg(g: Seq<(usize, u8)>)
    ensures
        max_size(g) >= 0,
    decreases g.len(),
{
    if g.len() > 0 {
        lemma_max_size_nonneg(g.drop_last());
    }
}

proof fn lemma_max_size_bound(g: Seq<(usize, u8)>, b: int)
    requires
        forall|j: int| 0 <= j < g.len() ==> (#[trigger] g[j]).0 <= b,
        b >= 0,
    ensures
        max_size(g) <= b,
    decreases g.len(),
{
    if g.len() > 0 {
        let t = g.drop_last();
        assert forall|j: int| 0 <= j < t.len() implies (#[trigger] t[j]).0 <= b by {
            assert(t[j] == g[j]);
        }
        lemma_max_size_bound(t, b);
        assert(g[g.len() - 1].0 <= b);
    }
}

proof fn lemma_sizes_update(g: Seq<(usize, u8)>, i: int, x: (usize, u8))
    requires
        0 <= i < g.len(),
    ensures
        sizes_sum(g.update(i, x)) == sizes_sum(g) - g[i].0 + x.0,
    decreases g.len(),
{
    let u = g.update(i, x);
    if i < g.len() - 1 {
        assert(u.drop_last() =~= g.drop_last().update(i, x));
        lemma_sizes_update(g.drop_last(), i, x);
    } else {
        assert(u.drop_last() =~= g.drop_last());
    }
}


proof fn lemma_groups_count(v: Seq<u8>)
    requires
        v.len() <= usize::MAX,
    ensures
        ascending_groups(card_groups(v), v.len() as int),
        forall|i: int|
            0 <= i < card_groups(v).len() ==> (#[trigger] card_groups(v)[i]).0
                == v.to_multiset().count(card_groups(v)[i].1),
        forall|y: u8|
            v.to_multiset().count(y) > 0 ==> exists|i: int|
                0 <= i < card_groups(v).len() && (#[trigger] card_groups(v)[i]).1 == y,
        sizes_sum(card_groups(v)) == v.len(),
{
    broadcast use vstd::seq_lib::group_to_multiset_ensures;

    let leq = ascending();
    assert(total_ordering(leq)) by {
        assert(vstd::relations::reflexive(leq));
        assert(vstd::relations::antisymmetric(leq));
        assert(vstd::relations::transitive(leq));
        assert(vstd::relations::strongly_connected(leq));
    }
    v.lemma_sort_by_ensures(leq);
    let s = v.sort_by(leq);
    assert(s.len() == v.len()) by {
        assert(s.to_multiset().len() == v.to_multiset().len());
    }
    lemma_runs(s);
    lemma_runs_count(s);
    assert forall|y: u8| v.to_multiset().count(y) > 0 implies exists|i: int|
        0 <= i < card_groups(v).len() && (#[trigger] card_groups(v)[i]).1 == y by {
        assert(s.to_multiset().count(y) > 0);
        let i = choose|i: int| 0 <= i < runs(s).len() && (#[trigger] runs(s)[i]).1 == y;
        assert(card_groups(v)[i].1 == y);
    }
}

/// The card values other than jokers that a hand holds.
pub open spec fn plain_values(c: Multiset<u8>) -> Set<u8> {
    Set::new(|y: u8| y != 1 && c.count(y) > 0)
}

proof fn lemma_kept_counts(v: Seq<u8>)
    requires
        v.len() <= usize::MAX,
    ensures
        ({
            let c = v.to_multiset();
            let k = kept_groups(card_groups(v));
            &&& forall|i: int|
                0 <= i < k.len() ==> !is_loose_joker(#[trigger] k[i]) && k[i].0 == c.count(k[i].1)
                    && k[i].0 >= 1
            &&& forall|y: u8|
                y != 1 && c.count(y) > 0 ==> exists|i: int| 0 <= i < k.len() && (#[trigger] k[i]).1 == y
            &&& ascending_groups(k, v.len() as int)
        }),
{
    let c = v.to_multiset();
    let g = card_groups(v);
    let k = kept_groups(g);
    lemma_groups_count(v);
    lemma_kept_groups(g, v.len() as int);
    lemma_kept_members(g);
    assert forall|i: int| 0 <= i < k.len() implies !is_loose_joker(#[trigger] k[i]) && k[i].0 == c.count(
        k[i].1,
    ) && k[i].0 >= 1 by {
        let j = choose|j: int| 0 <= j < g.len() && g[j] == k[i];
    }
    assert forall|y: u8| y != 1 && c.count(y) > 0 implies exists|i: int|
        0 <= i < k.len() && (#[trigger] k[i]).1 == y by {
        let j = choose|j: int| 0 <= j < g.len() && (#[trigger] g[j]).1 == y;
        assert(!is_loose_joker(g[j]));
        let i = choose|i: int| 0 <= i < k.len() && k[i] == g[j];
        assert(k[i].1 == y);
    }
}

proof fn lemma_joker_total(v: Seq<u8>)
    requires
        v.len() == 5,
        v.to_multiset().count(1) < 5,
    ensures
        joker_count(card_groups(v)) == v.to_multiset().count(1),
        sizes_sum(kept_groups(card_groups(v))) + v.to_multiset().count(1) == 5,
{
    let c = v.to_multiset();
    let g = card_groups(v);
    lemma_groups_count(v);
    assert(distinct_values(g));
    lemma_kept_sizes(g);
    if c.count(1) > 0 {
        let j = choose|j: int| 0 <= j < g.len() && (#[trigger] g[j]).1 == 1;
        assert(is_loose_joker(g[j]));
    } else {
        assert forall|j: int| 0 <= j < g.len() implies !is_loose_joker(#[trigger] g[j]) by {
            assert(1 <= g[j].0);
        }
    }
}

proof fn lemma_hand_facts(v: Seq<u8>)
    requires
        v.len() == 5,
        v.to_multiset().count(1) < 5,
    ensures
        ({
            let c = v.to_multiset();
            let k = kept_groups(card_groups(v));
            &&& joker_count(card_groups(v)) == c.count(1)
            &&& forall|i: int|
                0 <= i < k.len() ==> (#[trigger] k[i]).1 != 1 && k[i].0 == c.count(k[i].1)
                    && k[i].0 >= 1
            &&& forall|y: u8|
                y != 1 && c.count(y) > 0 ==> exists|i: int| 0 <= i < k.len() && (#[trigger] k[i]).1 == y
            &&& ascending_groups(k, 5)
            &&& sizes_sum(k) + c.count(1) == 5
            &&& k.len() >= 1
            &&& plain_values(c).finite()
            &&& plain_values(c).len() == k.len()
        }),
{
    let c = v.to_multiset();
    let k = kept_groups(card_groups(v));
    lemma_kept_counts(v);
    lemma_joker_total(v);
    assert forall|i: int| 0 <= i < k.len() implies (#[trigger] k[i]).1 != 1 by {
        assert(!is_loose_joker(k[i]));
    }
    if k.len() == 0 {
        assert(sizes_sum(k) == 0);
    }
    lemma_plain_values(k, c);
}

proof fn lemma_plain_values(k: Seq<(usize, u8)>, c: Multiset<u8>)
    requires
        forall|i: int|
            0 <= i < k.len() ==> (#[trigger] k[i]).1 != 1 && k[i].0 == c.count(k[i].1) && k[i].0 >= 1,
        forall|y: u8|
            y != 1 && c.count(y) > 0 ==> exists|i: int| 0 <= i < k.len() && (#[trigger] k[i]).1 == y,
        ascending_groups(k, 5),
    ensures
        plain_values(c).finite(),
        plain_values(c).len() == k.len(),
{
    let kv = k.map_values(|x: (usize, u8)| x.1);
    assert(kv.no_duplicates()) by {
        assert forall|a: int, b: int| 0 <= a < kv.len() && 0 <= b < kv.len() && a != b implies kv[a]
            != kv[b] by {
            if a < b {
                assert(k[a].1 < k[b].1);
            } else {
                assert(k[b].1 < k[a].1);
            }
        }
    }
    kv.unique_seq_to_set();
    assert(kv.to_set() =~= plain_values(c)) by {
        assert forall|y: u8| plain_values(c).contains(y) implies kv.to_set().contains(y) by {
            let i = choose|i: int| 0 <= i < k.len() && (#[trigger] k[i]).1 == y;
            assert(kv[i] == y);
        }
        assert forall|y: u8| kv.to_set().contains(y) implies plain_values(c).contains(y) by {
            let i = choose|i: int| 0 <= i < kv.len() && kv[i] == y;
            assert(k[i].1 == y);
        }
    }
    vstd::seq_lib::seq_to_set_is_finite(kv);
}


/// The largest group other than loose jokers: the one they join.
pub open spec fn top_group(v: Seq<u8>) -> (usize, u8) {
    let k = kept_groups(card_groups(v));
    k[max_pos(k, k.len() as int)]
}

/// The type of a five-card hand that is not all jokers, stated directly:
/// with `k` distinct values other than the joker, and the jokers joining the
/// largest group `top_group(v)` to make a group of `mx` cards, the type is
/// `shape(mx, 5 - k)`: five of a kind for one group, four of a kind or a
/// full house for two, three of a kind or two pair for three, one pair for
/// four, high card for five.
pub proof fn law_hand_shape(v: Seq<u8>)
    requires
        v.len() == 5,
        v.to_multiset().count(1) < 5,
    ensures
        ({
            let c = v.to_multiset();
            let k = kept_groups(card_groups(v)).len() as int;
            let mx = top_group(v).0 + c.count(1);
            &&& has_hand(v)
            &&& hand_type(v) == shape(mx, 5 - k)
            &&& 1 <= mx
            &&& mx - 1 <= 5 - k <= k * (mx - 1)
            &&& 1 <= k
            &&& plain_values(c).finite()
            &&& plain_values(c).len() == k
            &&& top_group(v).1 != 1
            &&& c.count(top_group(v).1) == top_group(v).0
            &&& forall|y: u8| y != 1 && c.count(y) > 0 ==> c.count(y) <= top_group(v).0
        }),
{
    let c = v.to_multiset();
    lemma_hand_facts(v);
    let g = card_groups(v);
    let k = kept_groups(g);
    let jk = joker_count(g);
    assert(distinct_values(k));
    lemma_max_pos(k, k.len() as int);
    let m = max_pos(k, k.len() as int);
    assert forall|j: int| 0 <= j < k.len() implies (#[trigger] k[j]).0 <= k[m].0 by {
        if j != m {
            assert(group_less(k[j], k[m]));
            assert(k[j].1 != 1 && k[m].1 != 1);
        }
    }
    let joined = joined_groups(v);
    assert(joined == k.update(m, ((k[m].0 + jk) as usize, k[m].1)));
    lemma_sizes_update(k, m, ((k[m].0 + jk) as usize, k[m].1));
    assert forall|j: int| 0 <= j < joined.len() implies 1 <= (#[trigger] joined[j]).0 <= joined[m].0 by {
        if j != m {
            assert(joined[j] == k[j]);
        }
    }
    lemma_max_size(joined, m);
    lemma_fold(joined);
    assert forall|y: u8| y != 1 && c.count(y) > 0 implies c.count(y) <= top_group(v).0 by {
        let i = choose|i: int| 0 <= i < k.len() && (#[trigger] k[i]).1 == y;
        assert(k[i].0 <= k[m].0);
    }
}


proof fn lemma_all_jokers_kept(v: Seq<u8>) -> (i: int)
    requires
        v.len() == 5,
        v.to_multiset().count(1) == 5,
    ensures
        joker_count(card_groups(v)) == 0,
        0 <= i < kept_groups(card_groups(v)).len(),
        kept_groups(card_groups(v))[i].0 == 5,
        ascending_groups(kept_groups(card_groups(v)), 5),
        sizes_sum(kept_groups(card_groups(v))) == 5,
{
    let g = card_groups(v);
    let k = kept_groups(g);
    lemma_groups_count(v);
    lemma_kept_groups(g, 5);
    lemma_kept_members(g);
    assert(distinct_values(g));
    lemma_kept_sizes(g);
    let j = choose|j: int| 0 <= j < g.len() && (#[trigger] g[j]).1 == 1;
    assert(!is_loose_joker(g[j]));
    assert forall|q: int| 0 <= q < g.len() implies !is_loose_joker(#[trigger] g[q]) by {
        if q != j {
            assert(g[q].1 != g[j].1);
        }
    }
    choose|i: int| 0 <= i < k.len() && k[i] == g[j]
}

proof fn lemma_all_jokers(v: Seq<u8>)
    requires
        v.len() == 5,
        v.to_multiset().count(1) == 5,
    ensures
        has_hand(v),
        hand_type(v) == Hand::Five,
{
    let k = kept_groups(card_groups(v));
    let i = lemma_all_jokers_kept(v);
    assert(distinct_values(k));
    lemma_max_pos(k, k.len() as int);
    assert(joined_groups(v) =~= k);
    lemma_max_size(k, i);
    lemma_fold(k);
}

proof fn lemma_valid_shape(k: int, mx: int)
    requires
        1 <= k,
        1 <= mx,
        mx - 1 <= 5 - k <= k * (mx - 1),
    ensures
        k == 1 ==> mx == 5,
        k == 2 ==> mx == 3 || mx == 4,
        k == 3 ==> mx == 2 || mx == 3,
        k == 4 ==> mx == 2,
        k == 5 ==> mx == 1,
        k <= 5,
{
    assert(k <= 5);
    if k == 1 {
    } else if k == 2 {
        assert(2 * (mx - 1) >= 3);
    } else if k == 3 {
        assert(3 * (mx - 1) >= 2);
    } else if k == 4 {
        assert(4 * (mx - 1) >= 1);
    }
}

/// Turning one card of a five-card hand into a joker never makes the hand
/// weaker: the new hand's type is at least as strong as the old one's.
pub proof fn law_joker_never_weakens(v: Seq<u8>, i: int)
    requires
        v.len() == 5,
        0 <= i < 5,
        v[i] != 1,
    ensures
        has_hand(v),
        has_hand(v.update(i, 1)),
        hand_rank(hand_type(v.update(i, 1))) <= hand_rank(hand_type(v)),
{
    broadcast use vstd::seq_lib::group_to_multiset_ensures;
    broadcast use vstd::multiset::group_multiset_axioms;
    broadcast use vstd::multiset::group_multiset_properties;

    let w = v.update(i, 1);
    let x = v[i];
    let cv = v.to_multiset();
    let cw = w.to_multiset();
    assert(cw == cv.insert(1).remove(x));
    assert(v.contains(x));
    assert(cv.count(x) >= 1);
    assert(cv.count(1) < 5) by {
        assert(v.remove(i).to_multiset() == cv.remove(x));
        assert(v.remove(i).len() == 4);
        assert(v.remove(i).to_multiset().count(1) <= v.remove(i).to_multiset().len());
    }
    law_hand_shape(v);
    if cw.count(1) == 5 {
        lemma_all_jokers(w);
    } else {
        law_hand_shape(w);
        let kv = kept_groups(card_groups(v)).len() as int;
        let kw = kept_groups(card_groups(w)).len() as int;
        let mxv = top_group(v).0 + cv.count(1);
        let mxw = top_group(w).0 + cw.count(1);
        assert(cw.count(1) == cv.count(1) + 1);
        assert(cw.count(x) + 1 == cv.count(x));
        assert forall|y: u8| y != 1 && y != x implies #[trigger] cw.count(y) == cv.count(y) by {}
        assert(plain_values(cw).subset_of(plain_values(cv)));
        vstd::set_lib::lemma_len_subset(plain_values(cw), plain_values(cv));
        let y0 = top_group(v).1;
        if y0 != x {
            assert(cw.count(y0) == cv.count(y0));
            assert(cw.count(y0) <= top_group(w).0);
            assert(mxw >= mxv);
        } else if cv.count(x) >= 2 {
            assert(cw.count(x) <= top_group(w).0);
            assert(mxw >= mxv);
        } else {
            assert(plain_values(cw).subset_of(plain_values(cv).remove(x)));
            vstd::set_lib::lemma_len_subset(plain_values(cw), plain_values(cv).remove(x));
            assert(plain_values(cv).contains(x));
            assert(kw < kv);
        }
        lemma_valid_shape(kv, mxv);
        lemma_valid_shape(kw, mxw);
    }
}


/// A hand with a card other than a joker, or with five cards, has a type.
pub proof fn law_hand_exists(v: Seq<u8>)
    requires
        v.len() <= usize::MAX,
        (exists|i: int| 0 <= i < v.len() && v[i] != 1) || v.len() == 5,
    ensures
        has_hand(v),
{
    broadcast use vstd::seq_lib::group_to_multiset_ensures;
    broadcast use vstd::multiset::group_multiset_axioms;

    let c = v.to_multiset();
    if exists|i: int| 0 <= i < v.len() && v[i] != 1 {
        let i = choose|i: int| 0 <= i < v.len() && v[i] != 1;
        assert(v.contains(v[i]));
        lemma_kept_counts(v);
        assert(c.count(v[i]) > 0);
    } else if c.count(1) < 5 {
        law_hand_shape(v);
    } else {
        assert(c.count(1) <= c.len());
        lemma_all_jokers(v);
    }
}


proof fn lemma_lex_first_difference(x: Seq<u8>, y: Seq<u8>, i: int)
    requires
        0 <= i < x.len(),
        i < y.len(),
        forall|j: int| 0 <= j < i ==> x[j] == y[j],
        x[i] != y[i],
    ensures
        cards_lex(x, y) == if x[i] > y[i] {
            Ordering::Less
        } else {
            Ordering::Greater
        },
    decreases i,
{
    if i > 0 {
        assert(x[0] == y[0]);
        lemma_lex_first_difference(x.drop_first(), y.drop_first(), i - 1);
    }
}

/// Between two hands of the same type, the first card in which they differ
/// decides, by card value: the hand with the higher card there is the
/// stronger one.  So the joker, of value 1, loses to every other card.
pub proof fn law_first_different_card_decides(a: CardsView, b: CardsView, i: int)
    requires
        hand_rank(a.hand) == hand_rank(b.hand),
        0 <= i < a.cards.len(),
        i < b.cards.len(),
        forall|j: int| 0 <= j < i ==> a.cards[j] == b.cards[j],
        a.cards[i] != b.cards[i],
    ensures
        a.cards[i] > b.cards[i] ==> cards_order(a, b) == Ordering::Less,
        a.cards[i] < b.cards[i] ==> cards_order(a, b) == Ordering::Greater,
{
    lemma_lex_first_difference(a.cards, b.cards, i);
}

/// Of two hands of different types, the one of the stronger type ranks
/// first, whatever the cards.
pub proof fn law_type_decides_first(a: CardsView, b: CardsView)
    requires
        hand_rank(a.hand) < hand_rank(b.hand),
    ensures
        cards_order(a, b) == Ordering::Less,
        cards_order(b, a) == Ordering::Greater,
{
}

/// The joker `J` has the lowest value of all cards.
pub proof fn law_joker_lowest_card(c: u8)
    requires
        is_card(c),
        c != 'J' as u8,
    ensures
        card_value('J' as u8) == 1,
        card_value('J' as u8) < card_value(c),
{
}

} // verus!
