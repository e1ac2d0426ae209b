//! Cube games: lines such as `Game 3: 8 green, 6 blue; 20 red` list the
//! handfuls of cubes shown in one game.  The answers are the sum of the ids
//! of the games that a given bag makes possible, and the sum of the powers
//! of the smallest bags that make each game possible.
use vstd::prelude::*;
use std::cmp::Ordering;
use crate::text::{
    Fail, at, at_view, decimal, decimal_exec, lemma_decimal_bound, lemma_pow10_mono,
    lemma_prepend_empty, lemma_prepend_push, lemma_take_digits, pow10, prepend, tag, tag_at,
    tag_byte, take_digits, take_digits_exec,
};

verus! {

/// A number of cubes of one colour.
#[derive(Clone, Copy, Debug, PartialEq, Eq, Structural)]
pub enum Ballsack {
    Red(u32),
    Green(u32),
    Blue(u32),
}

/// One handful: a count for each colour.
#[derive(Clone, Copy, Debug, PartialEq, Eq, Structural)]
pub struct Bag {
    pub ballsack_red: Ballsack,
    pub ballsack_green: Ballsack,
    pub ballsack_blue: Ballsack,
}

/// One game: its id and the handfuls shown.
#[derive(Debug)]
pub struct Game {
    pub gid: u32,
    pub bags: Vec<Bag>,
}

/// A game as plain values.
pub struct GameView {
    pub gid: u32,
    pub bags: Seq<Bag>,
}

impl View for Game {
    type V = GameView;

    open spec fn view(&self) -> GameView {
        GameView { gid: self.gid, bags: self.bags@ }
    }
}

/// The count held, whatever its colour.
pub open spec fn count_of(b: Ballsack) -> u32 {
    match b {
        Ballsack::Red(v) => v,
        Ballsack::Green(v) => v,
        Ballsack::Blue(v) => v,
    }
}

/// Position of the colour in the order red, green, blue.
pub open spec fn colour_rank(b: Ballsack) -> int {
    match b {
        Ballsack::Red(_) => 0,
        Ballsack::Green(_) => 1,
        Ballsack::Blue(_) => 2,
    }
}

/// Counts are ordered by colour first (red, green, blue), then by number.
pub open spec fn ballsack_less(a: Ballsack, b: Ballsack) -> bool {
    colour_rank(a) < colour_rank(b) || (colour_rank(a) == colour_rank(b) && count_of(a) < count_of(
        b,
    ))
}

/// Each field of the bag holds its own colour.
pub open spec fn well_coloured(b: Bag) -> bool {
    &&& b.ballsack_red is Red
    &&& b.ballsack_green is Green
    &&& b.ballsack_blue is Blue
}

/// `a <= b` for bags: no colour of `a` is above the same colour of `b`.
pub open spec fn bag_le(a: Bag, b: Bag) -> bool {
    &&& !ballsack_less(b.ballsack_red, a.ballsack_red)
    &&& !ballsack_less(b.ballsack_green, a.ballsack_green)
    &&& !ballsack_less(b.ballsack_blue, a.ballsack_blue)
}

/// `a` is above `b`: of a later colour, or of the same colour and more.
pub fn ballsack_is_greater(a: &Ballsack, b: &Ballsack) -> (r: bool)
    ensures
        r == ballsack_less(*b, *a),
{
    let (ra, va): (u8, u32) = match a {
        Ballsack::Red(v) => (0, *v),
        Ballsack::Green(v) => (1, *v),
        Ballsack::Blue(v) => (2, *v),
    };
    let (rb, vb): (u8, u32) = match b {
        Ballsack::Red(v) => (0, *v),
        Ballsack::Green(v) => (1, *v),
        Ballsack::Blue(v) => (2, *v),
    };
    rb < ra || (rb == ra && vb < va)
}

// ---------------------------------------------------------------------------
// The grammar of a game line
// ---------------------------------------------------------------------------

/// `Game ` at the start of a line.
pub open spec fn word_game() -> Seq<u8> {
    seq!['G' as u8, 'a' as u8, 'm' as u8, 'e' as u8, ' ' as u8]
}

/// The colour `red`.
pub open spec fn word_red() -> Seq<u8> {
    seq!['r' as u8, 'e' as u8, 'd' as u8]
}

/// The colour `green`.
pub open spec fn word_green() -> Seq<u8> {
    seq!['g' as u8, 'r' as u8, 'e' as u8, 'e' as u8, 'n' as u8]
}

/// The colour `blue`.
pub open spec fn word_blue() -> Seq<u8> {
    seq!['b' as u8, 'l' as u8, 'u' as u8, 'e' as u8]
}

/// A number of one to six digits; digits that run to the end of the line
/// leave it `Incomplete`.
pub open spec fn number_at(s: Seq<u8>, pos: int) -> Result<(int, u32), Fail> {
    match take_digits(s, pos, 1, 6, true) {
        Ok(len) => Ok((pos + len, decimal(s, pos, pos + len) as u32)),
        Err(f) => Err(f),
    }
}

/// `Game <id>:`
pub open spec fn game_id_at(s: Seq<u8>, pos: int) -> Result<(int, u32), Fail> {
    if !tag_at(s, pos, word_game()) {
        Err(Fail::Error)
    } else {
        match number_at(s, pos + 5) {
            Ok((p, id)) => if tag_at(s, p, seq![':' as u8]) {
                Ok((p + 1, id))
            } else {
                Err(Fail::Error)
            },
            Err(f) => Err(f),
        }
    }
}

/// `red`, `green` or `blue`, as 0, 1 or 2.
pub open spec fn colour_at(s: Seq<u8>, pos: int) -> Result<(int, int), Fail> {
    if tag_at(s, pos, word_red()) {
        Ok((pos + 3, 0))
    } else if tag_at(s, pos, word_green()) {
        Ok((pos + 5, 1))
    } else if tag_at(s, pos, word_blue()) {
        Ok((pos + 4, 2))
    } else {
        Err(Fail::Error)
    }
}

/// ` <n> <colour>` with an optional `,` after it.
pub open spec fn balls_at(s: Seq<u8>, pos: int) -> Result<(int, Ballsack), Fail> {
    if !tag_at(s, pos, seq![' ' as u8]) {
        Err(Fail::Error)
    } else {
        match number_at(s, pos + 1) {
            Err(f) => Err(f),
            Ok((p, n)) => if !tag_at(s, p, seq![' ' as u8]) {
                Err(Fail::Error)
            } else {
                match colour_at(s, p + 1) {
                    Err(f) => Err(f),
                    Ok((q, c)) => {
                        let q2 = if tag_at(s, q, seq![',' as u8]) { q + 1 } else { q };
                        Ok((
                            q2,
                            if c == 0 {
                                Ballsack::Red(n)
                            } else if c == 1 {
                                Ballsack::Green(n)
                            } else {
                                Ballsack::Blue(n)
                            },
                        ))
                    },
                }
            },
        }
    }
}

/// One to three `balls`, having already read `count` of them.
pub open spec fn balls_from(s: Seq<u8>, pos: int, count: int) -> Result<(int, Seq<Ballsack>), Fail>
    decreases 3 - count,
{
    if count >= 3 {
        Ok((pos, seq![]))
    } else {
        match balls_at(s, pos) {
            Ok((p, b)) => prepend(seq![b], balls_from(s, p, count + 1)),
            Err(Fail::Error) => if count < 1 {
                Err(Fail::Error)
            } else {
                Ok((pos, seq![]))
            },
            Err(Fail::Incomplete) => Err(Fail::Incomplete),
        }
    }
}

/// The bag that a list of counts describes: the last count given for each
/// colour, 0 for a colour not given.
pub open spec fn collect_bag(list: Seq<Ballsack>) -> Bag
    decreases list.len(),
{
    if list.len() == 0 {
        Bag {
            ballsack_red: Ballsack::Red(0),
            ballsack_green: Ballsack::Green(0),
            ballsack_blue: Ballsack::Blue(0),
        }
    } else {
        let b = collect_bag(list.drop_last());
        match list.last() {
            Ballsack::Red(_) => Bag { ballsack_red: list.last(), ..b },
            Ballsack::Green(_) => Bag { ballsack_green: list.last(), ..b },
            Ballsack::Blue(_) => Bag { ballsack_blue: list.last(), ..b },
        }
    }
}

/// A handful: one to three counts and an optional `;`.
pub open spec fn bag_at(s: Seq<u8>, pos: int) -> Result<(int, Bag), Fail> {
    match balls_from(s, pos, 0) {
        Err(f) => Err(f),
        Ok((p, list)) => Ok(
            (if tag_at(s, p, seq![';' as u8]) { p + 1 } else { p }, collect_bag(list)),
        ),
    }
}

/// Handfuls up to the end of the line.
pub open spec fn bags_from(s: Seq<u8>, pos: int) -> Result<(int, Seq<Bag>), Fail>
    decreases s.len() - pos,
{
    if pos >= s.len() {
        Ok((pos, seq![]))
    } else {
        match bag_at(s, pos) {
            Err(f) => Err(f),
            Ok((p, b)) => if p <= pos || p > s.len() {
                Err(Fail::Error)
            } else {
                prepend(seq![b], bags_from(s, p))
            },
        }
    }
}

/// A whole game line.
pub open spec fn game_at(s: Seq<u8>) -> Result<(int, GameView), Fail> {
    match game_id_at(s, 0) {
        Err(f) => Err(f),
        Ok((p, gid)) => match bags_from(s, p) {
            Err(f) => Err(f),
            Ok((q, bags)) => Ok((q, GameView { gid, bags })),
        },
    }
}

// ---------------------------------------------------------------------------
// Parsers
// ---------------------------------------------------------------------------

fn take_number(s: &[u8], pos: usize) -> (r: Result<(usize, u32), Fail>)
    requires
        pos <= s.len(),
    ensures
        at(r) == number_at(s@, pos as int),
        r matches Ok((p, _)) ==> pos < p <= s.len(),
{
    proof {
        lemma_take_digits(s@, pos as int, 1, 6, true);
    }
    match take_digits_exec(s, pos, 1, 6, true) {
        Ok(len) => {
            proof {
                lemma_decimal_bound(s@, pos as int, pos + len);
                lemma_pow10_mono(len as nat, 6);
                reveal_with_fuel(pow10, 7);
            }
            let v = decimal_exec(s, pos, pos + len);
            Ok((pos + len, v as u32))
        },
        Err(f) => Err(f),
    }
}

fn game_id(s: &[u8], pos: usize) -> (r: Result<(usize, u32), Fail>)
    requires
        pos <= s.len(),
    ensures
        at(r) == game_id_at(s@, pos as int),
        r matches Ok((p, _)) ==> pos < p <= s.len(),
{
    let w = vec!['G' as u8, 'a' as u8, 'm' as u8, 'e' as u8, ' ' as u8];
    assert(w@ =~= word_game());
    if !tag(s, pos, w.as_slice()) {
        return Err(Fail::Error);
    }
    match take_number(s, pos + 5) {
        Ok((p, id)) => if tag_byte(s, p, ':' as u8) {
            Ok((p + 1, id))
        } else {
            Err(Fail::Error)
        },
        Err(f) => Err(f),
    }
}

fn take_colour(s: &[u8], pos: usize) -> (r: Result<(usize, u8), Fail>)
    requires
        pos <= s.len(),
    ensures
        match r {
            Ok((p, c)) => colour_at(s@, pos as int) == Ok::<(int, int), Fail>((p as int, c as int)),
            Err(f) => colour_at(s@, pos as int) == Err::<(int, int), Fail>(f),
        },
        r matches Ok((p, _)) ==> pos < p <= s.len(),
{
    let red = vec!['r' as u8, 'e' as u8, 'd' as u8];
    let green = vec!['g' as u8, 'r' as u8, 'e' as u8, 'e' as u8, 'n' as u8];
    let blue = vec!['b' as u8, 'l' as u8, 'u' as u8, 'e' as u8];
    assert(red@ =~= word_red());
    assert(green@ =~= word_green());
    assert(blue@ =~= word_blue());
    if tag(s, pos, red.as_slice()) {
        Ok((pos + 3, 0))
    } else if tag(s, pos, green.as_slice()) {
        Ok((pos + 5, 1))
    } else if tag(s, pos, blue.as_slice()) {
        Ok((pos + 4, 2))
    } else {
        Err(Fail::Error)
    }
}

fn balls(s: &[u8], pos: usize) -> (r: Result<(usize, Ballsack), Fail>)
    requires
        pos <= s.len(),
    ensures
        at(r) == balls_at(s@, pos as int),
        r matches Ok((p, _)) ==> pos < p <= s.len(),
{
    if !tag_byte(s, pos, ' ' as u8) {
        return Err(Fail::Error);
    }
    let (p, n) = match take_number(s, pos + 1) {
        Ok(x) => x,
        Err(f) => return Err(f),
    };
    if !tag_byte(s, p, ' ' as u8) {
        return Err(Fail::Error);
    }
    let (q, c) = match take_colour(s, p + 1) {
        Ok(x) => x,
        Err(f) => return Err(f),
    };
    let q2 = if tag_byte(s, q, ',' as u8) { q + 1 } else { q };
    let b = if c == 0 {
        Ballsack::Red(n)
    } else if c == 1 {
        Ballsack::Green(n)
    } else {
        Ballsack::Blue(n)
    };
    Ok((q2, b))
}

fn bag(s: &[u8], pos: usize) -> (r: Result<(usize, Bag), Fail>)
    requires
        pos <= s.len(),
    ensures
        at(r) == bag_at(s@, pos as int),
        r matches Ok((p, _)) ==> pos < p <= s.len(),
{
    let mut list: Vec<Ballsack> = Vec::new();
    let mut p = pos;
    let mut count: usize = 0;
    let mut done = false;
    while count < 3 && !done
        invariant
            pos <= p <= s.len(),
            count <= 3,
            count == list.len(),
            count > 0 ==> pos < p,
            prepend(list@, balls_from(s@, p as int, count as int)) == balls_from(s@, pos as int, 0),
            done ==> balls_from(s@, p as int, count as int) == Ok::<(int, Seq<Ballsack>), Fail>(
                (p as int, Seq::<Ballsack>::empty()),
            ),
        decreases 3 - count + (if done { 0int } else { 1int }),
    {
        match balls(s, p) {
            Ok((p2, b)) => {
                proof {
                    lemma_prepend_push(list@, b, balls_from(s@, p2 as int, count + 1));
                }
                list.push(b);
                p = p2;
                count += 1;
            },
            Err(Fail::Error) => {
                if count < 1 {
                    return Err(Fail::Error);
                }
                done = true;
            },
            Err(Fail::Incomplete) => {
                return Err(Fail::Incomplete);
            },
        }
    }
    proof {
        lemma_prepend_empty(list@, p as int);
    }
    let mut ballsack_red = Ballsack::Red(0);
    let mut ballsack_green = Ballsack::Green(0);
    let mut ballsack_blue = Ballsack::Blue(0);
    let mut i: usize = 0;
    while i < list.len()
        invariant
            i <= list.len(),
            collect_bag(list@.take(i as int)) == (Bag { ballsack_red, ballsack_green, ballsack_blue }),
        decreases list.len() - i,
    {
        assert(list@.take(i + 1).drop_last() =~= list@.take(i as int));
        let bs = list[i];
        match bs {
            Ballsack::Blue(_) => ballsack_blue = bs,
            Ballsack::Red(_) => ballsack_red = bs,
            Ballsack::Green(_) => ballsack_green = bs,
        }
        i += 1;
    }
    assert(list@.take(i as int) =~= list@);
    let q = if tag_byte(s, p, ';' as u8) { p + 1 } else { p };
    Ok((q, Bag { ballsack_red, ballsack_green, ballsack_blue }))
}

fn bags(s: &[u8], pos: usize) -> (r: Result<(usize, Vec<Bag>), Fail>)
    requires
        pos <= s.len(),
    ensures
        at_view(r) == bags_from(s@, pos as int),
{
    let mut out: Vec<Bag> = Vec::new();
    let mut p = pos;
    loop
        invariant
            pos <= p <= s.len(),
            prepend(out@, bags_from(s@, p as int)) == bags_from(s@, pos as int),
        decreases s.len() - p,
    {
        if p == s.len() {
            proof {
                lemma_prepend_empty(out@, p as int);
            }
            return Ok((p, out));
        }
        match bag(s, p) {
            Ok((p2, b)) => {
                proof {
                    lemma_prepend_push(out@, b, bags_from(s@, p2 as int));
                }
                out.push(b);
                p = p2;
            },
            Err(f) => {
                return Err(f);
            },
        }
    }
}

/// Reads one game line.
pub fn game(s: &[u8]) -> (r: Result<(usize, Game), Fail>)
    ensures
        at_view(r) == game_at(s@),
{
    let (p, gid) = match game_id(s, 0) {
        Ok(x) => x,
        Err(f) => return Err(f),
    };
    match bags(s, p) {
        Ok((q, bags)) => Ok((q, Game { gid, bags })),
        Err(f) => Err(f),
    }
}

// ---------------------------------------------------------------------------
// Ordering of counts and bags
// ---------------------------------------------------------------------------

/// How two counts compare: by colour, then by number.
pub open spec fn ballsack_order(a: Ballsack, b: Ballsack) -> Ordering {
    if ballsack_less(a, b) {
        Ordering::Less
    } else if ballsack_less(b, a) {
        Ordering::Greater
    } else {
        Ordering::Equal
    }
}

/// How two bags compare: equal when all three colours are equal, greater
/// when any colour is greater, less otherwise.
pub open spec fn bag_order(a: Bag, b: Bag) -> Ordering {
    let r = ballsack_order(a.ballsack_red, b.ballsack_red);
    let g = ballsack_order(a.ballsack_green, b.ballsack_green);
    let l = ballsack_order(a.ballsack_blue, b.ballsack_blue);
    if r == Ordering::Equal && g == Ordering::Equal && l == Ordering::Equal {
        Ordering::Equal
    } else if r == Ordering::Greater || g == Ordering::Greater || l == Ordering::Greater {
        Ordering::Greater
    } else {
        Ordering::Less
    }
}

/// `bag_le` is the bag order's "not greater".
pub proof fn lemma_bag_le(a: Bag, b: Bag)
    ensures
        bag_le(a, b) <==> bag_order(a, b) != Ordering::Greater,
{
}

/// How two counts compare: by colour, then by number.
pub fn ballsack_cmp(a: &Ballsack, b: &Ballsack) -> (o: Ordering)
    ensures
        o == ballsack_order(*a, *b),
{
    if ballsack_is_greater(b, a) {
        Ordering::Less
    } else if ballsack_is_greater(a, b) {
        Ordering::Greater
    } else {
        Ordering::Equal
    }
}

impl Bag {
    /// How the two bags compare (see `bag_order`).
    pub fn cmp(&self, other: &Self) -> (o: Ordering)
        ensures
            o == bag_order(*self, *other),
    {
        let r = ballsack_cmp(&self.ballsack_red, &other.ballsack_red);
        let g = ballsack_cmp(&self.ballsack_green, &other.ballsack_green);
        let b = ballsack_cmp(&self.ballsack_blue, &other.ballsack_blue);
        match (r, g, b) {
            (Ordering::Equal, Ordering::Equal, Ordering::Equal) => Ordering::Equal,
            (Ordering::Greater, _, _) => Ordering::Greater,
            (_, Ordering::Greater, _) => Ordering::Greater,
            (_, _, Ordering::Greater) => Ordering::Greater,
            (Ordering::Less, Ordering::Less, Ordering::Less) => Ordering::Less,
            _ => Ordering::Less,
        }
    }
}

impl PartialOrd for Bag {
    fn partial_cmp(&self, other: &Self) -> (r: Option<Ordering>) {
        Some(self.cmp(other))
    }
}

impl vstd::std_specs::cmp::PartialOrdSpecImpl for Bag {
    open spec fn obeys_partial_cmp_spec() -> bool {
        true
    }

    open spec fn partial_cmp_spec(&self, other: &Self) -> Option<Ordering> {
        Some(bag_order(*self, *other))
    }
}

// ---------------------------------------------------------------------------
// Answers
// ---------------------------------------------------------------------------

/// The games read from the lines that parse, in order.
pub open spec fn parsed_games(lines: Seq<Seq<u8>>) -> Seq<GameView>
    decreases lines.len(),
{
    if lines.len() == 0 {
        seq![]
    } else {
        parsed_games(lines.drop_last()) + match game_at(lines.last()) {
            Ok((_, g)) => seq![g],
            Err(_) => Seq::<GameView>::empty(),
        }
    }
}

/// Every handful of the game fits in `max`.
pub open spec fn fits(g: GameView, max: Bag) -> bool {
    forall|i: int| 0 <= i < g.bags.len() ==> bag_le(#[trigger] g.bags[i], max)
}

/// Sum of the ids of the games that fit in `max`.
pub open spec fn possible_sum(games: Seq<GameView>, max: Bag) -> int
    decreases games.len(),
{
    if games.len() == 0 {
        0
    } else {
        possible_sum(games.drop_last(), max) + if fits(games.last(), max) {
            games.last().gid as int
        } else {
            0
        }
    }
}

proof fn lemma_possible_sum_prefix(games: Seq<GameView>, max: Bag, j: int)
    requires
        0 <= j <= games.len(),
    ensures
        0 <= possible_sum(games.take(j), max) <= possible_sum(games, max),
    decreases games.len(),
{
    if games.len() > 0 {
        if j == games.len() {
            assert(games.take(j) =~= games);
            lemma_possible_sum_prefix(games.drop_last(), max, j - 1);
            assert(games.drop_last().take(j - 1) =~= games.take(j).drop_last());
        } else {
            lemma_possible_sum_prefix(games.drop_last(), max, j);
            assert(games.drop_last().take(j) =~= games.take(j));
        }
    }
}

fn parse_games(lines: &Vec<Vec<u8>>) -> (games: Vec<Game>)
    ensures
        games@.map_values(|g: Game| g@) == parsed_games(lines.deep_view()),
{
    let ghost all = lines.deep_view();
    let mut games: Vec<Game> = Vec::new();
    let mut j: usize = 0;
    while j < lines.len()
        invariant
            j <= lines.len(),
            all == lines.deep_view(),
            games@.map_values(|g: Game| g@) == parsed_games(all.take(j as int)),
        decreases lines.len() - j,
    {
        proof {
            assert(all.take(j + 1).drop_last() =~= all.take(j as int));
            assert(all[j as int] == lines[j as int]@);
        }
        let ghost before = games@;
        match game(lines[j].as_slice()) {
            Ok((_, g)) => {
                games.push(g);
                assert(games@.map_values(|g: Game| g@) =~= before.map_values(|g: Game| g@) + seq![
                    g@,
                ]);
            },
            Err(_) => {
                assert(games@.map_values(|g: Game| g@) =~= before.map_values(|g: Game| g@)
                    + Seq::<GameView>::empty());
            },
        }
        j += 1;
    }
    assert(all.take(j as int) =~= all);
    games
}

/// `b <= max` as bags.
fn fits_in(b: &Bag, max: &Bag) -> (r: bool)
    ensures
        r == bag_le(*b, *max),
{
    let r = *b <= *max;
    proof {
        lemma_bag_le(*b, *max);
    }
    r
}

/// Every handful of the game fits in `max`.
fn game_fits(g: &Game, max: &Bag) -> (r: bool)
    ensures
        r == fits(g@, *max),
{
    let mut all = true;
    let mut k: usize = 0;
    while k < g.bags.len()
        invariant
            k <= g.bags.len(),
            all == forall|i: int| 0 <= i < k ==> bag_le(#[trigger] g.bags@[i], *max),
        decreases g.bags.len() - k,
    {
        let fits_here = fits_in(&g.bags[k], max);
        all = all && fits_here;
        k += 1;
    }
    assert(g@.bags == g.bags@);
    all
}

/// The sum of the ids of the games that fit in `max_bag` fits in a `u32`.
pub fn possible_sum_fits(lines: &Vec<Vec<u8>>, max_bag: Bag) -> (r: bool)
    ensures
        r == (possible_sum(parsed_games(lines.deep_view()), max_bag) <= u32::MAX),
{
    let games = parse_games(lines);
    let ghost gs = games@.map_values(|g: Game| g@);
    let mut acc: u64 = 0;
    let mut j: usize = 0;
    while j < games.len()
        invariant
            j <= games.len(),
            gs == games@.map_values(|g: Game| g@),
            gs == parsed_games(lines.deep_view()),
            acc == possible_sum(gs.take(j as int), max_bag),
            acc <= u32::MAX,
        decreases games.len() - j,
    {
        let g = &games[j];
        let all = game_fits(g, &max_bag);
        proof {
            assert(gs.take(j + 1).drop_last() =~= gs.take(j as int));
            assert(gs[j as int] == g@);
        }
        if all {
            acc = acc + g.gid as u64;
            if acc > 0xffff_ffff {
                proof {
                    assert(gs.take(j + 1).last() == gs[j as int]);
                    assert(acc == possible_sum(gs.take(j + 1), max_bag));
                    lemma_possible_sum_prefix(gs, max_bag, j + 1);
                }
                return false;
            }
        }
        j += 1;
    }
    assert(gs.take(j as int) =~= gs);
    true
}

/// Sum of the ids of the games, among the lines that parse, whose every
/// handful fits in `max_bag` (compares as `<=` to it).
pub fn a(lines: &Vec<Vec<u8>>, max_bag: Bag) -> (total: u32)
    requires
        possible_sum(parsed_games(lines.deep_view()), max_bag) <= u32::MAX,
    ensures
        total == possible_sum(parsed_games(lines.deep_view()), max_bag),
{
    let games = parse_games(lines);
    let ghost gs = games@.map_values(|g: Game| g@);
    let mut acc: u32 = 0;
    let mut j: usize = 0;
    while j < games.len()
        invariant
            j <= games.len(),
            gs == games@.map_values(|g: Game| g@),
            possible_sum(gs, max_bag) <= u32::MAX,
            acc == possible_sum(gs.take(j as int), max_bag),
        decreases games.len() - j,
    {
        let g = &games[j];
        let all = game_fits(g, &max_bag);
        proof {
            assert(gs.take(j + 1).drop_last() =~= gs.take(j as int));
            assert(gs[j as int] == g@);
            lemma_possible_sum_prefix(gs, max_bag, j + 1);
        }
        if all {
            acc = acc + g.gid;
        }
        j += 1;
    }
    assert(gs.take(j as int) =~= gs);
    acc
}

/// The count of colour `c` (0 red, 1 green, 2 blue) in a handful.
pub open spec fn field(b: Bag, c: int) -> Ballsack {
    if c == 0 {
        b.ballsack_red
    } else if c == 1 {
        b.ballsack_green
    } else {
        b.ballsack_blue
    }
}

/// No cubes of colour `c`.
pub open spec fn none_of(c: int) -> Ballsack {
    if c == 0 {
        Ballsack::Red(0)
    } else if c == 1 {
        Ballsack::Green(0)
    } else {
        Ballsack::Blue(0)
    }
}

/// The largest count of colour `c` shown in the handfuls (none shown: 0).
pub open spec fn most(bags: Seq<Bag>, c: int) -> Ballsack
    decreases bags.len(),
{
    if bags.len() == 0 {
        none_of(c)
    } else {
        let m = most(bags.drop_last(), c);
        if ballsack_less(m, field(bags.last(), c)) {
            field(bags.last(), c)
        } else {
            m
        }
    }
}

/// The power of the smallest bag that makes the game possible: the product
/// of the largest counts of the three colours.
pub open spec fn power(g: GameView) -> int {
    count_of(most(g.bags, 0)) * count_of(most(g.bags, 1)) * count_of(most(g.bags, 2))
}

/// Sum of the powers of the games.
pub open spec fn power_sum(games: Seq<GameView>) -> int
    decreases games.len(),
{
    if games.len() == 0 {
        0
    } else {
        power_sum(games.drop_last()) + power(games.last())
    }
}

/// The products computed on the way to each power fit in a `u32`.
pub open spec fn powers_fit(games: Seq<GameView>) -> bool {
    forall|i: int|
        0 <= i < games.len() ==> count_of(most(#[trigger] games[i].bags, 0)) * count_of(
            most(games[i].bags, 1),
        ) <= u32::MAX
}

/// Every handful holds each colour in its own field.
pub open spec fn game_well_coloured(g: GameView) -> bool {
    forall|i: int| 0 <= i < g.bags.len() ==> well_coloured(#[trigger] g.bags[i])
}

proof fn lemma_collect_bag(list: Seq<Ballsack>)
    ensures
        well_coloured(collect_bag(list)),
    decreases list.len(),
{
    if list.len() > 0 {
        lemma_collect_bag(list.drop_last());
    }
}

proof fn lemma_bags_from(s: Seq<u8>, pos: int)
    ensures
        bags_from(s, pos) matches Ok((_, bags)) ==> forall|i: int|
            0 <= i < bags.len() ==> well_coloured(#[trigger] bags[i]),
    decreases s.len() - pos,
{
    if pos < s.len() {
        if let Ok((p, b)) = bag_at(s, pos) {
            if let Ok((_, list)) = balls_from(s, pos, 0) {
                lemma_collect_bag(list);
            }
            if p > pos && p <= s.len() {
                lemma_bags_from(s, p);
                if let Ok((_, rest)) = bags_from(s, p) {
                    assert forall|i: int| 0 <= i < rest.len() + 1 implies well_coloured(
                        #[trigger] (seq![b] + rest)[i],
                    ) by {
                        if i > 0 {
                            assert((seq![b] + rest)[i] == rest[i - 1]);
                        }
                    }
                }
            }
        }
    }
}

/// Every game read from the lines is well coloured.
pub proof fn lemma_parsed_games_well_coloured(lines: Seq<Seq<u8>>)
    ensures
        forall|i: int|
            0 <= i < parsed_games(lines).len() ==> game_well_coloured(
                #[trigger] parsed_games(lines)[i],
            ),
    decreases lines.len(),
{
    if lines.len() > 0 {
        lemma_parsed_games_well_coloured(lines.drop_last());
        if let Ok((p, gid)) = game_id_at(lines.last(), 0) {
            lemma_bags_from(lines.last(), p);
        }
        let prev = parsed_games(lines.drop_last());
        assert forall|i: int| 0 <= i < parsed_games(lines).len() implies game_well_coloured(
            #[trigger] parsed_games(lines)[i],
        ) by {
            if i < prev.len() {
                assert(parsed_games(lines)[i] == prev[i]);
            }
        }
    }
}

proof fn lemma_most_colour(bags: Seq<Bag>, c: int)
    requires
        0 <= c < 3,
        forall|i: int| 0 <= i < bags.len() ==> well_coloured(#[trigger] bags[i]),
    ensures
        colour_rank(most(bags, c)) == c,
    decreases bags.len(),
{
    if bags.len() > 0 {
        lemma_most_colour(bags.drop_last(), c);
        assert(well_coloured(bags[bags.len() - 1]));
    }
}

/// The smallest bag that makes the game possible: the largest count of
/// each colour shown, whose product is the game's power.
pub open spec fn smallest_bag(g: GameView) -> Bag {
    Bag { ballsack_red: most(g.bags, 0), ballsack_green: most(g.bags, 1), ballsack_blue: most(g.bags, 2) }
}

proof fn lemma_most_below(bags: Seq<Bag>, c: int, top: Ballsack)
    requires
        0 <= c < 3,
        colour_rank(top) == c,
        forall|i: int| 0 <= i < bags.len() ==> well_coloured(#[trigger] bags[i]),
    ensures
        (forall|i: int| 0 <= i < bags.len() ==> !ballsack_less(top, field(#[trigger] bags[i], c)))
            <==> !ballsack_less(top, most(bags, c)),
    decreases bags.len(),
{
    if bags.len() > 0 {
        let front = bags.drop_last();
        lemma_most_below(front, c, top);
        lemma_most_colour(front, c);
        assert(well_coloured(bags[bags.len() - 1]));
        assert forall|i: int| 0 <= i < front.len() implies field(#[trigger] front[i], c) == field(
            bags[i],
            c,
        ) by {}
        if forall|i: int| 0 <= i < bags.len() ==> !ballsack_less(top, field(#[trigger] bags[i], c)) {
            assert(!ballsack_less(top, field(bags[bags.len() - 1], c)));
        }
        if !ballsack_less(top, most(bags, c)) {
            assert forall|i: int| 0 <= i < bags.len() implies !ballsack_less(
                top,
                field(#[trigger] bags[i], c),
            ) by {
                if i < front.len() {
                    assert(field(front[i], c) == field(bags[i], c));
                    assert(well_coloured(front[i]));
                }
            }
        }
    }
}

/// A game fits in a bag exactly when its smallest bag, the one whose power
/// the second answer sums, fits in it.
pub proof fn law_fits_iff_smallest_bag_fits(g: GameView, max: Bag)
    requires
        game_well_coloured(g),
        well_coloured(max),
    ensures
        fits(g, max) <==> bag_le(smallest_bag(g), max),
{
    lemma_most_below(g.bags, 0, max.ballsack_red);
    lemma_most_below(g.bags, 1, max.ballsack_green);
    lemma_most_below(g.bags, 2, max.ballsack_blue);
    if fits(g, max) {
        assert forall|i: int| 0 <= i < g.bags.len() implies !ballsack_less(
            max.ballsack_red,
            field(#[trigger] g.bags[i], 0),
        ) by {
            assert(bag_le(g.bags[i], max));
        }
        assert forall|i: int| 0 <= i < g.bags.len() implies !ballsack_less(
            max.ballsack_green,
            field(#[trigger] g.bags[i], 1),
        ) by {
            assert(bag_le(g.bags[i], max));
        }
        assert forall|i: int| 0 <= i < g.bags.len() implies !ballsack_less(
            max.ballsack_blue,
            field(#[trigger] g.bags[i], 2),
        ) by {
            assert(bag_le(g.bags[i], max));
        }
    }
    if bag_le(smallest_bag(g), max) {
        assert forall|i: int| 0 <= i < g.bags.len() implies bag_le(#[trigger] g.bags[i], max) by {
            assert(field(g.bags[i], 0) == g.bags[i].ballsack_red);
            assert(field(g.bags[i], 1) == g.bags[i].ballsack_green);
            assert(field(g.bags[i], 2) == g.bags[i].ballsack_blue);
        }
    }
}

proof fn lemma_power_sum_prefix(games: Seq<GameView>, j: int)
    requires
        0 <= j <= games.len(),
    ensures
        0 <= power_sum(games.take(j)) <= power_sum(games),
    decreases games.len(),
{
    if games.len() > 0 {
        let g = games.last();
        assert(0 <= power(g)) by (nonlinear_arith)
            requires
                power(g) == count_of(most(g.bags, 0)) * count_of(most(g.bags, 1)) * count_of(
                    most(g.bags, 2),
                ),
        ;
        if j == games.len() {
            assert(games.take(j) =~= games);
            lemma_power_sum_prefix(games.drop_last(), j - 1);
            assert(games.drop_last().take(j - 1) =~= games.take(j).drop_last());
        } else {
            lemma_power_sum_prefix(games.drop_last(), j);
            assert(games.drop_last().take(j) =~= games.take(j));
        }
    }
}

/// The largest count of each colour shown in the game's handfuls.
fn smallest_counts(g: &Game) -> (c: (u32, u32, u32))
    requires
        game_well_coloured(g@),
    ensures
        c.0 == count_of(most(g.bags@, 0)),
        c.1 == count_of(most(g.bags@, 1)),
        c.2 == count_of(most(g.bags@, 2)),
{
    let mut max_red = Ballsack::Red(0);
    let mut max_green = Ballsack::Green(0);
    let mut max_blue = Ballsack::Blue(0);
    let mut k: usize = 0;
    while k < g.bags.len()
        invariant
            k <= g.bags.len(),
            max_red == most(g.bags@.take(k as int), 0),
            max_green == most(g.bags@.take(k as int), 1),
            max_blue == most(g.bags@.take(k as int), 2),
        decreases g.bags.len() - k,
    {
        assert(g.bags@.take(k + 1).drop_last() =~= g.bags@.take(k as int));
        let bg = &g.bags[k];
        if ballsack_is_greater(&bg.ballsack_green, &max_green) {
            max_green = bg.ballsack_green;
        }
        if ballsack_is_greater(&bg.ballsack_blue, &max_blue) {
            max_blue = bg.ballsack_blue;
        }
        if ballsack_is_greater(&bg.ballsack_red, &max_red) {
            max_red = bg.ballsack_red;
        }
        k += 1;
    }
    assert(g.bags@.take(k as int) =~= g.bags@);
    assert(g@.bags == g.bags@);
    proof {
        lemma_most_colour(g.bags@, 0);
        lemma_most_colour(g.bags@, 1);
        lemma_most_colour(g.bags@, 2);
    }
    match (max_red, max_green, max_blue) {
        (Ballsack::Red(r), Ballsack::Green(gr), Ballsack::Blue(bl)) => (r, gr, bl),
        _ => (0, 0, 0),
    }
}

/// The products on the way to each power, and the sum of the powers, fit
/// in a `u32`.
pub fn powers_check(lines: &Vec<Vec<u8>>) -> (r: bool)
    ensures
        r == (powers_fit(parsed_games(lines.deep_view())) && power_sum(
            parsed_games(lines.deep_view()),
        ) <= u32::MAX),
{
    let games = parse_games(lines);
    let ghost gs = games@.map_values(|g: Game| g@);
    proof {
        lemma_parsed_games_well_coloured(lines.deep_view());
    }
    let mut acc: u128 = 0;
    let mut j: usize = 0;
    while j < games.len()
        invariant
            j <= games.len(),
            gs == games@.map_values(|g: Game| g@),
            gs == parsed_games(lines.deep_view()),
            forall|i: int| 0 <= i < gs.len() ==> game_well_coloured(#[trigger] gs[i]),
            acc == power_sum(gs.take(j as int)),
            acc <= u32::MAX,
            forall|i: int|
                0 <= i < j ==> count_of(most(#[trigger] gs[i].bags, 0)) * count_of(
                    most(gs[i].bags, 1),
                ) <= u32::MAX,
        decreases games.len() - j,
    {
        let g = &games[j];
        assert(gs[j as int] == g@);
        let (r, gr, bl) = smallest_counts(g);
        assert(r as u64 * gr as u64 <= 0xffff_fffe_0000_0001u64) by (nonlinear_arith)
            requires
                r <= 0xffff_ffffu32,
                gr <= 0xffff_ffffu32,
        ;
        let rg: u64 = r as u64 * gr as u64;
        if rg > 0xffff_ffff {
            assert(gs[j as int].bags == g.bags@);
            assert(count_of(most(gs[j as int].bags, 0)) * count_of(most(gs[j as int].bags, 1))
                > u32::MAX);
            return false;
        }
        proof {
            assert(gs.take(j + 1).drop_last() =~= gs.take(j as int));
            assert(gs.take(j + 1).last() == gs[j as int]);
        }
        assert(rg as u128 * bl as u128 <= 0xffff_ffff_ffff_ffffu128) by (nonlinear_arith)
            requires
                rg <= 0xffff_ffffu64,
                bl <= 0xffff_ffffu32,
        ;
        acc = acc + rg as u128 * bl as u128;
        if acc > 0xffff_ffff {
            proof {
                lemma_power_sum_prefix(gs, j + 1);
            }
            return false;
        }
        j += 1;
    }
    assert(gs.take(j as int) =~= gs);
    true
}

/// Sum, over the games among the lines that parse, of the power of the
/// smallest bag that makes the game possible.
pub fn b(lines: &Vec<Vec<u8>>) -> (total: u32)
    requires
        power_sum(parsed_games(lines.deep_view())) <= u32::MAX,
        powers_fit(parsed_games(lines.deep_view())),
    ensures
        total == power_sum(parsed_games(lines.deep_view())),
{
    let games = parse_games(lines);
    let ghost gs = games@.map_values(|g: Game| g@);
    proof {
        lemma_parsed_games_well_coloured(lines.deep_view());
    }
    let mut acc: u32 = 0;
    let mut j: usize = 0;
    while j < games.len()
        invariant
            j <= games.len(),
            gs == games@.map_values(|g: Game| g@),
            power_sum(gs) <= u32::MAX,
            powers_fit(gs),
            forall|i: int| 0 <= i < gs.len() ==> game_well_coloured(#[trigger] gs[i]),
            acc == power_sum(gs.take(j as int)),
        decreases games.len() - j,
    {
        let g = &games[j];
        assert(gs[j as int] == g@);
        let (r, gr, bl) = smallest_counts(g);
        proof {
            assert(gs.take(j + 1).drop_last() =~= gs.take(j as int));
            lemma_power_sum_prefix(gs, j + 1);
            assert(powers_fit(gs));
            assert(count_of(most(gs[j as int].bags, 0)) * count_of(most(gs[j as int].bags, 1))
                <= u32::MAX);
        }
        acc = acc + r * gr * bl;
        j += 1;
    }
    assert(gs.take(j as int) =~= gs);
    acc
}

} // verus!
