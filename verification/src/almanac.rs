//! The almanac: seed numbers followed by maps (`seed-to-soil map:` and so
//! on), each map a list of ranges that move numbers of its source category
//! to its destination category.  The answer is the lowest location number
//! reached from any seed of the seed ranges.
//!
//! Numbers are read as exact integers of at most twenty digits.
use vstd::prelude::*;
use ndarray::ArcArray1;
use crate::text::{
    Fail, below_e20, long_number_at, take_long_number, at, lemma_prepend_empty,
    lemma_prepend_push, lemma_space_run, prepend, skip_spaces, space_run, tag, tag_at,
    bytes_equal,
};

verus! {

/// One range of a map: `span + 1` numbers from `src` on move to `dst` on.
#[derive(Clone, Copy, Debug, PartialEq, Eq, Structural)]
pub struct Translation {
    pub dst: u128,
    pub src: u128,
    pub span: u128,
}

/// A list of values kept in ndarray's `ArcArray1`.
#[derive(Debug)]
#[verifier::external_body]
#[verifier::reject_recursive_types(T)]
pub struct Row<T> {
    cells: ArcArray1<T>,
}

/// The seed numbers held in a row, in order.
pub uninterp spec fn seed_cells(r: Row<u128>) -> Seq<u128>;

/// The seed ranges held in a row, in order.
pub uninterp spec fn range_cells(r: Row<(u128, u128)>) -> Seq<(u128, u128)>;

/// The ranges of a map held in a row, in order.
pub uninterp spec fn translation_cells(r: Row<Translation>) -> Seq<Translation>;

/// `ArcArray1::from_vec`: the values of `v`, in order.
#[verifier::external_body]
fn seed_row(v: Vec<u128>) -> (r: Row<u128>)
    ensures
        seed_cells(r) == v@,
{
    Row { cells: ArcArray1::from_vec(v) }
}

/// `ArcArray1::from_vec` for seed ranges.
#[verifier::external_body]
fn range_row(v: Vec<(u128, u128)>) -> (r: Row<(u128, u128)>)
    ensures
        range_cells(r) == v@,
{
    Row { cells: ArcArray1::from_vec(v) }
}

/// `ArcArray1::from_vec` for the ranges of a map.
#[verifier::external_body]
fn translation_row(v: Vec<Translation>) -> (r: Row<Translation>)
    ensures
        translation_cells(r) == v@,
{
    Row { cells: ArcArray1::from_vec(v) }
}

/// `row.len()`: the number of seeds.
#[verifier::external_body]
fn seed_count(r: &Row<u128>) -> (n: usize)
    ensures
        n == seed_cells(*r).len(),
{
    r.cells.len()
}

/// `row.len()`: the number of seed ranges.
#[verifier::external_body]
fn range_count(r: &Row<(u128, u128)>) -> (n: usize)
    ensures
        n == range_cells(*r).len(),
{
    r.cells.len()
}

/// `row.len()`: the number of ranges of a map.
#[verifier::external_body]
fn translation_count(r: &Row<Translation>) -> (n: usize)
    ensures
        n == translation_cells(*r).len(),
{
    r.cells.len()
}

/// `row[i]`: seed `i`.
#[verifier::external_body]
fn seed_get(r: &Row<u128>, i: usize) -> (v: u128)
    requires
        i < seed_cells(*r).len(),
    ensures
        v == seed_cells(*r)[i as int],
{
    r.cells[i]
}

/// `row[i]`: seed range `i`.
#[verifier::external_body]
fn range_get(r: &Row<(u128, u128)>, i: usize) -> (v: (u128, u128))
    requires
        i < range_cells(*r).len(),
    ensures
        v == range_cells(*r)[i as int],
{
    r.cells[i]
}

/// `row[i]`: range `i` of a map.
#[verifier::external_body]
fn translation_get(r: &Row<Translation>, i: usize) -> (v: Translation)
    requires
        i < translation_cells(*r).len(),
    ensures
        v == translation_cells(*r)[i as int],
{
    r.cells[i]
}

/// The seed numbers of the row, in order.
pub fn seed_list(r: &Row<u128>) -> (v: Vec<u128>)
    ensures
        v@ == seed_cells(*r),
{
    let n = seed_count(r);
    let mut v: Vec<u128> = Vec::new();
    let mut i: usize = 0;
    while i < n
        invariant
            n == seed_cells(*r).len(),
            i <= n,
            v@ == seed_cells(*r).take(i as int),
        decreases n - i,
    {
        v.push(seed_get(r, i));
        assert(v@ =~= seed_cells(*r).take(i + 1));
        i += 1;
    }
    assert(v@ =~= seed_cells(*r));
    v
}

/// The seed ranges of the row, in order.
pub fn range_list(r: &Row<(u128, u128)>) -> (v: Vec<(u128, u128)>)
    ensures
        v@ == range_cells(*r),
{
    let n = range_count(r);
    let mut v: Vec<(u128, u128)> = Vec::new();
    let mut i: usize = 0;
    while i < n
        invariant
            n == range_cells(*r).len(),
            i <= n,
            v@ == range_cells(*r).take(i as int),
        decreases n - i,
    {
        v.push(range_get(r, i));
        assert(v@ =~= range_cells(*r).take(i + 1));
        i += 1;
    }
    assert(v@ =~= range_cells(*r));
    v
}

/// The ranges of a map held in the row, in order.
pub fn translation_list(r: &Row<Translation>) -> (v: Vec<Translation>)
    ensures
        v@ == translation_cells(*r),
{
    let n = translation_count(r);
    let mut v: Vec<Translation> = Vec::new();
    let mut i: usize = 0;
    while i < n
        invariant
            n == translation_cells(*r).len(),
            i <= n,
            v@ == translation_cells(*r).take(i as int),
        decreases n - i,
    {
        v.push(translation_get(r, i));
        assert(v@ =~= translation_cells(*r).take(i + 1));
        i += 1;
    }
    assert(v@ =~= translation_cells(*r));
    v
}

/// A map from the category `src_name` to the category `dst_name`.
#[derive(Debug)]
pub struct Mappe {
    pub src_name: Vec<u8>,
    pub dst_name: Vec<u8>,
    pub translations: Row<Translation>,
}

/// A map as its names and its ranges.
pub struct MappeView {
    pub src_name: Seq<u8>,
    pub dst_name: Seq<u8>,
    pub translations: Seq<Translation>,
}

impl View for Mappe {
    type V = MappeView;

    open spec fn view(&self) -> MappeView {
        MappeView {
            src_name: self.src_name@,
            dst_name: self.dst_name@,
            translations: translation_cells(self.translations),
        }
    }
}

/// The maps of an almanac, in the order read; a map is found by its
/// destination name, the last one read winning.
pub open spec fn maps_view(maps: Seq<Mappe>) -> Seq<MappeView> {
    maps.map_values(|m: Mappe| m@)
}

/// An almanac whose seeds come as (start, length) pairs.
#[derive(Debug)]
pub struct RealAlmanach {
    pub seed_ranges: Row<(u128, u128)>,
    pub mappes: Vec<Mappe>,
}

/// An almanac that lists single seeds.
#[derive(Debug)]
pub struct Almanach {
    pub seeds: Row<u128>,
    pub mappes: Vec<Mappe>,
}

// ---------------------------------------------------------------------------
// Following numbers through the maps
// ---------------------------------------------------------------------------

/// Where one map sends `n`: through the first range that holds it
/// (`src <= n <= src + span`), or unchanged when none does.
pub open spec fn apply_map(ts: Seq<Translation>, n: int) -> int
    decreases ts.len(),
{
    if ts.len() == 0 {
        n
    } else if ts[0].src <= n <= ts[0].src + ts[0].span {
        ts[0].dst + (n - ts[0].src)
    } else {
        apply_map(ts.drop_first(), n)
    }
}

/// A number that no range of a map holds comes out of the map unchanged.
pub proof fn law_unmapped_numbers_stay(ts: Seq<Translation>, n: int)
    requires
        forall|k: int|
            0 <= k < ts.len() ==> !((#[trigger] ts[k]).src <= n <= ts[k].src + ts[k].span),
    ensures
        apply_map(ts, n) == n,
    decreases ts.len(),
{
    if ts.len() > 0 {
        assert(!(ts[0].src <= n <= ts[0].src + ts[0].span));
        assert forall|k: int| 0 <= k < ts.drop_first().len() implies !((
        #[trigger] ts.drop_first()[k]).src <= n <= ts.drop_first()[k].src + ts.drop_first()[k].span) by {
            assert(ts.drop_first()[k] == ts[k + 1]);
        }
        law_unmapped_numbers_stay(ts.drop_first(), n);
    }
}

/// A number moves through the first range of the map that holds it, by that
/// range's offset.
pub proof fn law_first_range_moves(ts: Seq<Translation>, n: int, k: int)
    requires
        0 <= k < ts.len(),
        ts[k].src <= n <= ts[k].src + ts[k].span,
        forall|j: int|
            0 <= j < k ==> !((#[trigger] ts[j]).src <= n <= ts[j].src + ts[j].span),
    ensures
        apply_map(ts, n) == ts[k].dst + (n - ts[k].src),
    decreases k,
{
    if k > 0 {
        assert(!(ts[0].src <= n <= ts[0].src + ts[0].span));
        assert forall|j: int| 0 <= j < k - 1 implies !((#[trigger] ts.drop_first()[j]).src <= n
            <= ts.drop_first()[j].src + ts.drop_first()[j].span) by {
            assert(ts.drop_first()[j] == ts[j + 1]);
        }
        law_first_range_moves(ts.drop_first(), n, k - 1);
    }
}

/// The last of the first `k` maps whose destination is `name`.
pub open spec fn lookup_upto(maps: Seq<MappeView>, name: Seq<u8>, k: int) -> Option<int>
    decreases k,
{
    if k <= 0 {
        None
    } else if maps[k - 1].dst_name == name {
        Some(k - 1)
    } else {
        lookup_upto(maps, name, k - 1)
    }
}

/// The map whose destination is `name` (the last one read).
pub open spec fn lookup(maps: Seq<MappeView>, name: Seq<u8>) -> Option<int> {
    lookup_upto(maps, name, maps.len() as int)
}

/// Following sources back from `name`, every name met has a map, and the
/// category `origin` is reached within `steps` further maps.
pub open spec fn reaches(maps: Seq<MappeView>, origin: Seq<u8>, name: Seq<u8>, steps: nat) -> bool
    decreases steps,
{
    match lookup(maps, name) {
        None => false,
        Some(i) => maps[i].src_name == origin || (steps > 0 && reaches(
            maps,
            origin,
            maps[i].src_name,
            (steps - 1) as nat,
        )),
    }
}

/// The number in category `name` of the number `id` of category `origin`:
/// the maps from `origin` to `name` applied in turn.
pub open spec fn chain_value(
    maps: Seq<MappeView>,
    origin: Seq<u8>,
    name: Seq<u8>,
    id: int,
    steps: nat,
) -> int
    decreases steps,
{
    match lookup(maps, name) {
        None => id,
        Some(i) => if maps[i].src_name == origin {
            apply_map(maps[i].translations, id)
        } else if steps == 0 {
            id
        } else {
            apply_map(
                maps[i].translations,
                chain_value(maps, origin, maps[i].src_name, id, (steps - 1) as nat),
            )
        },
    }
}

/// The maps lead from `origin` to `name`.
pub open spec fn connected(maps: Seq<MappeView>, origin: Seq<u8>, name: Seq<u8>) -> bool {
    exists|steps: nat| reaches(maps, origin, name, steps)
}

/// The number in category `name` of the number `id` of category `origin`.
pub open spec fn translated(maps: Seq<MappeView>, origin: Seq<u8>, name: Seq<u8>, id: int) -> int {
    chain_value(maps, origin, name, id, choose|steps: nat| reaches(maps, origin, name, steps))
}

/// However many steps are allowed, once the chain reaches `origin` the
/// number found is the same.
pub proof fn lemma_chain_value_steps(
    maps: Seq<MappeView>,
    origin: Seq<u8>,
    name: Seq<u8>,
    id: int,
    a: nat,
    b: nat,
)
    requires
        reaches(maps, origin, name, a),
        reaches(maps, origin, name, b),
    ensures
        chain_value(maps, origin, name, id, a) == chain_value(maps, origin, name, id, b),
    decreases a,
{
    if let Some(i) = lookup(maps, name) {
        if maps[i].src_name != origin {
            lemma_chain_value_steps(
                maps,
                origin,
                maps[i].src_name,
                id,
                (a - 1) as nat,
                (b - 1) as nat,
            );
        }
    }
}

/// Every number in the maps is below 2^100.
pub open spec fn bounded_maps(maps: Seq<MappeView>) -> bool {
    forall|i: int, k: int|
        0 <= i < maps.len() && 0 <= k < maps[i].translations.len() ==> {
            let t = #[trigger] maps[i].translations[k];
            t.dst < 0x10000000000000000000000000 && t.src < 0x10000000000000000000000000 && t.span
                < 0x10000000000000000000000000
        }
}

/// Where the ranges `ts` send `n`.
pub fn apply_translations(ts: &Row<Translation>, n: u128) -> (r: u128)
    requires
        forall|k: int|
            0 <= k < translation_cells(*ts).len() ==> (#[trigger] translation_cells(*ts)[k]).dst
                < 0x10000000000000000000000000 && translation_cells(*ts)[k].src
                < 0x10000000000000000000000000 && translation_cells(*ts)[k].span
                < 0x10000000000000000000000000,
    ensures
        r == apply_map(translation_cells(*ts), n as int),
        r < 0x40000000000000000000000000 || r == n,
{
    let ghost cells = translation_cells(*ts);
    let count = translation_count(ts);
    let mut i: usize = 0;
    assert(cells.skip(0) =~= cells);
    while i < count
        invariant
            cells == translation_cells(*ts),
            count == cells.len(),
            i <= count,
            apply_map(cells, n as int) == apply_map(cells.skip(i as int), n as int),
            forall|k: int|
                0 <= k < cells.len() ==> (#[trigger] cells[k]).dst < 0x10000000000000000000000000
                    && cells[k].src < 0x10000000000000000000000000 && cells[k].span
                    < 0x10000000000000000000000000,
        decreases count - i,
    {
        let t = translation_get(ts, i);
        assert(cells.skip(i as int)[0] == t);
        assert(cells.skip(i as int).drop_first() =~= cells.skip(i + 1));
        if t.src <= n && n <= t.src + t.span {
            return t.dst + (n - t.src);
        }
        i += 1;
    }
    n
}

/// The position of the map whose destination is `name` (the last read).
fn lookup_exec(mappes: &Vec<Mappe>, name: &[u8]) -> (r: Option<usize>)
    ensures
        match r {
            Some(i) => lookup(maps_view(mappes@), name@) == Some(i as int),
            None => lookup(maps_view(mappes@), name@) is None,
        },
        r matches Some(i) ==> i < mappes.len(),
{
    let ghost maps = maps_view(mappes@);
    let mut k = mappes.len();
    while k > 0
        invariant
            k <= mappes.len(),
            maps == maps_view(mappes@),
            lookup(maps, name@) == lookup_upto(maps, name@, k as int),
        decreases k,
    {
        if bytes_equal(mappes[k - 1].dst_name.as_slice(), name) {
            return Some(k - 1);
        }
        k -= 1;
    }
    None
}

/// One step of following a chain of maps forward: the number in category
/// `names[t]` comes from the one in `names[t + 1]` (or from `id` at the
/// start of the chain) through the map of `names[t]`.
proof fn lemma_step_value(
    maps: Seq<MappeView>,
    origin: Seq<u8>,
    names: Seq<Seq<u8>>,
    full: Seq<usize>,
    steps: nat,
    t: int,
    id: int,
)
    requires
        full.len() == names.len(),
        0 <= t < names.len(),
        steps + 1 >= names.len(),
        maps[full[names.len() - 1] as int].src_name == origin,
        forall|k: int|
            0 <= k < names.len() ==> lookup(maps, #[trigger] names[k]) == Some(full[k] as int),
        forall|k: int|
            0 <= k < names.len() ==> reaches(maps, origin, #[trigger] names[k], (steps - k) as nat),
        forall|k: int|
            0 <= k < names.len() - 1 ==> #[trigger] names[k + 1] == maps[full[k] as int].src_name
                && names[k + 1] != origin,
    ensures
        chain_value(maps, origin, names[t], id, (steps - t) as nat) == apply_map(
            maps[full[t] as int].translations,
            if t == names.len() - 1 {
                id
            } else {
                chain_value(maps, origin, names[t + 1], id, (steps - t - 1) as nat)
            },
        ),
{
    assert(lookup(maps, names[t]) == Some(full[t] as int));
    assert(reaches(maps, origin, names[t], (steps - t) as nat));
    if t < names.len() - 1 {
        assert(names[t + 1] == maps[full[t] as int].src_name);
    }
}

/// The number in category `destination` of the number `id` of category
/// `origin`: walks the maps back from `destination` to the one whose source
/// is `origin`, then applies them forward.
pub fn translate(id: u128, origin: &[u8], destination: &[u8], mappes: &Vec<Mappe>) -> (r: u128)
    requires
        connected(maps_view(mappes@), origin@, destination@),
        bounded_maps(maps_view(mappes@)),
        id < 0x10000000000000000000000000,
    ensures
        r == translated(maps_view(mappes@), origin@, destination@, id as int),
        r < 0x40000000000000000000000000,
{
    let ghost maps = maps_view(mappes@);
    let ghost steps = choose|steps: nat| reaches(maps, origin@, destination@, steps);
    let first = match lookup_exec(mappes, destination) {
        Some(i) => i,
        None => {
            assert(false);
            0
        },
    };
    let mut inter = first;
    proof {
        assert(reaches(maps, origin@, destination@, steps));
    }
    let mut ballsack: Vec<usize> = Vec::new();
    ballsack.push(first);
    let ghost mut names: Seq<Seq<u8>> = seq![destination@];
    while !bytes_equal(mappes[inter].src_name.as_slice(), origin)
        invariant
            maps == maps_view(mappes@),
            bounded_maps(maps),
            ballsack@.len() == names.len(),
            1 <= names.len() <= steps + 1,
            names[0] == destination@,
            inter == ballsack@[ballsack@.len() - 1],
            inter < mappes.len(),
            forall|k: int|
                0 <= k < names.len() ==> lookup(maps, #[trigger] names[k]) == Some(
                    ballsack@[k] as int,
                ) && ballsack@[k] < mappes.len(),
            forall|k: int|
                0 <= k < names.len() ==> reaches(
                    maps,
                    origin@,
                    #[trigger] names[k],
                    (steps - k) as nat,
                ),
            forall|k: int|
                0 <= k < names.len() - 1 ==> #[trigger] names[k + 1] == maps[ballsack@[k] as int].src_name
                    && names[k + 1] != origin@,
        decreases steps + 1 - names.len(),
    {
        let ghost j = names.len() - 1;
        let ghost next_name = maps[inter as int].src_name;
        assert(mappes@[inter as int]@ == maps[inter as int]);
        assert(next_name != origin@);
        assert(reaches(maps, origin@, names[j], (steps - j) as nat));
        assert(reaches(maps, origin@, next_name, (steps - j - 1) as nat));
        let next = match lookup_exec(mappes, mappes[inter].src_name.as_slice()) {
            Some(i) => i,
            None => {
                assert(false);
                0
            },
        };
        proof {
            names = names.push(next_name);
        }
        ballsack.push(next);
        inter = next;
    }
    let ghost full = ballsack@;
    let ghost top = names.len() - 1;
    assert(maps[inter as int].src_name == origin@);
    let mut nid = id;
    ballsack.pop();
    while ballsack.len() > 0
        invariant
            maps == maps_view(mappes@),
            bounded_maps(maps),
            full.len() == names.len(),
            top == names.len() - 1,
            names[0] == destination@,
            ballsack@ == full.take(ballsack@.len() as int),
            ballsack@.len() <= top,
            inter == full[ballsack@.len() as int],
            inter < mappes.len(),
            maps[full[top] as int].src_name == origin@,
            forall|k: int|
                0 <= k < names.len() ==> lookup(maps, #[trigger] names[k]) == Some(full[k] as int)
                    && full[k] < mappes.len(),
            forall|k: int|
                0 <= k < names.len() ==> reaches(
                    maps,
                    origin@,
                    #[trigger] names[k],
                    (steps - k) as nat,
                ),
            forall|k: int|
                0 <= k < names.len() - 1 ==> #[trigger] names[k + 1] == maps[full[k] as int].src_name
                    && names[k + 1] != origin@,
            steps + 1 >= names.len(),
            nid < 0x40000000000000000000000000,
            ballsack@.len() == top ==> nid == id,
            ballsack@.len() < top ==> nid == chain_value(
                maps,
                origin@,
                names[ballsack@.len() + 1int],
                id as int,
                (steps - ballsack@.len() - 1) as nat,
            ),
        decreases ballsack@.len(),
    {
        let ghost t = ballsack@.len() as int;
        proof {
            lemma_step_value(maps, origin@, names, full, steps, t, id as int);
            assert(lookup(maps, names[t - 1]) == Some(full[t - 1] as int));
            assert(mappes@[inter as int]@ == maps[inter as int]);
        }
        let to_visit = match ballsack.pop() {
            Some(v) => v,
            None => {
                assert(false);
                0
            },
        };
        nid = apply_translations(&mappes[inter].translations, nid);
        inter = to_visit;
        assert(ballsack@ =~= full.take(t - 1));
    }
    proof {
        lemma_step_value(maps, origin@, names, full, steps, 0, id as int);
        assert(mappes@[inter as int]@ == maps[inter as int]);
    }
    nid = apply_translations(&mappes[inter].translations, nid);
    nid
}

// ---------------------------------------------------------------------------
// The grammar of the almanac
// ---------------------------------------------------------------------------

/// An ASCII letter.
pub open spec fn is_alpha(b: u8) -> bool {
    (65 <= b <= 90) || (97 <= b <= 122)
}

/// The number of consecutive letters from `pos` on.
pub open spec fn alpha_run(s: Seq<u8>, pos: int) -> int
    decreases s.len() - pos,
{
    if pos < 0 || pos >= s.len() || !is_alpha(s[pos]) {
        0
    } else {
        1 + alpha_run(s, pos + 1)
    }
}

proof fn lemma_alpha_run(s: Seq<u8>, pos: int)
    requires
        0 <= pos <= s.len(),
    ensures
        0 <= alpha_run(s, pos) <= s.len() - pos,
    decreases s.len() - pos,
{
    if pos < s.len() && is_alpha(s[pos]) {
        lemma_alpha_run(s, pos + 1);
    }
}

/// Three numbers (destination, source, span), each followed by optional
/// white space.
pub open spec fn translation_at(s: Seq<u8>, pos: int) -> Result<(int, Translation), Fail> {
    match long_number_at(s, pos) {
        Err(f) => Err(f),
        Ok((p1, dst)) => {
            let q1 = p1 + space_run(s, p1);
            match long_number_at(s, q1) {
                Err(f) => Err(f),
                Ok((p2, src)) => {
                    let q2 = p2 + space_run(s, p2);
                    match long_number_at(s, q2) {
                        Err(f) => Err(f),
                        Ok((p3, span)) => Ok(
                            (p3 + space_run(s, p3), Translation { dst, src, span }),
                        ),
                    }
                },
            }
        },
    }
}

/// Further translations, as many as parse.
pub open spec fn more_translations(s: Seq<u8>, pos: int) -> Result<(int, Seq<Translation>), Fail>
    decreases s.len() - pos,
{
    match translation_at(s, pos) {
        Err(Fail::Error) => Ok((pos, seq![])),
        Err(f) => Err(f),
        Ok((p, t)) => if p <= pos || p > s.len() {
            Err(Fail::Error)
        } else {
            prepend(seq![t], more_translations(s, p))
        },
    }
}

/// One or more translations.
pub open spec fn translations_at(s: Seq<u8>, pos: int) -> Result<(int, Seq<Translation>), Fail> {
    match translation_at(s, pos) {
        Err(f) => Err(f),
        Ok((p, t)) => prepend(seq![t], more_translations(s, p)),
    }
}

/// `-to-`, between the two names of a map.
pub open spec fn word_to() -> Seq<u8> {
    seq!['-' as u8, 't' as u8, 'o' as u8, '-' as u8]
}

/// ` map:` and the end of its line.
pub open spec fn word_map() -> Seq<u8> {
    seq![' ' as u8, 'm' as u8, 'a' as u8, 'p' as u8, ':' as u8, '\n' as u8]
}

/// `<source>-to-<destination> map:` on a line of its own, then its
/// translations.
pub open spec fn mappe_at(s: Seq<u8>, pos: int) -> Result<(int, MappeView), Fail> {
    let a = alpha_run(s, pos);
    if a == 0 {
        Err(Fail::Error)
    } else if !tag_at(s, pos + a, word_to()) {
        Err(Fail::Error)
    } else {
        let d = pos + a + 4;
        let b = alpha_run(s, d);
        if b == 0 {
            Err(Fail::Error)
        } else if !tag_at(s, d + b, word_map()) {
            Err(Fail::Error)
        } else {
            match translations_at(s, d + b + 6) {
                Err(f) => Err(f),
                Ok((p, ts)) => Ok(
                    (
                        p,
                        MappeView {
                            src_name: s.subrange(pos, pos + a),
                            dst_name: s.subrange(d, d + b),
                            translations: ts,
                        },
                    ),
                ),
            }
        }
    }
}

/// Maps up to the end of the input.
pub open spec fn mappes_from(s: Seq<u8>, pos: int) -> Result<(int, Seq<MappeView>), Fail>
    decreases s.len() - pos,
{
    if pos >= s.len() {
        Ok((pos, seq![]))
    } else {
        match mappe_at(s, pos) {
            Err(f) => Err(f),
            Ok((p, m)) => if p <= pos || p > s.len() {
                Err(Fail::Error)
            } else {
                prepend(seq![m], mappes_from(s, p))
            },
        }
    }
}

/// Two numbers, each after at least one white space character.
pub open spec fn seed_pair_at(s: Seq<u8>, pos: int) -> Result<(int, (u128, u128)), Fail> {
    if space_run(s, pos) == 0 {
        Err(Fail::Error)
    } else {
        match long_number_at(s, pos + space_run(s, pos)) {
            Err(f) => Err(f),
            Ok((p, a)) => if space_run(s, p) == 0 {
                Err(Fail::Error)
            } else {
                match long_number_at(s, p + space_run(s, p)) {
                    Err(f) => Err(f),
                    Ok((q, b)) => Ok((q, (a, b))),
                }
            },
        }
    }
}

/// Further seed pairs, as many as parse.
pub open spec fn more_seed_pairs(s: Seq<u8>, pos: int) -> Result<(int, Seq<(u128, u128)>), Fail>
    decreases s.len() - pos,
{
    match seed_pair_at(s, pos) {
        Err(Fail::Error) => Ok((pos, seq![])),
        Err(f) => Err(f),
        Ok((p, t)) => if p <= pos || p > s.len() {
            Err(Fail::Error)
        } else {
            prepend(seq![t], more_seed_pairs(s, p))
        },
    }
}

/// `seeds:`
pub open spec fn word_seeds() -> Seq<u8> {
    seq!['s' as u8, 'e' as u8, 'e' as u8, 'd' as u8, 's' as u8, ':' as u8]
}

/// The end of a line and an empty line.
pub open spec fn word_blank_line() -> Seq<u8> {
    seq!['\n' as u8, '\n' as u8]
}

/// `seeds:` and one or more (start, length) pairs.
pub open spec fn real_seeds_at(s: Seq<u8>, pos: int) -> Result<(int, Seq<(u128, u128)>), Fail> {
    if !tag_at(s, pos, word_seeds()) {
        Err(Fail::Error)
    } else {
        match seed_pair_at(s, pos + 6) {
            Err(f) => Err(f),
            Ok((p, t)) => prepend(seq![t], more_seed_pairs(s, p)),
        }
    }
}

/// An almanac with seed ranges, as plain values.
pub struct RealAlmanachView {
    pub seed_ranges: Seq<(u128, u128)>,
    pub mappes: Seq<MappeView>,
}

impl View for RealAlmanach {
    type V = RealAlmanachView;

    open spec fn view(&self) -> RealAlmanachView {
        RealAlmanachView {
            seed_ranges: range_cells(self.seed_ranges),
            mappes: maps_view(self.mappes@),
        }
    }
}

/// A whole almanac with seed ranges.
pub open spec fn real_almanach_at(s: Seq<u8>) -> Result<(int, RealAlmanachView), Fail> {
    match real_seeds_at(s, 0) {
        Err(f) => Err(f),
        Ok((p, seeds)) => if !tag_at(s, p, word_blank_line()) {
            Err(Fail::Error)
        } else {
            match mappes_from(s, p + 2) {
                Err(f) => Err(f),
                Ok((q, maps)) => Ok((q, RealAlmanachView { seed_ranges: seeds, mappes: maps })),
            }
        },
    }
}

fn alpha_end(s: &[u8], pos: usize) -> (p: usize)
    requires
        pos <= s.len(),
    ensures
        p == pos + alpha_run(s@, pos as int),
        pos <= p <= s.len(),
{
    let mut k = pos;
    while k < s.len() && ((65 <= s[k] && s[k] <= 90) || (97 <= s[k] && s[k] <= 122))
        invariant
            pos <= k <= s.len(),
            alpha_run(s@, pos as int) == (k - pos) + alpha_run(s@, k as int),
        decreases s.len() - k,
    {
        k += 1;
    }
    proof {
        lemma_alpha_run(s@, k as int);
        lemma_alpha_run(s@, pos as int);
    }
    k
}

/// Every field below 10^20.
pub open spec fn small_translation(t: Translation) -> bool {
    below_e20(t.dst) && below_e20(t.src) && below_e20(t.span)
}

/// Reads one range of a map.
pub fn translation(s: &[u8], pos: usize) -> (r: Result<(usize, Translation), Fail>)
    requires
        pos <= s.len(),
    ensures
        at(r) == translation_at(s@, pos as int),
        r matches Ok((p, t)) ==> pos < p <= s.len() && small_translation(t),
{
    let (p1, dst) = match take_long_number(s, pos) {
        Ok(x) => x,
        Err(f) => return Err(f),
    };
    let q1 = skip_spaces(s, p1);
    let (p2, src) = match take_long_number(s, q1) {
        Ok(x) => x,
        Err(f) => return Err(f),
    };
    let q2 = skip_spaces(s, p2);
    let (p3, span) = match take_long_number(s, q2) {
        Ok(x) => x,
        Err(f) => return Err(f),
    };
    let q3 = skip_spaces(s, p3);
    proof {
        lemma_space_run(s@, p1 as int);
        lemma_space_run(s@, p2 as int);
        lemma_space_run(s@, p3 as int);
    }
    Ok((q3, Translation { dst, src, span }))
}

fn translations(s: &[u8], pos: usize) -> (r: Result<(usize, Vec<Translation>), Fail>)
    requires
        pos <= s.len(),
    ensures
        match r {
            Ok((p, ts)) => translations_at(s@, pos as int) == Ok::<(int, Seq<Translation>), Fail>(
                (p as int, ts@),
            ) && pos < p <= s.len() && forall|k: int|
                0 <= k < ts@.len() ==> small_translation(#[trigger] ts@[k]),
            Err(f) => translations_at(s@, pos as int) == Err::<(int, Seq<Translation>), Fail>(f),
        },
{
    let (p0, t0) = match translation(s, pos) {
        Ok(x) => x,
        Err(f) => return Err(f),
    };
    let mut out: Vec<Translation> = Vec::new();
    out.push(t0);
    let mut p = p0;
    loop
        invariant
            pos < p <= s.len(),
            forall|k: int| 0 <= k < out@.len() ==> small_translation(#[trigger] out@[k]),
            prepend(out@, more_translations(s@, p as int)) == translations_at(s@, pos as int),
        decreases s.len() - p,
    {
        match translation(s, p) {
            Ok((p2, t)) => {
                proof {
                    lemma_prepend_push(out@, t, more_translations(s@, p2 as int));
                }
                out.push(t);
                p = p2;
            },
            Err(Fail::Error) => {
                proof {
                    lemma_prepend_empty(out@, p as int);
                }
                return Ok((p, out));
            },
            Err(f) => {
                return Err(f);
            },
        }
    }
}

/// All translations of the map below 10^20.
pub open spec fn small_mappe(m: MappeView) -> bool {
    forall|k: int| 0 <= k < m.translations.len() ==> small_translation(#[trigger] m.translations[k])
}

fn copy_bytes(s: &[u8], lo: usize, hi: usize) -> (v: Vec<u8>)
    requires
        lo <= hi <= s.len(),
    ensures
        v@ == s@.subrange(lo as int, hi as int),
{
    let mut v: Vec<u8> = Vec::new();
    let mut k = lo;
    while k < hi
        invariant
            lo <= k <= hi <= s.len(),
            v@ == s@.subrange(lo as int, k as int),
        decreases hi - k,
    {
        v.push(s[k]);
        assert(v@ =~= s@.subrange(lo as int, k + 1));
        k += 1;
    }
    v
}

/// Reads one map: its heading line and its ranges.
pub fn mappe(s: &[u8], pos: usize) -> (r: Result<(usize, Mappe), Fail>)
    requires
        pos <= s.len(),
    ensures
        match r {
            Ok((p, m)) => mappe_at(s@, pos as int) == Ok::<(int, MappeView), Fail>((p as int, m@))
                && pos < p <= s.len() && small_mappe(m@),
            Err(f) => mappe_at(s@, pos as int) == Err::<(int, MappeView), Fail>(f),
        },
{
    let a_end = alpha_end(s, pos);
    if a_end == pos {
        return Err(Fail::Error);
    }
    let to = vec!['-' as u8, 't' as u8, 'o' as u8, '-' as u8];
    assert(to@ =~= word_to());
    if !tag(s, a_end, to.as_slice()) {
        return Err(Fail::Error);
    }
    let d = a_end + 4;
    let b_end = alpha_end(s, d);
    if b_end == d {
        return Err(Fail::Error);
    }
    let map_word = vec![' ' as u8, 'm' as u8, 'a' as u8, 'p' as u8, ':' as u8, '\n' as u8];
    assert(map_word@ =~= word_map());
    if !tag(s, b_end, map_word.as_slice()) {
        return Err(Fail::Error);
    }
    match translations(s, b_end + 6) {
        Ok((p, ts)) => {
            let src_name = copy_bytes(s, pos, a_end);
            let dst_name = copy_bytes(s, d, b_end);
            Ok((p, Mappe { src_name, dst_name, translations: translation_row(ts) }))
        },
        Err(f) => Err(f),
    }
}

fn mappes(s: &[u8], pos: usize) -> (r: Result<(usize, Vec<Mappe>), Fail>)
    requires
        pos <= s.len(),
    ensures
        match r {
            Ok((p, ms)) => mappes_from(s@, pos as int) == Ok::<(int, Seq<MappeView>), Fail>(
                (p as int, maps_view(ms@)),
            ) && bounded_maps(maps_view(ms@)),
            Err(f) => mappes_from(s@, pos as int) == Err::<(int, Seq<MappeView>), Fail>(f),
        },
{
    let mut out: Vec<Mappe> = Vec::new();
    let mut p = pos;
    loop
        invariant
            pos <= p <= s.len(),
            forall|k: int| 0 <= k < out@.len() ==> small_mappe(#[trigger] out@[k]@),
            prepend(maps_view(out@), mappes_from(s@, p as int)) == mappes_from(s@, pos as int),
        decreases s.len() - p,
    {
        if p == s.len() {
            proof {
                lemma_prepend_empty(maps_view(out@), p as int);
                lemma_small_maps_bounded(maps_view(out@));
            }
            return Ok((p, out));
        }
        match mappe(s, p) {
            Ok((p2, m)) => {
                proof {
                    lemma_prepend_push(maps_view(out@), m@, mappes_from(s@, p2 as int));
                }
                let ghost before = out@;
                out.push(m);
                assert(maps_view(out@) =~= maps_view(before).push(m@));
                p = p2;
            },
            Err(f) => {
                return Err(f);
            },
        }
    }
}

proof fn lemma_small_maps_bounded(maps: Seq<MappeView>)
    requires
        forall|k: int| 0 <= k < maps.len() ==> small_mappe(#[trigger] maps[k]),
    ensures
        bounded_maps(maps),
{
    assert forall|i: int, k: int|
        0 <= i < maps.len() && 0 <= k < maps[i].translations.len() implies {
        let t = #[trigger] maps[i].translations[k];
        t.dst < 0x10000000000000000000000000 && t.src < 0x10000000000000000000000000 && t.span
            < 0x10000000000000000000000000
    } by {
        assert(small_mappe(maps[i]));
        assert(small_translation(maps[i].translations[k]));
    }
}

/// Reads one (start, length) pair of a seed range.
pub fn seed_pair(s: &[u8], pos: usize) -> (r: Result<(usize, (u128, u128)), Fail>)
    requires
        pos <= s.len(),
    ensures
        at(r) == seed_pair_at(s@, pos as int),
        r matches Ok((p, v)) ==> pos < p <= s.len() && below_e20(v.0) && below_e20(v.1),
{
    let q0 = skip_spaces(s, pos);
    proof {
        lemma_space_run(s@, pos as int);
    }
    if q0 == pos {
        return Err(Fail::Error);
    }
    let (p, a) = match take_long_number(s, q0) {
        Ok(x) => x,
        Err(f) => return Err(f),
    };
    let q1 = skip_spaces(s, p);
    if q1 == p {
        return Err(Fail::Error);
    }
    let (q, b) = match take_long_number(s, q1) {
        Ok(x) => x,
        Err(f) => return Err(f),
    };
    Ok((q, (a, b)))
}

/// Reads `seeds:` and the seed ranges.
pub fn real_seeds(s: &[u8], pos: usize) -> (r: Result<(usize, Vec<(u128, u128)>), Fail>)
    requires
        pos <= s.len(),
    ensures
        match r {
            Ok((p, v)) => real_seeds_at(s@, pos as int) == Ok::<(int, Seq<(u128, u128)>), Fail>(
                (p as int, v@),
            ) && pos < p <= s.len() && forall|k: int|
                0 <= k < v@.len() ==> below_e20((#[trigger] v@[k]).0) && below_e20(v@[k].1),
            Err(f) => real_seeds_at(s@, pos as int) == Err::<(int, Seq<(u128, u128)>), Fail>(f),
        },
{
    let w = vec!['s' as u8, 'e' as u8, 'e' as u8, 'd' as u8, 's' as u8, ':' as u8];
    assert(w@ =~= word_seeds());
    if !tag(s, pos, w.as_slice()) {
        return Err(Fail::Error);
    }
    let (p0, t0) = match seed_pair(s, pos + 6) {
        Ok(x) => x,
        Err(f) => return Err(f),
    };
    let mut out: Vec<(u128, u128)> = Vec::new();
    out.push(t0);
    let mut p = p0;
    loop
        invariant
            pos < p <= s.len(),
            forall|k: int| 0 <= k < out@.len() ==> below_e20((#[trigger] out@[k]).0) && below_e20(out@[k].1),
            prepend(out@, more_seed_pairs(s@, p as int)) == real_seeds_at(s@, pos as int),
        decreases s.len() - p,
    {
        match seed_pair(s, p) {
            Ok((p2, t)) => {
                proof {
                    lemma_prepend_push(out@, t, more_seed_pairs(s@, p2 as int));
                }
                out.push(t);
                p = p2;
            },
            Err(Fail::Error) => {
                proof {
                    lemma_prepend_empty(out@, p as int);
                }
                return Ok((p, out));
            },
            Err(f) => {
                return Err(f);
            },
        }
    }
}

/// Reads a whole almanac with seed ranges.
pub fn real_almanach(s: &[u8]) -> (r: Result<(usize, RealAlmanach), Fail>)
    ensures
        match r {
            Ok((p, alm)) => real_almanach_at(s@) == Ok::<(int, RealAlmanachView), Fail>(
                (p as int, alm@),
            ) && bounded_maps(alm@.mappes) && forall|k: int|
                0 <= k < alm@.seed_ranges.len() ==> below_e20((#[trigger] alm@.seed_ranges[k]).0)
                    && below_e20(alm@.seed_ranges[k].1),
            Err(f) => real_almanach_at(s@) == Err::<(int, RealAlmanachView), Fail>(f),
        },
{
    let (p, seed_ranges) = match real_seeds(s, 0) {
        Ok(x) => x,
        Err(f) => return Err(f),
    };
    let blank = vec!['\n' as u8, '\n' as u8];
    assert(blank@ =~= word_blank_line());
    if !tag(s, p, blank.as_slice()) {
        return Err(Fail::Error);
    }
    match mappes(s, p + 2) {
        Ok((q, ms)) => Ok((q, RealAlmanach { seed_ranges: range_row(seed_ranges), mappes: ms })),
        Err(f) => Err(f),
    }
}

// ---------------------------------------------------------------------------
// The lowest location
// ---------------------------------------------------------------------------

/// The category of seeds.
pub open spec fn word_seed() -> Seq<u8> {
    seq!['s' as u8, 'e' as u8, 'e' as u8, 'd' as u8]
}

/// The category of locations.
pub open spec fn word_location() -> Seq<u8> {
    seq!['l' as u8, 'o' as u8, 'c' as u8, 'a' as u8, 't' as u8, 'i' as u8, 'o' as u8, 'n' as u8]
}

/// The location of a seed.
pub open spec fn location_of(maps: Seq<MappeView>, seed: int) -> int {
    translated(maps, word_seed(), word_location(), seed)
}

/// The smaller of two numbers.
pub open spec fn min(a: int, b: int) -> int {
    if b < a {
        b
    } else {
        a
    }
}

/// The lowest location of the seeds `start` to `start + n - 1` (`n >= 1`).
pub open spec fn range_min(maps: Seq<MappeView>, start: int, n: nat) -> int
    decreases n,
{
    if n <= 1 {
        location_of(maps, start)
    } else {
        min(range_min(maps, start, (n - 1) as nat), location_of(maps, start + n - 1))
    }
}

/// The lowest location over the first `k` seed ranges (`k >= 1`); a range
/// `(start, length)` covers the seeds `start` to `start + length`, both
/// included.
pub open spec fn lowest_location(maps: Seq<MappeView>, ranges: Seq<(u128, u128)>, k: int) -> int
    decreases k,
{
    if k <= 1 {
        range_min(maps, ranges[0].0 as int, (ranges[0].1 + 1) as nat)
    } else {
        min(
            lowest_location(maps, ranges, k - 1),
            range_min(maps, ranges[k - 1].0 as int, (ranges[k - 1].1 + 1) as nat),
        )
    }
}

proof fn lemma_range_min(maps: Seq<MappeView>, start: int, n: nat)
    requires
        n >= 1,
    ensures
        forall|seed: int| start <= seed < start + n ==> range_min(maps, start, n) <= location_of(
            maps,
            seed,
        ),
        exists|seed: int| start <= seed < start + n && range_min(maps, start, n) == location_of(
            maps,
            seed,
        ),
    decreases n,
{
    if n > 1 {
        lemma_range_min(maps, start, (n - 1) as nat);
        let m = range_min(maps, start, (n - 1) as nat);
        let w = choose|seed: int| start <= seed < start + n - 1 && m == location_of(maps, seed);
        if location_of(maps, start + n - 1) < m {
            assert(range_min(maps, start, n) == location_of(maps, start + n - 1));
        } else {
            assert(range_min(maps, start, n) == location_of(maps, w));
        }
    } else {
        assert(range_min(maps, start, n) == location_of(maps, start));
    }
}

/// The seed `seed` lies in one of the first `k` seed ranges.
pub open spec fn in_ranges(ranges: Seq<(u128, u128)>, k: int, seed: int) -> bool {
    exists|r: int| 0 <= r < k && (#[trigger] ranges[r]).0 <= seed <= ranges[r].0 + ranges[r].1
}

/// The lowest location over the seed ranges is the location of some seed of
/// the ranges, and no seed of the ranges has a lower one.
pub proof fn law_lowest_location_is_least(maps: Seq<MappeView>, ranges: Seq<(u128, u128)>, k: int)
    requires
        1 <= k <= ranges.len(),
    ensures
        forall|seed: int| in_ranges(ranges, k, seed) ==> lowest_location(maps, ranges, k)
            <= location_of(maps, seed),
        exists|seed: int|
            in_ranges(ranges, k, seed) && lowest_location(maps, ranges, k) == location_of(maps, seed),
    decreases k,
{
    let last = ranges[k - 1];
    lemma_range_min(maps, last.0 as int, (last.1 + 1) as nat);
    let here = range_min(maps, last.0 as int, (last.1 + 1) as nat);
    let w = choose|seed: int|
        last.0 <= seed < last.0 + last.1 + 1 && here == location_of(maps, seed);
    assert(in_ranges(ranges, k, w));
    if k == 1 {
        assert forall|seed: int| in_ranges(ranges, k, seed) implies lowest_location(maps, ranges, k)
            <= location_of(maps, seed) by {
            let r = choose|r: int| 0 <= r < k && (#[trigger] ranges[r]).0 <= seed <= ranges[r].0 + ranges[r].1;
            assert(r == 0);
        }
    } else {
        law_lowest_location_is_least(maps, ranges, k - 1);
        let before = lowest_location(maps, ranges, k - 1);
        let v = choose|seed: int|
            in_ranges(ranges, k - 1, seed) && before == location_of(maps, seed);
        let r0 = choose|r: int| 0 <= r < k - 1 && (#[trigger] ranges[r]).0 <= v <= ranges[r].0 + ranges[r].1;
        assert(in_ranges(ranges, k, v));
        assert forall|seed: int| in_ranges(ranges, k, seed) implies lowest_location(maps, ranges, k)
            <= location_of(maps, seed) by {
            let r = choose|r: int| 0 <= r < k && (#[trigger] ranges[r]).0 <= seed <= ranges[r].0 + ranges[r].1;
            if r < k - 1 {
                assert(in_ranges(ranges, k - 1, seed));
            }
        }
    }
}

/// The seed ranges can be walked with 64-bit seed numbers.
pub open spec fn ranges_fit(ranges: Seq<(u128, u128)>) -> bool {
    forall|k: int| 0 <= k < ranges.len() ==> #[trigger] ranges[k].0 + ranges[k].1 + 1 <= u64::MAX
}

/// The lowest location of the seeds from `start` to `start + len`.
fn lowest_in_range(mappes: &Vec<Mappe>, start: u128, len: u128) -> (r: u128)
    requires
        connected(maps_view(mappes@), word_seed(), word_location()),
        bounded_maps(maps_view(mappes@)),
        start + len + 1 <= u64::MAX,
    ensures
        r == range_min(maps_view(mappes@), start as int, (len + 1) as nat),
{
    let origin = vec!['s' as u8, 'e' as u8, 'e' as u8, 'd' as u8];
    let dest = vec!['l' as u8, 'o' as u8, 'c' as u8, 'a' as u8, 't' as u8, 'i' as u8, 'o' as u8, 'n' as u8];
    assert(origin@ =~= word_seed());
    assert(dest@ =~= word_location());
    let end = start + len + 1;
    let mut best = translate(start, origin.as_slice(), dest.as_slice(), mappes);
    let mut seed = start + 1;
    while seed < end
        invariant
            connected(maps_view(mappes@), word_seed(), word_location()),
            bounded_maps(maps_view(mappes@)),
            origin@ == word_seed(),
            dest@ == word_location(),
            end == start + len + 1,
            end <= u64::MAX,
            start < seed <= end,
            best == range_min(maps_view(mappes@), start as int, (seed - start) as nat),
        decreases end - seed,
    {
        let here = translate(seed, origin.as_slice(), dest.as_slice(), mappes);
        if here < best {
            best = here;
        }
        seed += 1;
    }
    best
}

/// Reads the almanac and returns where reading stopped and the lowest
/// location reached from any seed of any seed range.
pub fn b(body: &[u8]) -> (r: Result<(usize, u128), Fail>)
    requires
        real_almanach_at(body@) matches Ok((_, alm)) ==> connected(
            alm.mappes,
            word_seed(),
            word_location(),
        ) && ranges_fit(alm.seed_ranges),
    ensures
        match real_almanach_at(body@) {
            Ok((p, alm)) => r matches Ok((q, low)) && q == p && low == lowest_location(
                alm.mappes,
                alm.seed_ranges,
                alm.seed_ranges.len() as int,
            ),
            Err(f) => r == Err::<(usize, u128), Fail>(f),
        },
{
    let (p, alm) = match real_almanach(body) {
        Ok(x) => x,
        Err(f) => return Err(f),
    };
    let ghost maps = maps_view(alm.mappes@);
    let ghost ranges = range_cells(alm.seed_ranges);
    let n = range_count(&alm.seed_ranges);
    if n == 0 {
        // one pair at least is always read
        assert(false);
        return Err(Fail::Error);
    }
    let (s0, l0) = range_get(&alm.seed_ranges, 0);
    let mut lowest = lowest_in_range(&alm.mappes, s0, l0);
    let mut k: usize = 1;
    while k < n
        invariant
            1 <= k <= n,
            n == ranges.len(),
            maps == maps_view(alm.mappes@),
            ranges == range_cells(alm.seed_ranges),
            connected(maps, word_seed(), word_location()),
            bounded_maps(maps),
            ranges_fit(ranges),
            lowest == lowest_location(maps, ranges, k as int),
        decreases n - k,
    {
        let (s, l) = range_get(&alm.seed_ranges, k);
        assert(ranges[k as int].0 + ranges[k as int].1 + 1 <= u64::MAX);
        let here = lowest_in_range(&alm.mappes, s, l);
        if here < lowest {
            lowest = here;
        }
        k += 1;
    }
    Ok((p, lowest))
}

// ---------------------------------------------------------------------------
// Almanacs that list single seeds
// ---------------------------------------------------------------------------

/// A number after optional white space.
pub open spec fn seed_at(s: Seq<u8>, pos: int) -> Result<(int, u128), Fail> {
    long_number_at(s, pos + space_run(s, pos))
}

/// Further seeds, as many as parse.
pub open spec fn more_seeds(s: Seq<u8>, pos: int) -> Result<(int, Seq<u128>), Fail>
    decreases s.len() - pos,
{
    match seed_at(s, pos) {
        Err(Fail::Error) => Ok((pos, seq![])),
        Err(f) => Err(f),
        Ok((p, v)) => if p <= pos || p > s.len() {
            Err(Fail::Error)
        } else {
            prepend(seq![v], more_seeds(s, p))
        },
    }
}

/// `seeds:` and one or more seed numbers.
pub open spec fn seeds_at(s: Seq<u8>, pos: int) -> Result<(int, Seq<u128>), Fail> {
    if !tag_at(s, pos, word_seeds()) {
        Err(Fail::Error)
    } else {
        match seed_at(s, pos + 6) {
            Err(f) => Err(f),
            Ok((p, v)) => prepend(seq![v], more_seeds(s, p)),
        }
    }
}

/// An almanac with single seeds, as plain values.
pub struct AlmanachView {
    pub seeds: Seq<u128>,
    pub mappes: Seq<MappeView>,
}

impl View for Almanach {
    type V = AlmanachView;

    open spec fn view(&self) -> AlmanachView {
        AlmanachView { seeds: seed_cells(self.seeds), mappes: maps_view(self.mappes@) }
    }
}

/// A whole almanac with single seeds.
pub open spec fn almanach_at(s: Seq<u8>) -> Result<(int, AlmanachView), Fail> {
    match seeds_at(s, 0) {
        Err(f) => Err(f),
        Ok((p, seeds)) => if !tag_at(s, p, word_blank_line()) {
            Err(Fail::Error)
        } else {
            match mappes_from(s, p + 2) {
                Err(f) => Err(f),
                Ok((q, maps)) => Ok((q, AlmanachView { seeds, mappes: maps })),
            }
        },
    }
}

/// Reads `seeds:` and the single seed numbers.
pub fn seeds(s: &[u8], pos: usize) -> (r: Result<(usize, Row<u128>), Fail>)
    requires
        pos <= s.len(),
    ensures
        match r {
            Ok((p, v)) => seeds_at(s@, pos as int) == Ok::<(int, Seq<u128>), Fail>(
                (p as int, seed_cells(v)),
            ) && pos < p <= s.len(),
            Err(f) => seeds_at(s@, pos as int) == Err::<(int, Seq<u128>), Fail>(f),
        },
{
    let w = vec!['s' as u8, 'e' as u8, 'e' as u8, 'd' as u8, 's' as u8, ':' as u8];
    assert(w@ =~= word_seeds());
    if !tag(s, pos, w.as_slice()) {
        return Err(Fail::Error);
    }
    let (p0, v0) = match take_long_number(s, skip_spaces(s, pos + 6)) {
        Ok(x) => x,
        Err(f) => return Err(f),
    };
    let mut out: Vec<u128> = Vec::new();
    out.push(v0);
    let mut p = p0;
    loop
        invariant
            pos < p <= s.len(),
            prepend(out@, more_seeds(s@, p as int)) == seeds_at(s@, pos as int),
        decreases s.len() - p,
    {
        let q = skip_spaces(s, p);
        match take_long_number(s, q) {
            Ok((p2, v)) => {
                proof {
                    lemma_prepend_push(out@, v, more_seeds(s@, p2 as int));
                }
                out.push(v);
                p = p2;
            },
            Err(Fail::Error) => {
                proof {
                    lemma_prepend_empty(out@, p as int);
                }
                return Ok((p, seed_row(out)));
            },
            Err(f) => {
                return Err(f);
            },
        }
    }
}

/// Reads a whole almanac with single seeds.
pub fn almanach(s: &[u8]) -> (r: Result<(usize, Almanach), Fail>)
    ensures
        match r {
            Ok((p, alm)) => almanach_at(s@) == Ok::<(int, AlmanachView), Fail>((p as int, alm@)),
            Err(f) => almanach_at(s@) == Err::<(int, AlmanachView), Fail>(f),
        },
{
    let (p, seeds) = match seeds(s, 0) {
        Ok(x) => x,
        Err(f) => return Err(f),
    };
    let blank = vec!['\n' as u8, '\n' as u8];
    assert(blank@ =~= word_blank_line());
    if !tag(s, p, blank.as_slice()) {
        return Err(Fail::Error);
    }
    match mappes(s, p + 2) {
        Ok((q, ms)) => Ok((q, Almanach { seeds, mappes: ms })),
        Err(f) => Err(f),
    }
}

/// Following sources back from `destination` leads to a map from `origin`
/// within as many further maps as there are maps.
pub fn connects(mappes: &Vec<Mappe>, origin: &[u8], destination: &[u8]) -> (r: bool)
    ensures
        r == reaches(maps_view(mappes@), origin@, destination@, mappes.len() as nat),
{
    let ghost maps = maps_view(mappes@);
    let mut name: Vec<u8> = copy_bytes(destination, 0, destination.len());
    assert(name@ =~= destination@);
    let mut left: usize = mappes.len();
    loop
        invariant
            maps == maps_view(mappes@),
            left <= mappes.len(),
            reaches(maps, origin@, destination@, mappes.len() as nat) == reaches(
                maps,
                origin@,
                name@,
                left as nat,
            ),
        decreases left,
    {
        match lookup_exec(mappes, name.as_slice()) {
            None => {
                return false;
            },
            Some(i) => {
                assert(maps[i as int] == mappes@[i as int]@);
                let src = mappes[i].src_name.as_slice();
                if bytes_equal(src, origin) {
                    return true;
                }
                if left == 0 {
                    return false;
                }
                name = copy_bytes(src, 0, src.len());
                assert(name@ =~= maps[i as int].src_name);
                left -= 1;
            },
        }
    }
}

/// Every seed range can be walked with 64-bit seed numbers.
pub fn ranges_fit_check(ranges: &Row<(u128, u128)>) -> (r: bool)
    ensures
        r == ranges_fit(range_cells(*ranges)),
{
    let ghost cells = range_cells(*ranges);
    let n = range_count(ranges);
    let mut k: usize = 0;
    while k < n
        invariant
            cells == range_cells(*ranges),
            n == cells.len(),
            k <= n,
            forall|t: int| 0 <= t < k ==> #[trigger] cells[t].0 + cells[t].1 + 1 <= u64::MAX,
        decreases n - k,
    {
        let (start, len) = range_get(ranges, k);
        if start > 0xffff_ffff_ffff_ffff || len > 0xffff_ffff_ffff_ffff || start + len + 1
            > 0xffff_ffff_ffff_ffff {
            assert(cells[k as int].0 + cells[k as int].1 + 1 > u64::MAX);
            return false;
        }
        k += 1;
    }
    true
}

} // verus!
