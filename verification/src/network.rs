//! The haunted network: a list of left/right instructions and nodes
//! `AAA = (BBB, CCC)` naming the left and right successor of each node.
//! From every node ending in `A`, the instructions are followed round and
//! round until a node ending in `Z` is reached; the answer is the least
//! common multiple of the numbers of steps.
use vstd::prelude::*;
use std::collections::hash_map::RandomState;
use petgraph::graphmap::{DiGraphMap, GraphMap};
use petgraph::Directed;
use crate::text::{
    Fail, at, lemma_prepend_empty, lemma_prepend_push, prepend, tag, tag_at, tag_byte,
};

verus! {

// ---------------------------------------------------------------------------
// The graph, kept in petgraph's `GraphMap`
// ---------------------------------------------------------------------------

/// petgraph's marker of directed graphs.
#[verifier::external_type_specification]
#[verifier::external_body]
pub struct ExDirected(Directed);

/// petgraph's graph kept in hash maps keyed by node.
#[verifier::external_type_specification]
#[verifier::external_body]
#[verifier::reject_recursive_types(N)]
#[verifier::reject_recursive_types(E)]
#[verifier::reject_recursive_types(Ty)]
#[verifier::reject_recursive_types(S)]
pub struct ExGraphMap<N, E, Ty, S: std::hash::BuildHasher>(GraphMap<N, E, Ty, S>);

/// The graph of the network: nodes are the three letters packed into a
/// number, edge weights are 0 for left and 1 for right.
pub type Network = GraphMap<u32, u8, Directed, RandomState>;

/// The outgoing edges of each node of the graph, as (target, weight) pairs
/// in the order the edges were first added.
pub uninterp spec fn out_edges(g: Network) -> Map<u32, Seq<(u32, u8)>>;

/// The edges of `a`, or none when `a` is not a node.
pub open spec fn edges_of(m: Map<u32, Seq<(u32, u8)>>, a: u32) -> Seq<(u32, u8)> {
    if m.contains_key(a) {
        m[a]
    } else {
        seq![]
    }
}

/// The edge list after setting the weight of the edge to `b`: the first
/// entry for `b` takes the new weight, or a new entry goes at the end.
pub open spec fn set_edge(l: Seq<(u32, u8)>, b: u32, w: u8) -> Seq<(u32, u8)>
    decreases l.len(),
{
    if l.len() == 0 {
        seq![(b, w)]
    } else if l[0].0 == b {
        l.update(0, (b, w))
    } else {
        seq![l[0]] + set_edge(l.drop_first(), b, w)
    }
}

/// The graph after `add_edge(a, b, w)`: both ends become nodes.
pub open spec fn edge_added(m: Map<u32, Seq<(u32, u8)>>, a: u32, b: u32, w: u8) -> Map<
    u32,
    Seq<(u32, u8)>,
> {
    let m2 = m.insert(a, set_edge(edges_of(m, a), b, w));
    if m2.contains_key(b) {
        m2
    } else {
        m2.insert(b, seq![])
    }
}

/// A graph without nodes.
pub open spec fn no_nodes() -> Map<u32, Seq<(u32, u8)>> {
    Map::empty()
}

/// `GraphMap::with_capacity`: an empty graph.
#[verifier::external_body]
fn new_network(nodes: usize, edges: usize) -> (r: Network)
    ensures
        out_edges(r) == no_nodes(),
{
    DiGraphMap::with_capacity(nodes, edges)
}

/// `GraphMap::add_node`: `n` becomes a node, its edges unchanged if it was
/// one already.
#[verifier::external_body]
fn add_network_node(g: &mut Network, n: u32)
    ensures
        out_edges(*final(g)) == if out_edges(*old(g)).contains_key(n) {
            out_edges(*old(g))
        } else {
            out_edges(*old(g)).insert(n, seq![])
        },
{
    g.add_node(n);
}

/// `GraphMap::add_edge`: the edge from `a` to `b` gets weight `w`; a new
/// edge goes at the end of `a`'s edges, an existing one keeps its place.
#[verifier::external_body]
fn add_network_edge(g: &mut Network, a: u32, b: u32, w: u8)
    ensures
        out_edges(*final(g)) == edge_added(out_edges(*old(g)), a, b, w),
{
    g.add_edge(a, b, w);
}

/// `GraphMap::edges`: the edges out of `a` in order, as (a, target, weight).
#[verifier::external_body]
fn network_edges(g: &Network, a: u32) -> (r: Vec<(u32, u32, u8)>)
    ensures
        r@ == edges_of(out_edges(*g), a).map_values(|e: (u32, u8)| (a, e.0, e.1)),
{
    g.edges(a).map(|(x, y, w)| (x, y, *w)).collect()
}

/// `GraphMap::add_node` as the graph's edges see it.
pub open spec fn node_added(m: Map<u32, Seq<(u32, u8)>>, n: u32) -> Map<u32, Seq<(u32, u8)>> {
    if m.contains_key(n) {
        m
    } else {
        m.insert(n, seq![])
    }
}

// ---------------------------------------------------------------------------
// Nodes and instructions
// ---------------------------------------------------------------------------

/// A direction to take.
#[derive(Clone, Copy, Debug, PartialEq, Eq, Structural, Hash)]
pub enum LR {
    L,
    R,
}

/// The edge weight that stands for a direction.
pub open spec fn weight(d: LR) -> u8 {
    match d {
        LR::L => 0,
        LR::R => 1,
    }
}

/// A node: three letters.
pub type Ingot = [u8; 3];

/// The number that stands for three letters in the graph.
pub open spec fn code(s: Seq<u8>) -> u32 {
    (s[0] * 65536 + s[1] * 256 + s[2]) as u32
}

/// The last letter of the node with this number.
pub open spec fn last_letter(c: u32) -> u8 {
    (c % 256) as u8
}

/// The number that stands for the node.
pub fn ingot_code(i: &Ingot) -> (c: u32)
    ensures
        c == code(i@),
{
    i[0] as u32 * 65536 + i[1] as u32 * 256 + i[2] as u32
}

/// The three letters of the node with this number.
pub fn ingot_of(c: u32) -> (i: Ingot)
    ensures
        c < 0x100_0000 ==> code(i@) == c,
{
    let i: Ingot = [((c / 65536) % 256) as u8, ((c / 256) % 256) as u8, (c % 256) as u8];
    if c < 0x100_0000 {
        assert(i@[0] * 65536 + i@[1] * 256 + i@[2] == c);
    }
    i
}

proof fn lemma_code_last(s: Seq<u8>)
    requires
        s.len() == 3,
    ensures
        last_letter(code(s)) == s[2],
{
    let c = s[0] * 65536 + s[1] * 256 + s[2];
    assert(c < 0x1000000);
    assert(c % 256 == s[2]) by (nonlinear_arith)
        requires
            c == s[0] * 65536 + s[1] * 256 + s[2],
            0 <= s[0] < 256,
            0 <= s[1] < 256,
            0 <= s[2] < 256,
    ;
}

/// The first three bytes of `input` (zero where it is shorter).
pub fn mangle(input: &[u8]) -> (buf: Ingot)
    ensures
        forall|i: int| 0 <= i < 3 ==> buf@[i] == if i < input@.len() { input@[i] } else { 0u8 },
{
    let a = if input.len() > 0 { input[0] } else { 0 };
    let b = if input.len() > 1 { input[1] } else { 0 };
    let c = if input.len() > 2 { input[2] } else { 0 };
    [a, b, c]
}

// ---------------------------------------------------------------------------
// The grammar of the network
// ---------------------------------------------------------------------------

/// An ASCII capital letter.
pub open spec fn is_upper(b: u8) -> bool {
    65 <= b <= 90
}

/// Three capital letters at `pos` (`take_while_m_n(3, 3, ..)`), as their
/// number.
pub open spec fn ingot_at(s: Seq<u8>, pos: int) -> Result<(int, u32), Fail> {
    if 0 <= pos && pos + 3 <= s.len() && is_upper(s[pos]) && is_upper(s[pos + 1]) && is_upper(
        s[pos + 2],
    ) {
        Ok((pos + 3, code(s.subrange(pos, pos + 3))))
    } else {
        Err(Fail::Error)
    }
}

/// One node line: `AAA = (BBB, CCC)` and an optional line feed.
pub struct RawView {
    pub ingot: u32,
    pub left: u32,
    pub right: u32,
}

/// ` = (` between a node and its successors.
pub open spec fn word_equals() -> Seq<u8> {
    seq![' ' as u8, '=' as u8, ' ' as u8]
}

/// `, ` between the two successors.
pub open spec fn word_comma() -> Seq<u8> {
    seq![',' as u8, ' ' as u8]
}

/// A node line: the node, its left and right successors, and an optional
/// line feed.
pub open spec fn raw_poopoo_at(s: Seq<u8>, pos: int) -> Result<(int, RawView), Fail> {
    match ingot_at(s, pos) {
        Err(f) => Err(f),
        Ok((p1, n)) => if !tag_at(s, p1, word_equals()) || !tag_at(s, p1 + 3, seq!['(' as u8]) {
            Err(Fail::Error)
        } else {
            match ingot_at(s, p1 + 4) {
                Err(f) => Err(f),
                Ok((p2, l)) => if !tag_at(s, p2, word_comma()) {
                    Err(Fail::Error)
                } else {
                    match ingot_at(s, p2 + 2) {
                        Err(f) => Err(f),
                        Ok((p3, r)) => if !tag_at(s, p3, seq![')' as u8]) {
                            Err(Fail::Error)
                        } else {
                            Ok(
                                (
                                    if tag_at(s, p3 + 1, seq!['\n' as u8]) {
                                        p3 + 2
                                    } else {
                                        p3 + 1
                                    },
                                    RawView { ingot: n, left: l, right: r },
                                ),
                            )
                        },
                    }
                },
            }
        },
    }
}

/// Further node lines, as many as parse.
pub open spec fn more_raws(s: Seq<u8>, pos: int) -> Result<(int, Seq<RawView>), Fail>
    decreases s.len() - pos,
{
    match raw_poopoo_at(s, pos) {
        Err(Fail::Error) => Ok((pos, seq![])),
        Err(f) => Err(f),
        Ok((p, r)) => if p <= pos || p > s.len() {
            Err(Fail::Error)
        } else {
            prepend(seq![r], more_raws(s, p))
        },
    }
}

/// One or more node lines.
pub open spec fn raws_at(s: Seq<u8>, pos: int) -> Result<(int, Seq<RawView>), Fail> {
    match raw_poopoo_at(s, pos) {
        Err(f) => Err(f),
        Ok((p, r)) => prepend(seq![r], more_raws(s, p)),
    }
}

/// An instruction: `L` or `R`.
pub open spec fn is_lr(b: u8) -> bool {
    b == 'L' as u8 || b == 'R' as u8
}

/// The number of consecutive `L` and `R` from `pos` on.
pub open spec fn lr_run(s: Seq<u8>, pos: int) -> int
    decreases s.len() - pos,
{
    if pos < 0 || pos >= s.len() || !is_lr(s[pos]) {
        0
    } else {
        1 + lr_run(s, pos + 1)
    }
}

proof fn lemma_lr_run(s: Seq<u8>, pos: int)
    requires
        0 <= pos <= s.len(),
    ensures
        0 <= lr_run(s, pos) <= s.len() - pos,
        forall|k: int| pos <= k < pos + lr_run(s, pos) ==> is_lr(#[trigger] s[k]),
    decreases s.len() - pos,
{
    if pos < s.len() && is_lr(s[pos]) {
        lemma_lr_run(s, pos + 1);
    }
}

/// The direction a letter stands for.
pub open spec fn direction(b: u8) -> LR {
    if b == 'L' as u8 {
        LR::L
    } else {
        LR::R
    }
}

/// The instructions, a blank line and the node lines.
pub open spec fn peepee_at(s: Seq<u8>) -> Result<(int, (Seq<LR>, Seq<RawView>)), Fail> {
    let n = lr_run(s, 0);
    if n == 0 {
        Err(Fail::Error)
    } else if !tag_at(s, n, seq!['\n' as u8, '\n' as u8]) {
        Err(Fail::Error)
    } else {
        match raws_at(s, n + 2) {
            Err(f) => Err(f),
            Ok((p, raws)) => Ok((p, (s.subrange(0, n).map_values(|b: u8| direction(b)), raws))),
        }
    }
}

/// The graph that the node lines build: each node with an edge of weight
/// 0 to its left and of weight 1 to its right successor.
pub open spec fn build_graph(raws: Seq<RawView>) -> Map<u32, Seq<(u32, u8)>>
    decreases raws.len(),
{
    if raws.len() == 0 {
        no_nodes()
    } else {
        let r = raws.last();
        let g = node_added(build_graph(raws.drop_last()), r.ingot);
        edge_added(edge_added(g, r.ingot, r.left, 0), r.ingot, r.right, 1)
    }
}

/// The nodes ending in `A`, in order.
pub open spec fn start_nodes(raws: Seq<RawView>) -> Seq<u32>
    decreases raws.len(),
{
    if raws.len() == 0 {
        seq![]
    } else if last_letter(raws.last().ingot) == 'A' as u8 {
        start_nodes(raws.drop_last()).push(raws.last().ingot)
    } else {
        start_nodes(raws.drop_last())
    }
}

/// One node line: the node and its left and right successors.
#[derive(Clone, Copy, Debug)]
pub struct RawPoopoo {
    pub ingot: Ingot,
    pub snakes: (Ingot, Ingot),
}

impl View for RawPoopoo {
    type V = RawView;

    open spec fn view(&self) -> RawView {
        RawView { ingot: code(self.ingot@), left: code(self.snakes.0@), right: code(self.snakes.1@) }
    }
}

/// The instructions, the graph and the nodes to start from.
pub struct Peepee {
    pub caca: Vec<LR>,
    pub poopoo: Network,
    pub starts: Vec<Ingot>,
}

/// Three capital letters.
pub fn ingot(s: &[u8], pos: usize) -> (r: Result<(usize, Ingot), Fail>)
    requires
        pos <= s.len(),
    ensures
        match r {
            Ok((p, i)) => ingot_at(s@, pos as int) == Ok::<(int, u32), Fail>((p as int, code(i@)))
                && pos < p <= s.len() && i@.len() == 3 && i@ == s@.subrange(pos as int, p as int),
            Err(f) => ingot_at(s@, pos as int) == Err::<(int, u32), Fail>(f),
        },
{
    if s.len() - pos >= 3 && 65 <= s[pos] && s[pos] <= 90 && 65 <= s[pos + 1] && s[pos + 1] <= 90
        && 65 <= s[pos + 2] && s[pos + 2] <= 90 {
        let i = mangle(&[s[pos], s[pos + 1], s[pos + 2]]);
        assert(i@ =~= s@.subrange(pos as int, pos + 3));
        Ok((pos + 3, i))
    } else {
        Err(Fail::Error)
    }
}

/// Reads one node line.
pub fn raw_poopoo(s: &[u8], pos: usize) -> (r: Result<(usize, RawPoopoo), Fail>)
    requires
        pos <= s.len(),
    ensures
        match r {
            Ok((p, v)) => raw_poopoo_at(s@, pos as int) == Ok::<(int, RawView), Fail>(
                (p as int, v@),
            ) && pos < p <= s.len(),
            Err(f) => raw_poopoo_at(s@, pos as int) == Err::<(int, RawView), Fail>(f),
        },
{
    let (p1, the_ingot) = match ingot(s, pos) {
        Ok(x) => x,
        Err(f) => return Err(f),
    };
    let eq = vec![' ' as u8, '=' as u8, ' ' as u8];
    assert(eq@ =~= word_equals());
    if !tag(s, p1, eq.as_slice()) {
        return Err(Fail::Error);
    }
    if !tag_byte(s, p1 + 3, '(' as u8) {
        return Err(Fail::Error);
    }
    let (p2, l) = match ingot(s, p1 + 4) {
        Ok(x) => x,
        Err(f) => return Err(f),
    };
    let comma = vec![',' as u8, ' ' as u8];
    assert(comma@ =~= word_comma());
    if !tag(s, p2, comma.as_slice()) {
        return Err(Fail::Error);
    }
    let (p3, r) = match ingot(s, p2 + 2) {
        Ok(x) => x,
        Err(f) => return Err(f),
    };
    if !tag_byte(s, p3, ')' as u8) {
        return Err(Fail::Error);
    }
    let q = if tag_byte(s, p3 + 1, '\n' as u8) { p3 + 2 } else { p3 + 1 };
    Ok((q, RawPoopoo { ingot: the_ingot, snakes: (l, r) }))
}

fn raws(s: &[u8], pos: usize) -> (r: Result<(usize, Vec<RawPoopoo>), Fail>)
    requires
        pos <= s.len(),
    ensures
        match r {
            Ok((p, v)) => raws_at(s@, pos as int) == Ok::<(int, Seq<RawView>), Fail>(
                (p as int, v@.map_values(|x: RawPoopoo| x@)),
            ),
            Err(f) => raws_at(s@, pos as int) == Err::<(int, Seq<RawView>), Fail>(f),
        },
{
    let (p0, r0) = match raw_poopoo(s, pos) {
        Ok(x) => x,
        Err(f) => return Err(f),
    };
    let mut out: Vec<RawPoopoo> = Vec::new();
    out.push(r0);
    assert(out@.map_values(|x: RawPoopoo| x@) =~= seq![r0@]);
    let mut p = p0;
    loop
        invariant
            pos < p <= s.len(),
            prepend(out@.map_values(|x: RawPoopoo| x@), more_raws(s@, p as int)) == raws_at(
                s@,
                pos as int,
            ),
        decreases s.len() - p,
    {
        match raw_poopoo(s, p) {
            Ok((p2, v)) => {
                proof {
                    lemma_prepend_push(
                        out@.map_values(|x: RawPoopoo| x@),
                        v@,
                        more_raws(s@, p2 as int),
                    );
                }
                let ghost before = out@;
                out.push(v);
                assert(out@.map_values(|x: RawPoopoo| x@) =~= before.map_values(
                    |x: RawPoopoo| x@,
                ).push(v@));
                p = p2;
            },
            Err(Fail::Error) => {
                proof {
                    lemma_prepend_empty(out@.map_values(|x: RawPoopoo| x@), p as int);
                }
                return Ok((p, out));
            },
            Err(f) => {
                return Err(f);
            },
        }
    }
}

/// Reads the instructions and the node lines and builds the graph.
pub fn peepee(s: &[u8]) -> (r: Result<(usize, Peepee), Fail>)
    ensures
        match peepee_at(s@) {
            Ok((p, (dirs, rs))) => r matches Ok((q, pp)) && q == p && pp.caca@ == dirs && out_edges(
                pp.poopoo,
            ) == build_graph(rs) && pp.starts@.map_values(|i: Ingot| code(i@)) == start_nodes(rs)
                && forall|k: int| 0 <= k < pp.starts@.len() ==> (#[trigger] pp.starts@[k])@.len()
                == 3,
            Err(f) => r matches Err(g) && g == f,
        },
{
    let mut poopoo = new_network(512, 512);
    let mut n: usize = 0;
    while n < s.len() && (s[n] == 'L' as u8 || s[n] == 'R' as u8)
        invariant
            n <= s.len(),
            lr_run(s@, 0) == n + lr_run(s@, n as int),
        decreases s.len() - n,
    {
        n += 1;
    }
    proof {
        lemma_lr_run(s@, 0);
    }
    if n == 0 {
        return Err(Fail::Error);
    }
    let blank = vec!['\n' as u8, '\n' as u8];
    assert(blank@ =~= seq!['\n' as u8, '\n' as u8]);
    if !tag(s, n, blank.as_slice()) {
        return Err(Fail::Error);
    }
    let (p, raw_poopoos) = match raws(s, n + 2) {
        Ok(x) => x,
        Err(f) => return Err(f),
    };
    let ghost rs = raw_poopoos@.map_values(|x: RawPoopoo| x@);
    let mut starts: Vec<Ingot> = Vec::new();
    let mut i: usize = 0;
    while i < raw_poopoos.len()
        invariant
            i <= raw_poopoos.len(),
            rs == raw_poopoos@.map_values(|x: RawPoopoo| x@),
            out_edges(poopoo) == build_graph(rs.take(i as int)),
            starts@.map_values(|i: Ingot| code(i@)) == start_nodes(rs.take(i as int)),
            forall|k: int| 0 <= k < starts@.len() ==> (#[trigger] starts@[k])@.len() == 3,
        decreases raw_poopoos.len() - i,
    {
        assert(rs.take(i + 1).drop_last() =~= rs.take(i as int));
        let raw = raw_poopoos[i];
        assert(rs[i as int] == raw@);
        let c = ingot_code(&raw.ingot);
        add_network_node(&mut poopoo, c);
        add_network_edge(&mut poopoo, c, ingot_code(&raw.snakes.0), 0);
        add_network_edge(&mut poopoo, c, ingot_code(&raw.snakes.1), 1);
        proof {
            lemma_code_last(raw.ingot@);
        }
        if raw.ingot[2] == 'A' as u8 {
            let ghost before = starts@;
            starts.push(raw.ingot);
            assert(starts@.map_values(|i: Ingot| code(i@)) =~= before.map_values(
                |i: Ingot| code(i@),
            ).push(c));
        }
        i += 1;
    }
    assert(rs.take(i as int) =~= rs);
    let mut caca: Vec<LR> = Vec::new();
    let mut k: usize = 0;
    while k < n
        invariant
            k <= n <= s.len(),
            forall|t: int| 0 <= t < n ==> is_lr(#[trigger] s@[t]),
            caca@ == s@.subrange(0, k as int).map_values(|b: u8| direction(b)),
        decreases n - k,
    {
        let d = if s[k] == 'L' as u8 { LR::L } else { LR::R };
        caca.push(d);
        assert(caca@ =~= s@.subrange(0, k + 1).map_values(|b: u8| direction(b)));
        k += 1;
    }
    Ok((p, Peepee { caca, poopoo, starts }))
}

// ---------------------------------------------------------------------------
// Walking the network
// ---------------------------------------------------------------------------

/// The target of the first edge with weight `w`.
pub open spec fn first_with_weight(es: Seq<(u32, u8)>, w: u8) -> Option<u32>
    decreases es.len(),
{
    if es.len() == 0 {
        None
    } else if es[0].1 == w {
        Some(es[0].0)
    } else {
        first_with_weight(es.drop_first(), w)
    }
}

/// The node one step from `c` in direction `d`: the only edge's target
/// when there is one edge, else the target of the first edge of that
/// direction; none when there is no such edge.
pub open spec fn next_node(m: Map<u32, Seq<(u32, u8)>>, c: u32, d: LR) -> Option<u32> {
    let es = edges_of(m, c);
    if es.len() == 0 {
        None
    } else if es.len() < 2 {
        Some(es[0].0)
    } else {
        first_with_weight(es, weight(d))
    }
}

/// The node after `n` steps from `c`, the instructions taken round and
/// round.
pub open spec fn walk(m: Map<u32, Seq<(u32, u8)>>, dirs: Seq<LR>, c: u32, n: nat) -> Option<u32>
    decreases n,
{
    if n == 0 {
        Some(c)
    } else {
        match walk(m, dirs, c, (n - 1) as nat) {
            Some(x) => next_node(m, x, dirs[(n - 1) % (dirs.len() as int)]),
            None => None,
        }
    }
}

/// After `n >= 1` steps from `c` the walk stands on a node ending in `Z`.
pub open spec fn z_after(m: Map<u32, Seq<(u32, u8)>>, dirs: Seq<LR>, c: u32, n: nat) -> bool {
    &&& n >= 1
    &&& walk(m, dirs, c, n) matches Some(x) && last_letter(x) == 'Z' as u8
}

/// The walk from `c` reaches a node ending in `Z`.
pub open spec fn reaches_z(m: Map<u32, Seq<(u32, u8)>>, dirs: Seq<LR>, c: u32) -> bool {
    exists|n: nat| z_after(m, dirs, c, n)
}

/// The number of steps from `c` to the first node ending in `Z` (none when
/// `c` itself ends in `Z`).
pub open spec fn steps_to_z(m: Map<u32, Seq<(u32, u8)>>, dirs: Seq<LR>, c: u32) -> nat {
    if last_letter(c) == 'Z' as u8 {
        0
    } else {
        choose|n: nat| z_after(m, dirs, c, n) && forall|k: nat| 1 <= k < n ==> !z_after(m, dirs, c, k)
    }
}

proof fn lemma_least_z(m: Map<u32, Seq<(u32, u8)>>, dirs: Seq<LR>, c: u32, n: nat)
    requires
        z_after(m, dirs, c, n),
    ensures
        exists|l: nat| z_after(m, dirs, c, l) && forall|k: nat| 1 <= k < l ==> !z_after(m, dirs, c, k),
    decreases n,
{
    if exists|k: nat| 1 <= k < n && z_after(m, dirs, c, k) {
        let k = choose|k: nat| 1 <= k < n && z_after(m, dirs, c, k);
        lemma_least_z(m, dirs, c, k);
    }
}

proof fn lemma_walk_prefix(m: Map<u32, Seq<(u32, u8)>>, dirs: Seq<LR>, c: u32, k: nat, n: nat)
    requires
        k <= n,
        walk(m, dirs, c, n) is Some,
    ensures
        walk(m, dirs, c, k) is Some,
    decreases n,
{
    if k < n {
        lemma_walk_prefix(m, dirs, c, k, (n - 1) as nat);
    }
}

/// The target of the first edge with weight `w`.
fn find_weight(hng: &Vec<(u32, u32, u8)>, w: u8) -> (r: Option<u32>)
    ensures
        r == first_with_weight(hng@.map_values(|e: (u32, u32, u8)| (e.1, e.2)), w),
{
    let ghost es = hng@.map_values(|e: (u32, u32, u8)| (e.1, e.2));
    let mut i: usize = 0;
    assert(es.skip(0) =~= es);
    while i < hng.len()
        invariant
            i <= hng.len(),
            es == hng@.map_values(|e: (u32, u32, u8)| (e.1, e.2)),
            first_with_weight(es, w) == first_with_weight(es.skip(i as int), w),
        decreases hng.len() - i,
    {
        assert(es.skip(i as int).drop_first() =~= es.skip(i + 1));
        assert(es.skip(i as int)[0] == (hng@[i as int].1, hng@[i as int].2));
        if hng[i].2 == w {
            return Some(hng[i].1);
        }
        i += 1;
    }
    None
}

fn lr_weight(d: LR) -> (w: u8)
    ensures
        w == weight(d),
{
    match d {
        LR::L => 0,
        LR::R => 1,
    }
}

proof fn lemma_mod_step(q: int, len: int, i: int)
    requires
        len > 0,
        0 <= i < len,
        q >= 0,
    ensures
        (q * len + i) % len == i,
{
    assert((q * len + i) % len == i) by (nonlinear_arith)
        requires
            len > 0,
            0 <= i < len,
            q >= 0,
    ;
}

/// Follows the instructions from `start`, round and round, to the first node
/// ending in `Z`; returns the number of steps and that node.
pub fn walk_to_z(g: &Network, caca: &Vec<LR>, start: u32) -> (r: (usize, u32))
    requires
        caca.len() > 0,
        last_letter(start) == 'Z' as u8 || reaches_z(out_edges(*g), caca@, start),
        steps_to_z(out_edges(*g), caca@, start) <= usize::MAX,
    ensures
        r.0 == steps_to_z(out_edges(*g), caca@, start),
        walk(out_edges(*g), caca@, start, r.0 as nat) == Some(r.1),
{
    let ghost m = out_edges(*g);
    let ghost dirs = caca@;
    let ghost target: nat = steps_to_z(m, dirs, start);
    proof {
        if last_letter(start) != 'Z' as u8 {
            let n = choose|n: nat| z_after(m, dirs, start, n);
            lemma_least_z(m, dirs, start, n);
        }
    }
    let len = caca.len();
    let mut cur = start;
    let mut final_steps: usize = 0;
    let ghost mut rounds: int = 0;
    while cur % 256 != 'Z' as u32
        invariant
            m == out_edges(*g),
            dirs == caca@,
            len == caca.len() > 0,
            target == steps_to_z(m, dirs, start),
            target <= usize::MAX,
            last_letter(start) != 'Z' as u8 ==> z_after(m, dirs, start, target) && forall|k: nat|
                1 <= k < target ==> !z_after(m, dirs, start, k),
            walk(m, dirs, start, final_steps as nat) == Some(cur),
            last_letter(cur) != 'Z' as u8 ==> final_steps == rounds * len,
            rounds >= 0,
            final_steps <= target,
            final_steps == 0 ==> cur == start,
            last_letter(cur) == 'Z' as u8 ==> final_steps == target,
        decreases target - final_steps,
    {
        let mut i: usize = 0;
        let mut done = false;
        while i < len && !done
            invariant
                m == out_edges(*g),
                dirs == caca@,
                len == caca.len() > 0,
                target == steps_to_z(m, dirs, start),
                target <= usize::MAX,
                last_letter(start) != 'Z' as u8,
                z_after(m, dirs, start, target),
                forall|k: nat| 1 <= k < target ==> !z_after(m, dirs, start, k),
                walk(m, dirs, start, final_steps as nat) == Some(cur),
                final_steps == rounds * len + i,
                rounds >= 0,
                i <= len,
                final_steps <= target,
                done <==> last_letter(cur) == 'Z' as u8 && final_steps >= 1,
                done ==> final_steps == target,
                !done ==> final_steps < target,
            decreases len - i,
        {
            proof {
                lemma_mod_step(rounds, len as int, i as int);
                lemma_walk_prefix(m, dirs, start, (final_steps + 1) as nat, target);
            }
            final_steps += 1;
            let hng = network_edges(g, cur);
            let ghost es = edges_of(m, cur);
            assert(hng@.map_values(|e: (u32, u32, u8)| (e.1, e.2)) =~= es);
            let next = if hng.len() < 2 {
                assert(hng@[0].1 == es[0].0);
                hng[0].1
            } else {
                match find_weight(&hng, lr_weight(caca[i])) {
                    Some(n) => n,
                    None => {
                        assert(false);
                        0
                    },
                }
            };
            cur = next;
            proof {
                lemma_code_last_u32(cur);
            }
            if cur % 256 == 'Z' as u32 {
                done = true;
                assert(z_after(m, dirs, start, final_steps as nat));
            }
            i += 1;
        }
        proof {
            if !done {
                assert(i == len);
                assert(rounds * len + len == (rounds + 1) * len) by (nonlinear_arith);
                rounds = rounds + 1;
            }
        }
    }
    (final_steps, cur)
}

proof fn lemma_code_last_u32(c: u32)
    ensures
        (c % 256 == 'Z' as u32) <==> last_letter(c) == 'Z' as u8,
{
}

// ---------------------------------------------------------------------------
// When all the walks end on `Z` together
// ---------------------------------------------------------------------------

/// The greatest common divisor.
pub open spec fn gcd(a: nat, b: nat) -> nat
    decreases b,
{
    if b == 0 {
        a
    } else {
        gcd(b, a % b)
    }
}

/// The least common multiple (0 when either number is 0).
pub open spec fn lcm(a: nat, b: nat) -> nat {
    if a == 0 && b == 0 {
        0
    } else {
        a * (b / gcd(a, b))
    }
}

/// `num::integer::lcm` on `u64`: the least common multiple, computed as
/// `a * (b / gcd(a, b))`, which overflows exactly when the result does not
/// fit.
#[verifier::external_body]
fn lcm_u64(a: u64, b: u64) -> (r: u64)
    requires
        lcm(a as nat, b as nat) <= u64::MAX,
    ensures
        r == lcm(a as nat, b as nat),
{
    num::integer::lcm(a, b)
}

/// The least common multiple of 1 and the step counts from the first `k`
/// starting nodes.
pub open spec fn lcm_of_steps(
    m: Map<u32, Seq<(u32, u8)>>,
    dirs: Seq<LR>,
    starts: Seq<u32>,
    k: int,
) -> nat
    decreases k,
{
    if k <= 0 {
        1
    } else {
        lcm(lcm_of_steps(m, dirs, starts, k - 1), steps_to_z(m, dirs, starts[k - 1]))
    }
}

/// From every starting node the walk reaches a node ending in `Z`, and the
/// step counts fit in a `usize`.
pub open spec fn walks_reach_z(m: Map<u32, Seq<(u32, u8)>>, dirs: Seq<LR>, starts: Seq<u32>) -> bool {
    forall|k: int|
        0 <= k < starts.len() ==> (last_letter(#[trigger] starts[k]) == 'Z' as u8 || reaches_z(
            m,
            dirs,
            starts[k],
        )) && steps_to_z(m, dirs, starts[k]) <= usize::MAX
}

/// Every least common multiple of the step counts on the way fits in a
/// `u64`.
pub open spec fn step_lcms_fit(m: Map<u32, Seq<(u32, u8)>>, dirs: Seq<LR>, starts: Seq<u32>) -> bool {
    forall|k: int| 0 <= k <= starts.len() ==> #[trigger] lcm_of_steps(m, dirs, starts, k) <= u64::MAX
}

/// From every starting node the walk reaches a node ending in `Z`, the step
/// counts fit in a `usize`, and every least common multiple on the way fits
/// in a `u64`.
pub open spec fn walks_end(m: Map<u32, Seq<(u32, u8)>>, dirs: Seq<LR>, starts: Seq<u32>) -> bool {
    &&& walks_reach_z(m, dirs, starts)
    &&& step_lcms_fit(m, dirs, starts)
}

/// `d` times `q`.
pub open spec fn times(d: nat, q: nat) -> nat {
    d * q
}

/// `d` divides `n`.
pub open spec fn divides(d: nat, n: nat) -> bool {
    exists|q: nat| n == #[trigger] times(d, q)
}

proof fn lemma_gcd_divides(a: nat, b: nat)
    ensures
        divides(gcd(a, b), a),
        divides(gcd(a, b), b),
        a > 0 || b > 0 ==> gcd(a, b) > 0,
    decreases b,
{
    if b == 0 {
        assert(a == times(a, 1));
        assert(0 == times(a, 0));
    } else {
        let r = a % b;
        let q = a / b;
        lemma_gcd_divides(b, r);
        let g = gcd(b, r);
        let k1 = choose|k: nat| b == #[trigger] times(g, k);
        let k2 = choose|k: nat| r == #[trigger] times(g, k);
        assert(a == b * q + r) by (nonlinear_arith)
            requires
                b > 0,
                q == a / b,
                r == a % b,
        ;
        assert(a == times(g, k1 * q + k2)) by (nonlinear_arith)
            requires
                a == b * q + r,
                b == g * k1,
                r == g * k2,
        ;
    }
}

proof fn lemma_lcm_multiple(a: nat, b: nat)
    ensures
        divides(a, lcm(a, b)),
        divides(b, lcm(a, b)),
{
    if a == 0 && b == 0 {
        assert(0 == times(0, 0));
    } else {
        lemma_gcd_divides(a, b);
        let g = gcd(a, b);
        let k1 = choose|k: nat| b == #[trigger] times(g, k);
        let k2 = choose|k: nat| a == #[trigger] times(g, k);
        assert(b / g == k1) by (nonlinear_arith)
            requires
                g > 0,
                b == g * k1,
        ;
        assert(lcm(a, b) == times(a, k1));
        assert(lcm(a, b) == times(b, k2)) by (nonlinear_arith)
            requires
                lcm(a, b) == a * k1,
                a == g * k2,
                b == g * k1,
        ;
    }
}

proof fn lemma_divides_trans(d: nat, n: nat, m: nat)
    requires
        divides(d, n),
        divides(n, m),
    ensures
        divides(d, m),
{
    let q1 = choose|q: nat| n == #[trigger] times(d, q);
    let q2 = choose|q: nat| m == #[trigger] times(n, q);
    assert(m == times(d, q1 * q2)) by (nonlinear_arith)
        requires
            n == d * q1,
            m == n * q2,
    ;
}

/// The answer is a common multiple of the step counts: every walk's number
/// of steps to its first node ending in `Z` divides it.
pub proof fn law_answer_is_common_multiple(
    m: Map<u32, Seq<(u32, u8)>>,
    dirs: Seq<LR>,
    starts: Seq<u32>,
    k: int,
    j: int,
)
    requires
        0 <= j < k <= starts.len(),
    ensures
        divides(steps_to_z(m, dirs, starts[j]), lcm_of_steps(m, dirs, starts, k)),
    decreases k,
{
    let before = lcm_of_steps(m, dirs, starts, k - 1);
    let here = steps_to_z(m, dirs, starts[k - 1]);
    lemma_lcm_multiple(before, here);
    if j < k - 1 {
        law_answer_is_common_multiple(m, dirs, starts, k - 1, j);
        lemma_divides_trans(steps_to_z(m, dirs, starts[j]), before, lcm(before, here));
    }
}

proof fn lemma_bezout(a: nat, b: nat) -> (xy: (int, int))
    ensures
        xy.0 * a + xy.1 * b == gcd(a, b),
    decreases b,
{
    if b == 0 {
        (1, 0)
    } else {
        let r = a % b;
        let q = a / b;
        let (x, y) = lemma_bezout(b, r);
        assert(a == b * q + r) by (nonlinear_arith)
            requires
                b > 0,
                q == a / b,
                r == a % b,
        ;
        assert(y * a + (x - y * q) * b == x * b + y * r) by (nonlinear_arith)
            requires
                a == b * q + r,
        ;
        (y, x - y * q)
    }
}

proof fn lemma_lcm_least(a: nat, b: nat, m: nat)
    requires
        divides(a, m),
        divides(b, m),
    ensures
        divides(lcm(a, b), m),
{
    let k1 = choose|q: nat| m == #[trigger] times(a, q);
    let k2 = choose|q: nat| m == #[trigger] times(b, q);
    if a == 0 && b == 0 {
        assert(m == times(0, 0));
    } else if a == 0 {
        assert(m == 0);
        assert(0 == times(lcm(a, b), 0));
    } else {
        lemma_gcd_divides(a, b);
        let g = gcd(a, b);
        let a1 = choose|q: nat| a == #[trigger] times(g, q);
        let b1 = choose|q: nat| b == #[trigger] times(g, q);
        let (x, y) = lemma_bezout(a, b);
        assert(b / g == b1) by (nonlinear_arith)
            requires
                g > 0,
                b == g * b1,
        ;
        assert(x * a1 + y * b1 == 1) by (nonlinear_arith)
            requires
                x * a + y * b == g,
                a == g * a1,
                b == g * b1,
                g > 0,
        ;
        // m = m * (x * a1 + y * b1), and a * b1 divides both m * a1 and m * b1.
        let z: int = x * k2 + y * k1;
        assert(m == a * b1 * z) by (nonlinear_arith)
            requires
                x * a1 + y * b1 == 1,
                m == a * k1,
                m == b * k2,
                a == g * a1,
                b == g * b1,
                z == x * k2 + y * k1,
        ;
        assert(lcm(a, b) == a * b1);
        if lcm(a, b) == 0 {
            assert(m == 0) by (nonlinear_arith)
                requires
                    m == a * b1 * z,
                    a * b1 == 0,
            ;
            assert(0 == times(lcm(a, b), 0));
        } else {
            assert(z >= 0) by (nonlinear_arith)
                requires
                    m == a * b1 * z,
                    a * b1 > 0,
                    m >= 0,
            ;
            assert(m == times(lcm(a, b), z as nat));
        }
    }
}

/// The answer is the least common multiple of the step counts: it divides
/// every number that each walk's step count divides.
pub proof fn law_answer_divides_common_multiples(
    m: Map<u32, Seq<(u32, u8)>>,
    dirs: Seq<LR>,
    starts: Seq<u32>,
    k: int,
    n: nat,
)
    requires
        0 <= k <= starts.len(),
        forall|j: int| 0 <= j < k ==> divides(steps_to_z(m, dirs, #[trigger] starts[j]), n),
    ensures
        divides(lcm_of_steps(m, dirs, starts, k), n),
    decreases k,
{
    if k <= 0 {
        assert(n == times(1, n));
    } else {
        law_answer_divides_common_multiples(m, dirs, starts, k - 1, n);
        lemma_lcm_least(
            lcm_of_steps(m, dirs, starts, k - 1),
            steps_to_z(m, dirs, starts[k - 1]),
            n,
        );
    }
}

/// The walk from every starting node, in order: its number of steps, the
/// node ending in `Z` it stops at, and the starting node.
pub fn walk_all(pp: &Peepee) -> (results: Vec<(usize, u32, u32)>)
    requires
        pp.caca.len() > 0,
        walks_reach_z(out_edges(pp.poopoo), pp.caca@, pp.starts@.map_values(|i: Ingot| code(i@))),
    ensures
        results@.len() == pp.starts@.len(),
        forall|j: int|
            0 <= j < results@.len() ==> {
                let start = pp.starts@.map_values(|i: Ingot| code(i@))[j];
                &&& (#[trigger] results@[j]).0 == steps_to_z(out_edges(pp.poopoo), pp.caca@, start)
                &&& results@[j].2 == start
                &&& walk(out_edges(pp.poopoo), pp.caca@, start, results@[j].0 as nat) == Some(
                    results@[j].1,
                )
            },
{
    let ghost m = out_edges(pp.poopoo);
    let ghost starts = pp.starts@.map_values(|i: Ingot| code(i@));
    let mut results: Vec<(usize, u32, u32)> = Vec::new();
    let mut k: usize = 0;
    while k < pp.starts.len()
        invariant
            k <= pp.starts.len(),
            m == out_edges(pp.poopoo),
            starts == pp.starts@.map_values(|i: Ingot| code(i@)),
            pp.caca.len() > 0,
            walks_reach_z(m, pp.caca@, starts),
            results@.len() == k,
            forall|j: int|
                0 <= j < k ==> {
                    &&& (#[trigger] results@[j]).0 == steps_to_z(m, pp.caca@, starts[j])
                    &&& results@[j].2 == starts[j]
                    &&& walk(m, pp.caca@, starts[j], results@[j].0 as nat) == Some(results@[j].1)
                },
        decreases pp.starts.len() - k,
    {
        let start = ingot_code(&pp.starts[k]);
        assert(starts[k as int] == start);
        let (steps, cur) = walk_to_z(&pp.poopoo, &pp.caca, start);
        results.push((steps, cur, start));
        k += 1;
    }
    results
}

/// The greatest common divisor, by Euclid's algorithm.
fn gcd_u128(a: u128, b: u128) -> (r: u128)
    ensures
        r == gcd(a as nat, b as nat),
{
    let mut x = a;
    let mut y = b;
    while y != 0
        invariant
            gcd(x as nat, y as nat) == gcd(a as nat, b as nat),
        decreases y,
    {
        let t = x % y;
        x = y;
        y = t;
    }
    x
}

/// Given the results of `walk_all`, whether every least common multiple of
/// the step counts on the way fits in a `u64`.
pub fn step_lcms_fit_check(pp: &Peepee, results: &Vec<(usize, u32, u32)>) -> (r: bool)
    requires
        results@.len() == pp.starts@.len(),
        forall|j: int|
            0 <= j < results@.len() ==> (#[trigger] results@[j]).0 == steps_to_z(
                out_edges(pp.poopoo),
                pp.caca@,
                pp.starts@.map_values(|i: Ingot| code(i@))[j],
            ),
    ensures
        r == step_lcms_fit(out_edges(pp.poopoo), pp.caca@, pp.starts@.map_values(|i: Ingot| code(i@))),
{
    let ghost m = out_edges(pp.poopoo);
    let ghost dirs = pp.caca@;
    let ghost starts = pp.starts@.map_values(|i: Ingot| code(i@));
    let mut acc: u128 = 1;
    let mut j: usize = 0;
    while j < results.len()
        invariant
            j <= results.len(),
            m == out_edges(pp.poopoo),
            dirs == pp.caca@,
            starts == pp.starts@.map_values(|i: Ingot| code(i@)),
            results@.len() == starts.len(),
            forall|i: int|
                0 <= i < results@.len() ==> (#[trigger] results@[i]).0 == steps_to_z(m, dirs, starts[i]),
            acc == lcm_of_steps(m, dirs, starts, j as int),
            forall|k: int| 0 <= k <= j ==> #[trigger] lcm_of_steps(m, dirs, starts, k) <= u64::MAX,
        decreases results.len() - j,
    {
        let s = results[j].0 as u128;
        assert(s <= 0xffff_ffff_ffff_ffffu128);
        let next: u128 = if acc == 0 && s == 0 {
            0
        } else {
            let g = gcd_u128(acc, s);
            proof {
                lemma_gcd_divides(acc as nat, s as nat);
            }
            let q = s / g;
            assert(q <= s) by (nonlinear_arith)
                requires
                    g >= 1,
                    q == s / g,
            ;
            assert(acc * q <= 0xffff_ffff_ffff_fffe_0000_0000_0000_0001u128) by (nonlinear_arith)
                requires
                    acc <= 0xffff_ffff_ffff_ffffu128,
                    q <= 0xffff_ffff_ffff_ffffu128,
            ;
            acc * q
        };
        assert(next == lcm_of_steps(m, dirs, starts, j + 1));
        if next > 0xffff_ffff_ffff_ffff {
            assert(!step_lcms_fit(m, dirs, starts)) by {
                assert(lcm_of_steps(m, dirs, starts, j + 1) > u64::MAX);
            }
            return false;
        }
        acc = next;
        j += 1;
    }
    true
}

/// The least common multiple of 1 and the step counts.
fn lcm_all(
    results: &Vec<(usize, u32, u32)>,
    Ghost(m): Ghost<Map<u32, Seq<(u32, u8)>>>,
    Ghost(dirs): Ghost<Seq<LR>>,
    Ghost(starts): Ghost<Seq<u32>>,
) -> (acc: u64)
    requires
        results@.len() == starts.len(),
        walks_end(m, dirs, starts),
        forall|i: int|
            0 <= i < results@.len() ==> (#[trigger] results@[i]).0 == steps_to_z(m, dirs, starts[i]),
    ensures
        acc == lcm_of_steps(m, dirs, starts, starts.len() as int),
{
    let mut acc: u64 = 1;
    let mut j: usize = 0;
    while j < results.len()
        invariant
            j <= results.len(),
            results@.len() == starts.len(),
            walks_end(m, dirs, starts),
            forall|i: int|
                0 <= i < results@.len() ==> (#[trigger] results@[i]).0 == steps_to_z(
                    m,
                    dirs,
                    starts[i],
                ),
            acc == lcm_of_steps(m, dirs, starts, j as int),
        decreases results.len() - j,
    {
        assert(lcm_of_steps(m, dirs, starts, j + 1) <= u64::MAX);
        let frr = results[j].0 as u64;
        acc = lcm_u64(acc, frr);
        j += 1;
    }
    acc
}

/// Reads the network and returns where reading stopped and the number of
/// steps after which every walk from a node ending in `A` stands on a node
/// ending in `Z`: the least common multiple of their step counts.
pub fn a(body: &[u8]) -> (r: Result<(usize, u64), Fail>)
    requires
        peepee_at(body@) matches Ok((_, (dirs, rs))) ==> walks_end(
            build_graph(rs),
            dirs,
            start_nodes(rs),
        ),
    ensures
        match peepee_at(body@) {
            Ok((p, (dirs, rs))) => r matches Ok((q, v)) && q == p && v == lcm_of_steps(
                build_graph(rs),
                dirs,
                start_nodes(rs),
                start_nodes(rs).len() as int,
            ),
            Err(f) => r matches Err(g) && g == f,
        },
{
    let (p, caca) = match peepee(body) {
        Ok(x) => x,
        Err(f) => return Err(f),
    };
    if caca.caca.len() == 0 {
        // one instruction at least is always read
        assert(false);
        return Err(Fail::Error);
    }
    let results = walk_all(&caca);
    let probably_result = lcm_all(
        &results,
        Ghost(out_edges(caca.poopoo)),
        Ghost(caca.caca@),
        Ghost(caca.starts@.map_values(|i: Ingot| code(i@))),
    );
    Ok((p, probably_result))
}

} // verus!
