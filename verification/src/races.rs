//! The boat races: a line of race times (`Time:`) and a line of record
//! distances (`Distance:`), each a list of numbers.
//!
//! Numbers are read as exact integers of at most twenty digits.
use vstd::prelude::*;
use crate::text::{
    Fail, at, below_e20, lemma_prepend_empty, lemma_prepend_push, long_number_at, prepend,
    skip_spaces, space_run, tag, tag_at, take_long_number,
};

verus! {

/// `Time:` at the start of the sheet.
pub open spec fn word_time() -> Seq<u8> {
    seq!['T' as u8, 'i' as u8, 'm' as u8, 'e' as u8, ':' as u8]
}

/// `Distance:` at the start of the second line.
pub open spec fn word_distance() -> Seq<u8> {
    seq![
        '\n' as u8,
        'D' as u8,
        'i' as u8,
        's' as u8,
        't' as u8,
        'a' as u8,
        'n' as u8,
        'c' as u8,
        'e' as u8,
        ':' as u8,
    ]
}

/// A number after any white space.
pub open spec fn spaced_number_at(s: Seq<u8>, pos: int) -> Result<(int, u128), Fail> {
    long_number_at(s, pos + space_run(s, pos))
}

/// Further numbers, as many as parse.
pub open spec fn more_numbers(s: Seq<u8>, pos: int) -> Result<(int, Seq<u128>), Fail>
    decreases s.len() - pos,
{
    match spaced_number_at(s, pos) {
        Err(Fail::Error) => Ok((pos, seq![])),
        Err(f) => Err(f),
        Ok((p, v)) => if p <= pos || p > s.len() {
            Err(Fail::Error)
        } else {
            prepend(seq![v], more_numbers(s, p))
        },
    }
}

/// One or more numbers, each after any white space.
pub open spec fn numbers_at(s: Seq<u8>, pos: int) -> Result<(int, Seq<u128>), Fail> {
    match spaced_number_at(s, pos) {
        Err(f) => Err(f),
        Ok((p, v)) => prepend(seq![v], more_numbers(s, p)),
    }
}

/// The race sheet: `Time:` and the times, then `Distance:` on the next line
/// and the distances; where it ends, and the two lists.
pub open spec fn races_at(s: Seq<u8>) -> Result<(int, (Seq<u128>, Seq<u128>)), Fail> {
    if !tag_at(s, 0, word_time()) {
        Err(Fail::Error)
    } else {
        match numbers_at(s, 5) {
            Err(f) => Err(f),
            Ok((p, times)) => if !tag_at(s, p, word_distance()) {
                Err(Fail::Error)
            } else {
                match numbers_at(s, p + 10) {
                    Err(f) => Err(f),
                    Ok((q, distances)) => Ok((q, (times, distances))),
                }
            },
        }
    }
}

/// Reads one or more numbers, each after any white space, from `pos` on.
pub fn numbers(s: &[u8], pos: usize) -> (r: Result<(usize, Vec<u128>), Fail>)
    requires
        pos <= s.len(),
    ensures
        match r {
            Ok((p, v)) => numbers_at(s@, pos as int) == Ok::<(int, Seq<u128>), Fail>((p as int, v@))
                && pos < p <= s.len() && v@.len() >= 1 && forall|k: int|
                0 <= k < v@.len() ==> below_e20(#[trigger] v@[k]),
            Err(f) => numbers_at(s@, pos as int) == Err::<(int, Seq<u128>), Fail>(f),
        },
{
    let (p0, v0) = match take_long_number(s, skip_spaces(s, pos)) {
        Ok(x) => x,
        Err(f) => return Err(f),
    };
    let mut out: Vec<u128> = Vec::new();
    out.push(v0);
    let mut p = p0;
    loop
        invariant
            pos < p <= s.len(),
            out@.len() >= 1,
            forall|k: int| 0 <= k < out@.len() ==> below_e20(#[trigger] out@[k]),
            prepend(out@, more_numbers(s@, p as int)) == numbers_at(s@, pos as int),
        decreases s.len() - p,
    {
        let q = skip_spaces(s, p);
        match take_long_number(s, q) {
            Ok((p2, v)) => {
                proof {
                    lemma_prepend_push(out@, v, more_numbers(s@, p2 as int));
                }
                out.push(v);
                p = p2;
            },
            Err(Fail::Error) => {
                proof {
                    lemma_prepend_empty(out@, p as int);
                }
                return Ok((p, out));
            },
            Err(f) => {
                return Err(f);
            },
        }
    }
}

/// Reads the race sheet: the times and the distances, and where the
/// reading stopped.
pub fn races(s: &[u8]) -> (r: Result<(usize, (Vec<u128>, Vec<u128>)), Fail>)
    ensures
        match r {
            Ok((p, (t, d))) => races_at(s@) == Ok::<(int, (Seq<u128>, Seq<u128>)), Fail>(
                (p as int, (t@, d@)),
            ) && p <= s.len() && t@.len() >= 1 && d@.len() >= 1 && (forall|k: int|
                0 <= k < t@.len() ==> below_e20(#[trigger] t@[k])) && (forall|k: int|
                0 <= k < d@.len() ==> below_e20(#[trigger] d@[k])),
            Err(f) => races_at(s@) == Err::<(int, (Seq<u128>, Seq<u128>)), Fail>(f),
        },
{
    let w = vec!['T' as u8, 'i' as u8, 'm' as u8, 'e' as u8, ':' as u8];
    assert(w@ =~= word_time());
    if !tag(s, 0, w.as_slice()) {
        return Err(Fail::Error);
    }
    let (p, times) = match numbers(s, 5) {
        Ok(x) => x,
        Err(f) => return Err(f),
    };
    let d = vec![
        '\n' as u8,
        'D' as u8,
        'i' as u8,
        's' as u8,
        't' as u8,
        'a' as u8,
        'n' as u8,
        'c' as u8,
        'e' as u8,
        ':' as u8,
    ];
    assert(d@ =~= word_distance());
    if !tag(s, p, d.as_slice()) {
        return Err(Fail::Error);
    }
    match numbers(s, p + 10) {
        Ok((q, distances)) => Ok((q, (times, distances))),
        Err(f) => Err(f),
    }
}

} // verus!
