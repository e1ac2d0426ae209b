use aoc2023::network::{
    a, ingot, ingot_of, mangle, peepee, raw_poopoo, step_lcms_fit_check, walk_all, LR,
};
use aoc2023::text::Fail;

#[test]
fn simultaneous_walks_meet_after_lcm_steps() {
    let body = b"LR\n\nQQA = (QQB, XXX)\nQQB = (XXX, QQZ)\nQQZ = (QQB, XXX)\nRRA = (RRB, XXX)\nRRB = (RRC, RRC)\nRRC = (RRZ, RRZ)\nRRZ = (RRB, RRB)\nXXX = (XXX, XXX)\n";
    assert_eq!(a(body), Ok((body.len(), 6)));
}

#[test]
fn single_walk_counts_its_steps() {
    let body = b"RL\n\nAAA = (BBB, CCC)\nBBB = (DDD, EEE)\nCCC = (ZZZ, GGG)\nDDD = (DDD, DDD)\nEEE = (EEE, EEE)\nGGG = (GGG, GGG)\nZZZ = (ZZZ, ZZZ)\n";
    assert_eq!(a(body), Ok((body.len(), 2)));
}

#[test]
fn instructions_repeat_round_and_round() {
    let body = b"LLR\n\nAAA = (BBB, BBB)\nBBB = (AAA, ZZZ)\nZZZ = (ZZZ, ZZZ)\n";
    assert_eq!(a(body), Ok((body.len(), 6)));
}

#[test]
fn no_start_node_gives_one() {
    let body = b"L\n\nBBB = (ZZZ, ZZZ)\nZZZ = (ZZZ, ZZZ)\n";
    assert_eq!(a(body), Ok((body.len(), 1)));
}

#[test]
fn network_is_read() {
    let body = b"LR\n\nAAA = (BBB, CCC)\nBBB = (AAZ, AAZ)\n";
    let (p, pp) = peepee(body).unwrap();
    assert_eq!(p, body.len());
    assert_eq!(pp.caca, vec![LR::L, LR::R]);
    assert_eq!(pp.starts, vec![*b"AAA"]);
    let (q, raw) = raw_poopoo(b"AAA = (BBB, CCC)\n", 0).unwrap();
    assert_eq!(q, 17);
    assert_eq!(raw.ingot, *b"AAA");
    assert_eq!(raw.snakes, (*b"BBB", *b"CCC"));
}

#[test]
fn names_are_three_capitals() {
    assert_eq!(ingot(b"ABC", 0), Ok((3, *b"ABC")));
    assert_eq!(ingot(b"AbC", 0).unwrap_err(), Fail::Error);
    assert_eq!(ingot(b"AB", 0).unwrap_err(), Fail::Error);
    assert_eq!(mangle(b"AB"), [b'A', b'B', 0]);
    assert_eq!(mangle(b"ABCD"), *b"ABC");
}

#[test]
fn malformed_networks_are_refused() {
    assert!(peepee(b"LX\n\nAAA = (BBB, CCC)\n").is_err());
    assert!(peepee(b"LR\nAAA = (BBB, CCC)\n").is_err());
    assert!(peepee(b"LR\n\n").is_err());
}

#[test]
fn answer_is_the_least_common_multiple() {
    let body = b"L\n\nAAA = (AAB, AAB)\nAAB = (AAC, AAC)\nAAC = (AAD, AAD)\nAAD = (AAZ, AAZ)\nAAZ = (AAZ, AAZ)\nBBA = (BBB, BBB)\nBBB = (BBC, BBC)\nBBC = (BBD, BBD)\nBBD = (BBE, BBE)\nBBE = (BBF, BBF)\nBBF = (BBZ, BBZ)\nBBZ = (BBZ, BBZ)\n";
    assert_eq!(a(body), Ok((body.len(), 12)));
    let (_, pp) = peepee(body).unwrap();
    let results = walk_all(&pp);
    let steps: Vec<usize> = results.iter().map(|r| r.0).collect();
    assert_eq!(steps, vec![4, 6]);
    assert_eq!(ingot_of(results[0].1), *b"AAZ");
    assert_eq!(ingot_of(results[1].2), *b"BBA");
}

#[test]
fn one_step_walk_gives_one() {
    let body = b"L\n\nAAZ = (AAZ, AAZ)\nBBA = (AAZ, AAZ)\n";
    let (_, pp) = peepee(body).unwrap();
    assert_eq!(pp.starts, vec![*b"BBA"]);
    assert_eq!(a(body), Ok((body.len(), 1)));
}

#[test]
fn step_lcms_that_fit_are_told_apart() {
    let body = b"L\n\nAAA = (AAB, AAB)\nAAB = (AAZ, AAZ)\nAAZ = (AAZ, AAZ)\nBBA = (BBB, BBB)\nBBB = (BBC, BBC)\nBBC = (BBZ, BBZ)\nBBZ = (BBZ, BBZ)\n";
    let (_, pp) = peepee(body).unwrap();
    let results = walk_all(&pp);
    assert!(step_lcms_fit_check(&pp, &results));
    assert_eq!(a(body), Ok((body.len(), 6)));

    // One chain per prime from 2 to 53: the product of those primes is
    // above u64::MAX.
    let primes: [usize; 16] = [2, 3, 5, 7, 11, 13, 17, 19, 23, 29, 31, 37, 41, 43, 47, 53];
    let mut text = String::from("L\n\n");
    for (c, &p) in primes.iter().enumerate() {
        let name = |i: usize| -> String {
            let first = (b'A' + c as u8) as char;
            if i == 0 {
                format!("{first}AA")
            } else if i == p {
                format!("{first}AZ")
            } else {
                format!("{first}{}{}", (b'A' + (i / 24) as u8) as char, (b'B' + (i % 24) as u8) as char)
            }
        };
        for i in 0..p {
            text.push_str(&format!("{} = ({}, {})\n", name(i), name(i + 1), name(i + 1)));
        }
        text.push_str(&format!("{} = ({}, {})\n", name(p), name(p), name(p)));
    }
    let (_, pp) = peepee(text.as_bytes()).unwrap();
    let results = walk_all(&pp);
    let steps: Vec<usize> = results.iter().map(|r| r.0).collect();
    assert_eq!(steps, primes.to_vec());
    assert!(!step_lcms_fit_check(&pp, &results));
}
