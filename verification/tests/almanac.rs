use aoc2023::almanac::{
    almanach, apply_translations, b, mappe, range_list, real_almanach, seed_list, translate,
    translation_list, Translation,
};

const EXAMPLE: &str = "seeds: 79 14 55 13

seed-to-soil map:
50 98 2
52 50 48

soil-to-fertilizer map:
0 15 37
37 52 2
39 0 15

fertilizer-to-water map:
49 53 8
0 11 42
42 0 7
57 7 4

water-to-light map:
88 18 7
18 25 70

light-to-temperature map:
45 77 23
81 45 19
68 64 13

temperature-to-humidity map:
0 69 1
1 0 69

humidity-to-location map:
60 56 37
56 93 4
";

#[test]
fn lowest_location_of_seed_ranges_is_46() {
    let body = EXAMPLE.as_bytes();
    assert_eq!(b(body), Ok((body.len(), 46)));
}

#[test]
fn single_seeds_are_translated_through_all_maps() {
    let body = EXAMPLE.as_bytes();
    let (p, alm) = almanach(body).unwrap();
    assert_eq!(p, body.len());
    let seeds = seed_list(&alm.seeds);
    assert_eq!(seeds, vec![79, 14, 55, 13]);
    assert_eq!(alm.mappes.len(), 7);
    let locs: Vec<u128> =
        seeds.iter().map(|&s| translate(s, b"seed", b"location", &alm.mappes)).collect();
    assert_eq!(locs, vec![82, 43, 86, 35]);
}

#[test]
fn seed_pairs_are_read() {
    let (_, alm) = real_almanach(EXAMPLE.as_bytes()).unwrap();
    assert_eq!(range_list(&alm.seed_ranges), vec![(79, 14), (55, 13)]);
    assert_eq!(alm.mappes[0].src_name, b"seed".to_vec());
    assert_eq!(alm.mappes[0].dst_name, b"soil".to_vec());
    assert_eq!(
        translation_list(&alm.mappes[0].translations),
        vec![Translation { dst: 50, src: 98, span: 2 }, Translation { dst: 52, src: 50, span: 48 }]
    );
}

#[test]
fn ranges_include_both_ends_and_first_range_wins() {
    let (p, m) = mappe(b"a-to-b map:\n100 10 2\n500 11 5\n", 0).unwrap();
    assert_eq!(p, 30);
    assert_eq!(m.src_name, b"a".to_vec());
    assert_eq!(m.dst_name, b"b".to_vec());
    let ts = m.translations;
    assert_eq!(
        translation_list(&ts),
        vec![Translation { dst: 100, src: 10, span: 2 }, Translation { dst: 500, src: 11, span: 5 }]
    );
    assert_eq!(apply_translations(&ts, 9), 9);
    assert_eq!(apply_translations(&ts, 10), 100);
    assert_eq!(apply_translations(&ts, 12), 102);
    assert_eq!(apply_translations(&ts, 13), 502);
    assert_eq!(apply_translations(&ts, 16), 505);
    assert_eq!(apply_translations(&ts, 17), 17);
}

#[test]
fn malformed_almanac_is_refused() {
    assert!(b(b"seeds 1 2\n\n").is_err());
    assert!(almanach(b"seeds: x").is_err());
}
