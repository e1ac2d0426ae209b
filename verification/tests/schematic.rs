use aoc2023::schematic::{a, build_grid, read_rows, Booger};

fn lines(text: &[&str]) -> Vec<Vec<u8>> {
    text.iter().map(|l| l.as_bytes().to_vec()).collect()
}

#[test]
fn grid_holds_lines_from_row_one() {
    let g = build_grid(&lines(&["12", "a"]));
    let rows = read_rows(&g);
    assert_eq!(rows.len(), 81);
    assert!(rows.iter().all(|r| r.len() == 81));
    assert!(rows[0].iter().all(|&c| c == b'.'));
    assert_eq!(&rows[1][..3], b"12.");
    assert_eq!(&rows[2][..2], b"a.");
    assert!(rows[3].iter().all(|&c| c == b'.'));
}

#[test]
fn characters_stand_at_their_first_byte() {
    let g = build_grid(&lines(&["é1", "aß"]));
    let rows = read_rows(&g);
    assert_eq!(&rows[1][..4], &[0xc3, b'.', b'1', b'.']);
    assert_eq!(&rows[2][..4], &[b'a', 0xc3, b'.', b'.']);
}

#[test]
fn probes_walk_the_swapped_coordinates() {
    let (total, probes, boogers) = a(&lines(&["467..114..", "...*......", "..35..633."]));
    assert_eq!(total, 0);
    let got: Vec<(usize, usize, usize, usize, Vec<u8>, Option<u32>)> = probes
        .iter()
        .map(|p| (p.row, p.col, p.x_start, p.x_end, p.text.clone(), p.num))
        .collect();
    let want: Vec<(usize, usize, usize, usize, Vec<u8>, Option<u32>)> = vec![
        (1, 0, 2, 1, vec![], None),
        (1, 1, 0, 3, b"467".to_vec(), Some(467)),
        (1, 2, 2, 1, vec![], None),
        (1, 5, 2, 1, vec![], None),
        (1, 6, 2, 1, vec![], None),
        (1, 7, 2, 1, vec![], None),
        (3, 2, 4, 3, vec![], None),
        (3, 3, 2, 4, b"35".to_vec(), Some(35)),
        (3, 6, 4, 3, vec![], None),
        (3, 7, 4, 3, vec![], None),
        (3, 8, 4, 3, vec![], None),
    ];
    assert_eq!(got, want);
    let mut bs = boogers.clone();
    bs.sort_by_key(|b| b.num);
    assert_eq!(
        bs,
        vec![
            Booger { num: 35, x_start: 2, x_end: 4, y: 3 },
            Booger { num: 467, x_start: 0, x_end: 3, y: 1 },
        ]
    );
}

#[test]
fn empty_input_finds_nothing() {
    let (total, probes, boogers) = a(&Vec::new());
    assert_eq!(total, 0);
    assert!(probes.is_empty());
    assert!(boogers.is_empty());
}

#[test]
fn same_number_read_twice_is_kept_once() {
    let (_, probes, boogers) = a(&lines(&["123", "45"]));
    let nums: Vec<Option<u32>> = probes.iter().map(|p| p.num).collect();
    assert_eq!(nums, vec![None, Some(123), Some(45), None, Some(123)]);
    let mut bs = boogers.clone();
    bs.sort_by_key(|b| b.num);
    assert_eq!(
        bs,
        vec![
            Booger { num: 45, x_start: 0, x_end: 2, y: 2 },
            Booger { num: 123, x_start: 0, x_end: 3, y: 1 },
        ]
    );
}

#[test]
fn plus_sign_in_column_zero_is_read() {
    // Row 1 starts with `+`: the walk back stops at column 0 and keeps it.
    let (_, probes, _) = a(&lines(&["+7", "8"]));
    let p = probes.iter().find(|p| p.row == 1 && p.col == 1).unwrap();
    assert_eq!(p.text, b"+7".to_vec());
    assert_eq!(p.num, Some(7));
}
