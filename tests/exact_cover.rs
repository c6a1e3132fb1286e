use dancing_links::{cover, dlx, from_matrix, search, uncover, Addr, MatrixFormatError, Node, A};

fn knuth() -> Vec<Vec<u8>> {
    vec![
        vec![0, 0, 1, 0, 1, 1, 0],
        vec![1, 0, 0, 1, 0, 0, 1],
        vec![0, 1, 1, 0, 0, 1, 0],
        vec![1, 0, 0, 1, 0, 0, 0],
        vec![0, 1, 0, 0, 0, 0, 1],
        vec![0, 0, 0, 1, 1, 0, 1],
    ]
}

fn sorted(v: &Vec<usize>) -> Vec<usize> {
    let mut s = v.clone();
    s.sort();
    s
}

fn header(a: &A, c: i32) -> Node {
    a.get_node(Addr { row: -1, col: c })
}

fn snapshot(a: &A, rows: i32, cols: i32) -> Vec<Node> {
    let mut all = vec![a.get_node(Addr { row: -1, col: -1 })];
    for c in 0..cols {
        all.push(header(a, c));
    }
    for r in 0..rows {
        for c in 0..cols {
            all.push(a.get_node(Addr { row: r, col: c }));
        }
    }
    all
}

fn is_exact_cover(m: &Vec<Vec<u8>>, rows: &Vec<usize>) -> bool {
    let cols = m[0].len();
    (0..cols).all(|c| rows.iter().filter(|&&r| m[r][c] == 1).count() == 1)
}

#[test]
fn test_from_matrix() {
    let matrix = knuth();
    let mut a = from_matrix(&matrix).unwrap();
    let soln = search(&mut a, 1);
    assert_eq!(soln.len(), 1);
    assert_eq!(sorted(&soln[0]), vec![0, 3, 4]);
}

#[test]
fn knuth_example_first_solution() {
    let sols = dlx(&knuth(), 1).unwrap();
    assert_eq!(sols.len(), 1);
    assert_eq!(sorted(&sols[0]), vec![0, 3, 4]);
}

#[test]
fn knuth_example_has_one_cover() {
    let sols = dlx(&knuth(), 10).unwrap();
    assert_eq!(sols.len(), 1);
    assert!(is_exact_cover(&knuth(), &sols[0]));
}

#[test]
fn sizes_count_ones() {
    let matrix = knuth();
    let a = from_matrix(&matrix).unwrap();
    let expected = [2, 2, 2, 3, 2, 2, 3];
    for c in 0..7 {
        assert_eq!(header(&a, c as i32).size, expected[c]);
    }
}

#[test]
fn empty_column_is_a_self_loop() {
    let matrix = vec![vec![1, 0, 1], vec![1, 0, 0]];
    let a = from_matrix(&matrix).unwrap();
    let h = header(&a, 1);
    assert_eq!(h.size, 0);
    assert_eq!(h.up, Addr { row: -1, col: 1 });
    assert_eq!(h.down, Addr { row: -1, col: 1 });
}

#[test]
fn header_ring_is_circular() {
    let a = from_matrix(&knuth()).unwrap();
    let root = Addr { row: -1, col: -1 };
    let mut at = root;
    for step in 0..8 {
        at = a.get_node(at).right;
        if step < 7 {
            assert_eq!(at, Addr { row: -1, col: step });
        }
    }
    assert_eq!(at, root);
    for _ in 0..8 {
        at = a.get_node(at).left;
    }
    assert_eq!(at, root);
}

#[test]
fn column_rings_are_circular() {
    let a = from_matrix(&knuth()).unwrap();
    for c in 0..7 {
        let h = header(&a, c);
        let start = Addr { row: -1, col: c };
        let mut at = start;
        for _ in 0..h.size {
            at = a.get_node(at).down;
            assert_ne!(at, start);
        }
        at = a.get_node(at).down;
        assert_eq!(at, start);
    }
}

#[test]
fn row_rings_are_circular() {
    let a = from_matrix(&knuth()).unwrap();
    let start = Addr { row: 1, col: 0 };
    let second = a.get_node(start).right;
    assert_eq!(second, Addr { row: 1, col: 3 });
    let third = a.get_node(second).right;
    assert_eq!(third, Addr { row: 1, col: 6 });
    assert_eq!(a.get_node(third).right, start);
    assert_eq!(a.get_node(start).left, third);
}

#[test]
fn cover_then_uncover_restores_every_link() {
    let mut a = from_matrix(&knuth()).unwrap();
    let before = snapshot(&a, 6, 7);
    let h = header(&a, 3);
    cover(&mut a, h);
    assert_ne!(snapshot(&a, 6, 7), before);
    let h = header(&a, 3);
    uncover(&mut a, h);
    assert_eq!(snapshot(&a, 6, 7), before);
}

#[test]
fn cover_removes_conflicting_rows() {
    let mut a = from_matrix(&knuth()).unwrap();
    let h = header(&a, 0);
    cover(&mut a, h);
    // rows 1 and 3 have a 1 in column 0: they leave columns 3 and 6
    assert_eq!(header(&a, 3).size, 1);
    assert_eq!(header(&a, 6).size, 2);
    let root = a.get_node(Addr { row: -1, col: -1 });
    assert_eq!(root.right, Addr { row: -1, col: 1 });
}

#[test]
fn nested_covers_unwind() {
    let mut a = from_matrix(&knuth()).unwrap();
    let before = snapshot(&a, 6, 7);
    let h0 = header(&a, 0);
    cover(&mut a, h0);
    let h4 = header(&a, 4);
    cover(&mut a, h4);
    let h4 = header(&a, 4);
    uncover(&mut a, h4);
    let h0 = header(&a, 0);
    uncover(&mut a, h0);
    assert_eq!(snapshot(&a, 6, 7), before);
}

#[test]
fn zero_column_has_no_solution() {
    let matrix = vec![vec![1, 0, 0], vec![0, 0, 1], vec![1, 0, 1]];
    assert_eq!(dlx(&matrix, 5).unwrap().len(), 0);
}

#[test]
fn chooses_smallest_column() {
    let matrix = vec![vec![1, 0, 0], vec![1, 1, 1], vec![1, 0, 1]];
    let a = from_matrix(&matrix).unwrap();
    let h = a.choose_col();
    assert_eq!(h.addr, Addr { row: -1, col: 1 });
    assert_eq!(h.size, 1);
}

#[test]
fn chooses_leftmost_on_tie() {
    let matrix = vec![vec![1, 1, 1], vec![1, 1, 1], vec![0, 0, 1]];
    let a = from_matrix(&matrix).unwrap();
    let h = a.choose_col();
    assert_eq!(h.addr, Addr { row: -1, col: 0 });
    assert_eq!(h.size, 2);
}

#[test]
fn enumeration_stops_at_limit() {
    // every row covers one column: 2 * 2 * 2 = 8 exact covers
    let matrix = vec![
        vec![1, 0, 0],
        vec![1, 0, 0],
        vec![0, 1, 0],
        vec![0, 1, 0],
        vec![0, 0, 1],
        vec![0, 0, 1],
    ];
    let sols = dlx(&matrix, 5).unwrap();
    assert_eq!(sols.len(), 5);
    let mut seen: Vec<Vec<usize>> = sols.iter().map(sorted).collect();
    seen.sort();
    seen.dedup();
    assert_eq!(seen.len(), 5);
    for s in &sols {
        assert!(is_exact_cover(&matrix, s));
    }
    assert_eq!(dlx(&matrix, 100).unwrap().len(), 8);
}

#[test]
fn zero_limit_finds_nothing() {
    assert_eq!(dlx(&knuth(), 0).unwrap().len(), 0);
}

#[test]
fn empty_matrix_has_the_empty_cover() {
    let matrix: Vec<Vec<u8>> = Vec::new();
    assert_eq!(dlx(&matrix, 3).unwrap(), vec![Vec::<usize>::new()]);
}

#[test]
fn ragged_rows_are_refused() {
    let matrix = vec![vec![1, 0], vec![1, 0, 1], vec![2, 0]];
    assert!(matches!(from_matrix(&matrix), Err(MatrixFormatError::Ragged { row: 1 })));
}

#[test]
fn values_other_than_bits_are_refused() {
    let matrix = vec![vec![1, 0, 1], vec![0, 2, 1]];
    assert!(matches!(
        from_matrix(&matrix),
        Err(MatrixFormatError::NotBinary { row: 1, col: 1 })
    ));
    assert_eq!(dlx(&matrix, 1).unwrap_err(), MatrixFormatError::NotBinary { row: 1, col: 1 });
}

#[test]
fn rows_are_tried_top_to_bottom() {
    let matrix = vec![vec![1], vec![1], vec![1]];
    assert_eq!(dlx(&matrix, 2).unwrap(), vec![vec![0], vec![1]]);
    assert_eq!(dlx(&matrix, 5).unwrap(), vec![vec![0], vec![1], vec![2]]);
}

#[test]
fn enumeration_is_a_prefix_of_the_full_order() {
    let matrix = vec![
        vec![1, 0, 0],
        vec![1, 0, 0],
        vec![0, 1, 0],
        vec![0, 1, 0],
        vec![0, 0, 1],
        vec![0, 0, 1],
    ];
    let all = dlx(&matrix, 100).unwrap();
    for n in 0..=8 {
        assert_eq!(dlx(&matrix, n).unwrap(), all[..n].to_vec());
    }
    // first-solution mode is enumeration with limit 1
    assert_eq!(dlx(&matrix, 1).unwrap()[0], all[0]);
    assert_eq!(all[0], vec![0, 2, 4]);
}
