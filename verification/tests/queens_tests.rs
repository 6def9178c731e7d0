use dlx_rs::queens::Queens;

#[test]
fn test_queens() {
    let q8 = Queens::new(8);
    let n8 = q8.count();
    println!("N8: {}", n8);
}

#[test]
fn queens_counts_up_to_ten() {
    let n_queens_solutions = vec![0, 1, 0, 0, 2, 10, 4, 40, 92, 352, 724];
    for i in 1..=10 {
        let qi = Queens::new(i);
        assert_eq!(qi.count(), n_queens_solutions[i]);
    }
}

#[test]
fn count_counts_what_is_still_to_come() {
    let mut q = Queens::new(6);
    assert!(q.next().is_some());
    assert_eq!(q.count(), 3);
}

#[test]
fn four_queens_by_their_squares() {
    let mut q = Queens::new(4);
    let mut boards = Vec::new();
    while let Some(mut sol) = q.next() {
        sol.sort();
        boards.push(sol);
    }
    boards.sort();
    assert_eq!(
        boards,
        vec![
            vec![(1, 2), (2, 4), (3, 1), (4, 3)],
            vec![(1, 3), (2, 1), (3, 4), (4, 2)],
        ]
    );
}

#[test]
fn one_queen_stands_on_the_only_square() {
    let mut q = Queens::new(1);
    assert_eq!(q.next(), Some(vec![(1, 1)]));
    assert_eq!(q.next(), None);
}
