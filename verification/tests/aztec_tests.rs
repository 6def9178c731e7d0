use dlx_rs::aztec::Aztec;

#[test]
fn aztec_diamond_tilings_are_powers_of_two() {
    assert_eq!(Aztec::new(1).count(), 2);
    assert_eq!(Aztec::new(2).count(), 8);
    assert_eq!(Aztec::new(3).count(), 64);
    assert_eq!(Aztec::new(4).count(), 1024);
}

#[test]
fn aztec_order_one_tilings() {
    let mut a = Aztec::new(1);
    let first = a.next().unwrap();
    let second = a.next().unwrap();
    assert_eq!(a.next(), None);
    // Two flat dominoes, or two upright ones.
    assert_eq!(first, vec![(1, 2), (3, 4)]);
    assert_eq!(second, vec![(1, 3), (2, 4)]);
}

#[test]
fn picture_of_the_two_tilings_of_order_one() {
    let black = "\x1b[40m \x1b[0m";
    let red = "\x1b[41m \x1b[0m";
    let green = "\x1b[42m \x1b[0m";
    let yellow = "\x1b[43m \x1b[0m";
    let blue = "\x1b[44m \x1b[0m";
    let _ = black;
    // Two flat dominoes: the upper one begins on an odd square of the upper
    // half, the lower one on an odd square of the lower half.
    assert_eq!(
        Aztec::picture(&[(1, 2), (3, 4)]),
        format!(" {}{}\n {}{}\n  \n", yellow, yellow, blue, blue)
    );
    // Two upright dominoes.
    assert_eq!(
        Aztec::picture(&[(1, 3), (2, 4)]),
        format!(" {}{}\n {}{}\n  \n", red, green, red, green)
    );
}

#[test]
fn picture_of_nothing_is_an_empty_line() {
    assert_eq!(Aztec::picture(&[]), "\n");
}

#[test]
fn picture_leaves_squares_without_a_domino_black() {
    let black = "\x1b[40m \x1b[0m";
    let yellow = "\x1b[43m \x1b[0m";
    // Room for four squares, one domino on the first two.
    assert_eq!(
        Aztec::picture(&[(1, 2), (1, 2)]),
        format!(" {}{}\n {}{}\n  \n", yellow, yellow, black, black)
    );
}
