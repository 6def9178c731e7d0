//! Names of options that spell out numbers, and reading the numbers back.
//!
//! The problems built on the solver name each option after the placement it
//! stands for, such as `R3C5` for a queen in row 3 and column 5, and read
//! the placements back from the names of the options of a solution.

use vstd::prelude::*;
use vstd::string::{StringExecFns, StrSliceExecFns};

verus! {

/// The character of a decimal digit.
pub open spec fn digit(d: int) -> char {
    seq!['0', '1', '2', '3', '4', '5', '6', '7', '8', '9'][d]
}

/// The characters that are decimal digits.
pub open spec fn is_digit(c: char) -> bool {
    c == '0' || c == '1' || c == '2' || c == '3' || c == '4' || c == '5' || c == '6' || c == '7'
        || c == '8' || c == '9'
}

/// The value of a decimal digit.
pub open spec fn value(c: char) -> int {
    if c == '1' {
        1
    } else if c == '2' {
        2
    } else if c == '3' {
        3
    } else if c == '4' {
        4
    } else if c == '5' {
        5
    } else if c == '6' {
        6
    } else if c == '7' {
        7
    } else if c == '8' {
        8
    } else if c == '9' {
        9
    } else {
        0
    }
}

/// The decimal digits of a number, without leading zeros.
pub open spec fn digits(n: nat) -> Seq<char>
    decreases n,
{
    if n < 10 {
        seq![digit(n as int)]
    } else {
        digits(n / 10).push(digit((n % 10) as int))
    }
}

/// What has been read of a text: the numbers that are complete, and the
/// number that is being read, if the last character read was a digit.
pub struct Reading {
    pub done: Seq<nat>,
    pub open: Option<nat>,
}

/// The reading after one more character.
pub open spec fn step(r: Reading, c: char) -> Reading {
    if is_digit(c) {
        Reading {
            done: r.done,
            open: Some(
                (match r.open {
                    Some(v) => v * 10,
                    None => 0,
                } + value(c)) as nat,
            ),
        }
    } else {
        Reading {
            done: match r.open {
                Some(v) => r.done.push(v),
                None => r.done,
            },
            open: None,
        }
    }
}

/// The reading after the characters of `t`, starting from the reading `r`.
pub open spec fn run(r: Reading, t: Seq<char>) -> Reading
    decreases t.len(),
{
    if t.len() == 0 {
        r
    } else {
        step(run(r, t.drop_last()), t.last())
    }
}

/// The numbers that a reading holds once the text has ended.
pub open spec fn finish(r: Reading) -> Seq<nat> {
    match r.open {
        Some(v) => r.done.push(v),
        None => r.done,
    }
}

/// The numbers that a text spells out: every run of digits is a number,
/// everything else separates the numbers.
pub open spec fn scan(t: Seq<char>) -> Seq<nat> {
    finish(run(Reading { done: Seq::empty(), open: None }, t))
}

/// Reading one text after another is reading the two as one.
pub proof fn lemma_run_add(r: Reading, a: Seq<char>, b: Seq<char>)
    ensures
        run(r, a + b) == run(run(r, a), b),
    decreases b.len(),
{
    if b.len() == 0 {
        assert(a + b =~= a);
    } else {
        assert((a + b).drop_last() =~= a + b.drop_last());
        assert((a + b).last() == b.last());
        lemma_run_add(r, a, b.drop_last());
    }
}

/// A digit reads as its value.
pub proof fn lemma_digit(d: int)
    requires
        0 <= d < 10,
    ensures
        is_digit(digit(d)),
        value(digit(d)) == d,
{
}

/// Reading the digits of a number, from where no number was being read,
/// leaves that number being read.
pub proof fn lemma_run_digits(r: Reading, n: nat)
    requires
        r.open is None,
    ensures
        run(r, digits(n)) == (Reading { done: r.done, open: Some(n) }),
    decreases n,
{
    reveal_with_fuel(run, 2);
    if n < 10 {
        lemma_digit(n as int);
        let t = digits(n);
        assert(t.drop_last() =~= Seq::<char>::empty());
        assert(t.last() == digit(n as int));
    } else {
        lemma_run_digits(r, n / 10);
        lemma_digit((n % 10) as int);
        let t = digits(n);
        assert(t.drop_last() =~= digits(n / 10));
        assert(t.last() == digit((n % 10) as int));
    }
}

/// Reading a character that is no digit closes the number being read.
pub proof fn lemma_run_mark(r: Reading, c: char)
    requires
        !is_digit(c),
    ensures
        run(r, seq![c]) == step(r, c),
        step(r, c).open is None,
        step(r, c).done == finish(r),
{
    reveal_with_fuel(run, 2);
    assert(seq![c].drop_last() =~= Seq::<char>::empty());
}

/// The name made of a letter and a number.
pub open spec fn tag(c: char, n: nat) -> Seq<char> {
    seq![c] + digits(n)
}

/// Reading a letter and a number, after whatever was read before.
pub proof fn lemma_run_tag(r: Reading, c: char, n: nat)
    requires
        !is_digit(c),
    ensures
        run(r, tag(c, n)) == (Reading { done: finish(r), open: Some(n) }),
{
    lemma_run_add(r, seq![c], digits(n));
    lemma_run_mark(r, c);
    lemma_run_digits(step(r, c), n);
}

/// A name of two letters, each followed by a number, spells out the two
/// numbers.
pub proof fn lemma_scan_two(a: char, x: nat, b: char, y: nat)
    requires
        !is_digit(a),
        !is_digit(b),
    ensures
        scan(tag(a, x) + tag(b, y)) == seq![x, y],
        x <= usize::MAX && y <= usize::MAX ==> readable(tag(a, x) + tag(b, y)),
{
    let r0 = Reading { done: Seq::empty(), open: None };
    lemma_run_add(r0, tag(a, x), tag(b, y));
    lemma_run_tag(r0, a, x);
    lemma_run_tag(run(r0, tag(a, x)), b, y);
    assert(scan(tag(a, x) + tag(b, y)) =~= seq![x, y]);
    assert(run(r0, tag(a, x) + tag(b, y)).done =~= seq![x]);
}

/// A name of three letters, each followed by a number, spells out the
/// three numbers.
pub proof fn lemma_scan_three(a: char, x: nat, b: char, y: nat, c: char, z: nat)
    requires
        !is_digit(a),
        !is_digit(b),
        !is_digit(c),
    ensures
        scan(tag(a, x) + tag(b, y) + tag(c, z)) == seq![x, y, z],
        x <= usize::MAX && y <= usize::MAX && z <= usize::MAX ==> readable(
            tag(a, x) + tag(b, y) + tag(c, z),
        ),
{
    let r0 = Reading { done: Seq::empty(), open: None };
    lemma_run_add(r0, tag(a, x) + tag(b, y), tag(c, z));
    lemma_run_add(r0, tag(a, x), tag(b, y));
    lemma_run_tag(r0, a, x);
    lemma_run_tag(run(r0, tag(a, x)), b, y);
    lemma_run_tag(run(r0, tag(a, x) + tag(b, y)), c, z);
    assert(scan(tag(a, x) + tag(b, y) + tag(c, z)) =~= seq![x, y, z]);
    assert(run(r0, tag(a, x) + tag(b, y) + tag(c, z)).done =~= seq![x, y]);
}

/// The text of a decimal digit.
fn digit_str(d: usize) -> (r: &'static str)
    requires
        d < 10,
    ensures
        r@ == seq![digit(d as int)],
{
    proof {
        reveal_strlit("0");
        reveal_strlit("1");
        reveal_strlit("2");
        reveal_strlit("3");
        reveal_strlit("4");
        reveal_strlit("5");
        reveal_strlit("6");
        reveal_strlit("7");
        reveal_strlit("8");
        reveal_strlit("9");
    }
    let r = if d == 0 {
        "0"
    } else if d == 1 {
        "1"
    } else if d == 2 {
        "2"
    } else if d == 3 {
        "3"
    } else if d == 4 {
        "4"
    } else if d == 5 {
        "5"
    } else if d == 6 {
        "6"
    } else if d == 7 {
        "7"
    } else if d == 8 {
        "8"
    } else {
        "9"
    };
    assert(r@ =~= seq![digit(d as int)]);
    r
}

/// Writes a number in decimal digits.
pub fn decimal(n: usize) -> (s: String)
    ensures
        s@ == digits(n as nat),
    decreases n,
{
    if n < 10 {
        String::from_str(digit_str(n))
    } else {
        let mut s = decimal(n / 10);
        s.append(digit_str(n % 10));
        proof {
            assert(s@ =~= digits(n as nat));
        }
        s
    }
}

/// Adds a letter and a number to a name.
pub fn push_tag(s: &mut String, letter: &str, Ghost(c): Ghost<char>, n: usize)
    requires
        letter@ == seq![c],
    ensures
        final(s)@ == old(s)@ + tag(c, n as nat),
{
    s.append(letter);
    let d = decimal(n);
    s.append(d.as_str());
    proof {
        assert(s@ =~= old(s)@ + tag(c, n as nat));
    }
}

/// All numbers of the reading fit the machine's integers.
pub open spec fn fits(r: Reading) -> bool {
    &&& forall|j: int| 0 <= j < r.done.len() ==> #[trigger] r.done[j] <= usize::MAX
    &&& r.open matches Some(v) ==> v <= usize::MAX
}

/// The text spells out numbers that all fit the machine's integers.
pub open spec fn readable(t: Seq<char>) -> bool {
    fits(run(Reading { done: Seq::empty(), open: None }, t))
}

/// The numbers of a reading have not been larger before.
pub proof fn lemma_fits_before(r: Reading, t: Seq<char>, k: int)
    requires
        0 <= k <= t.len(),
        fits(run(r, t)),
    ensures
        fits(run(r, t.take(k))),
    decreases t.len(),
{
    if k < t.len() {
        let before = run(r, t.drop_last());
        let c = t.last();
        let after = run(r, t);
        assert(after == step(before, c));
        assert(fits(before)) by {
            if !is_digit(c) {
                match before.open {
                    Some(v) => {
                        assert(after.done == before.done.push(v));
                        assert forall|j: int| 0 <= j < before.done.len() implies #[trigger] before.done[j]
                            <= usize::MAX by {
                            assert(after.done[j] == before.done[j]);
                        }
                        assert(after.done[before.done.len() as int] == v);
                    },
                    None => {},
                }
            } else {
                assert(after.done == before.done);
                assert(value(c) >= 0);
            }
        }
        assert(t.drop_last().take(k) =~= t.take(k));
        lemma_fits_before(r, t.drop_last(), k);
    } else {
        assert(t.take(k) =~= t);
    }
}

/// The numbers as mathematical integers.
pub open spec fn nats(s: Seq<usize>) -> Seq<nat> {
    Seq::new(s.len(), |j: int| s[j] as nat)
}

/// The value of a character if it is a decimal digit.
fn digit_value(c: char) -> (r: Option<usize>)
    ensures
        r is Some <==> is_digit(c),
        r matches Some(v) ==> v == value(c),
{
    if c == '0' {
        Some(0)
    } else if c == '1' {
        Some(1)
    } else if c == '2' {
        Some(2)
    } else if c == '3' {
        Some(3)
    } else if c == '4' {
        Some(4)
    } else if c == '5' {
        Some(5)
    } else if c == '6' {
        Some(6)
    } else if c == '7' {
        Some(7)
    } else if c == '8' {
        Some(8)
    } else if c == '9' {
        Some(9)
    } else {
        None
    }
}

/// Reads the numbers that a text spells out. A number too large for the
/// machine's integers ends the reading: `None` comes back.
pub fn numbers(s: &str) -> (r: Option<Vec<usize>>)
    ensures
        r is Some <==> readable(s@),
        r matches Some(v) ==> nats(v@) == scan(s@),
{
    let ghost r0 = Reading { done: Seq::empty(), open: None };
    let len = s.unicode_len();
    let mut done: Vec<usize> = Vec::new();
    let mut open: Option<usize> = None;
    let mut i: usize = 0;
    proof {
        assert(s@.take(0) =~= Seq::<char>::empty());
    }
    while i < len
        invariant
            i <= len,
            len == s@.len(),
            r0 == (Reading { done: Seq::empty(), open: None }),
            fits(run(r0, s@.take(i as int))),
            run(r0, s@.take(i as int)).done == nats(done@),
            match open {
                Some(v) => run(r0, s@.take(i as int)).open == Some(v as nat),
                None => run(r0, s@.take(i as int)).open is None,
            },
        decreases len - i,
    {
        let c = s.get_char(i);
        let ghost before = run(r0, s@.take(i as int));
        proof {
            let t = s@.take(i + 1);
            assert(t.drop_last() =~= s@.take(i as int));
            assert(t.last() == c);
        }
        match digit_value(c) {
            Some(d) => {
                let base = match open {
                    Some(v) => v,
                    None => 0,
                };
                if base > (usize::MAX - d) / 10 {
                    proof {
                        let after = run(r0, s@.take(i + 1));
                        assert(after == step(before, c));
                        assert(!fits(after));
                        if readable(s@) {
                            lemma_fits_before(r0, s@, i + 1);
                        }
                    }
                    return None;
                }
                open = Some(base * 10 + d);
            },
            None => {
                match open {
                    Some(v) => {
                        done.push(v);
                        proof {
                            assert(nats(done@) =~= before.done.push(v as nat));
                        }
                    },
                    None => {},
                }
                open = None;
            },
        }
        i += 1;
    }
    proof {
        assert(s@.take(len as int) =~= s@);
    }
    match open {
        Some(v) => {
            done.push(v);
            proof {
                assert(nats(done@) =~= scan(s@));
            }
        },
        None => {},
    }
    Some(done)
}

} // verus!
