//! Domino tilings of the Aztec diamond as an exact cover problem.
//!
//! The diamond of order `n` has rows of 2, 4, ..., 2n, 2n, ..., 4, 2
//! squares, numbered from 1 row after row. Every square must be covered by
//! exactly one domino.

use vstd::prelude::*;
use vstd::string::StringExecFns;
use std::collections::HashSet;
use crate::label::{lemma_scan_two, nats, numbers, push_tag, tag};
use crate::show::{blanks, padded, push_padded};
use crate::problem::Problem;
use crate::search::solutions;
use crate::solver::{ids, in_range, Solver, texts};

verus! {

broadcast use vstd::std_specs::hash::group_hash_axioms;

/// A domino: the two squares it covers, and whether it stands upright.
pub struct Domino {
    pub upright: bool,
    pub first: int,
    pub second: int,
}

/// The number of squares of the diamond of order `n`.
pub open spec fn squares(n: int) -> int {
    2 * n * (n + 1)
}

/// The last square of row `k` of the upper half.
pub open spec fn upper_end(k: int) -> int {
    k * (k + 1)
}

/// The last square of row `k` of the lower half, the rows counted from the
/// bottom.
pub open spec fn lower_end(n: int, k: int) -> int {
    squares(n) - k * (k - 1)
}

/// The square `x` is the last of row `k` of the upper half or of the lower
/// half.
pub open spec fn ends_row(n: int, k: int, x: int) -> bool {
    x == upper_end(k) || x == lower_end(n, k)
}

/// The square `x` is the last of one of the rows before row `k` of either
/// half.
pub open spec fn ends_before(n: int, k: int, x: int) -> bool {
    exists|k2: int| 1 <= k2 < k && #[trigger] ends_row(n, k2, x)
}

/// The square `x` is the last of its row.
pub open spec fn is_row_end(n: int, x: int) -> bool {
    ends_before(n, n + 1, x)
}

/// The rows before row `k + 1` are row `k` and the rows before it.
pub proof fn lemma_ends_before(n: int, k: int, x: int)
    requires
        1 <= k,
    ensures
        ends_before(n, k + 1, x) <==> ends_before(n, k, x) || ends_row(n, k, x),
        !ends_before(n, 1, x),
{
    if ends_before(n, k + 1, x) {
        let k2 = choose|k2: int| 1 <= k2 < k + 1 && #[trigger] ends_row(n, k2, x);
        if k2 < k {
            assert(ends_before(n, k, x));
        }
    }
    if ends_before(n, k, x) {
        let k2 = choose|k2: int| 1 <= k2 < k && #[trigger] ends_row(n, k2, x);
        assert(1 <= k2 < k + 1 && ends_row(n, k2, x));
    }
    if ends_row(n, k, x) {
        assert(1 <= k < k + 1 && ends_row(n, k, x));
    }
}

/// The dominoes lying flat, for the squares up to `x`: one to the right of
/// every square that is not the last of its row.
pub open spec fn flat(n: int, x: int) -> Seq<Domino>
    decreases x,
{
    if x <= 0 {
        Seq::empty()
    } else if is_row_end(n, x) {
        flat(n, x - 1)
    } else {
        flat(n, x - 1).push(Domino { upright: false, first: x, second: x + 1 })
    }
}

/// The upright dominoes between the rows of each half: those below the
/// rows before row `j` of the upper half and below the first `i` squares of
/// row `j`, each followed by its mirror image in the lower half.
pub open spec fn steep(n: int, j: int, i: int) -> Seq<Domino>
    decreases j, i,
{
    if j <= 0 {
        Seq::empty()
    } else if i <= 0 {
        steep(n, j - 1, 2 * (j - 1))
    } else {
        let pos1 = j * (j - 1) + i;
        let pos2 = pos1 + 2 * j + 1;
        steep(n, j, i - 1).push(Domino { upright: true, first: pos1, second: pos2 }).push(
            Domino { upright: true, first: squares(n) - pos2 + 1, second: squares(n) - pos1 + 1 },
        )
    }
}

/// The upright dominoes across the middle, below the first `c` squares of
/// the last row of the upper half.
pub open spec fn middle(n: int, c: int) -> Seq<Domino>
    decreases c,
{
    if c <= 0 {
        Seq::empty()
    } else {
        let x = n * (n - 1) + c;
        middle(n, c - 1).push(Domino { upright: true, first: x, second: x + 2 * n })
    }
}

/// All dominoes of the diamond of order `n`.
pub open spec fn dominoes(n: int) -> Seq<Domino> {
    flat(n, squares(n)) + steep(n, n - 1, 2 * (n - 1)) + middle(n, 2 * n)
}

/// The squares that the dominoes cover, domino by domino.
pub open spec fn laid(ds: Seq<Domino>) -> Seq<Seq<int>> {
    Seq::new(ds.len(), |k: int| seq![ds[k].first, ds[k].second])
}

/// The name of a domino.
pub open spec fn domino_name(d: Domino) -> Seq<char> {
    tag(
        if d.upright {
            'V'
        } else {
            'H'
        },
        d.first as nat,
    ) + tag('#', d.second as nat)
}

/// The names of the dominoes.
pub open spec fn named(ds: Seq<Domino>) -> Seq<Seq<char>> {
    Seq::new(ds.len(), |k: int| domino_name(ds[k]))
}

/// The problem of tiling the diamond of order `n` with dominoes.
pub open spec fn aztec_problem(n: int) -> Problem {
    Problem {
        primary: squares(n) as nat,
        items: squares(n) as nat,
        options: laid(dominoes(n)),
    }
}

/// Adds the option for a domino to the solver.
fn add_domino(solver: &mut Solver, upright: bool, a: usize, b: usize, Ghost(ds): Ghost<Seq<Domino>>)
    requires
        old(solver).fresh(),
        old(solver).covered().len() == 0,
        old(solver).problem().options == laid(ds),
        old(solver).names() == named(ds),
        old(solver).problem().size() == old(solver).problem().items + 2 + 3 * ds.len(),
        old(solver).problem().size() + 3 <= usize::MAX,
        1 <= a <= old(solver).problem().items,
        1 <= b <= old(solver).problem().items,
        a != b,
    ensures
        final(solver).fresh(),
        final(solver).covered().len() == 0,
        final(solver).problem().primary == old(solver).problem().primary,
        final(solver).problem().items == old(solver).problem().items,
        final(solver).problem().options == laid(
            ds.push(Domino { upright, first: a as int, second: b as int }),
        ),
        final(solver).names() == named(ds.push(Domino { upright, first: a as int, second: b as int })),
        final(solver).problem().size() == old(solver).problem().size() + 3,
{
    let ghost d = Domino { upright, first: a as int, second: b as int };
    let ghost before = solver.problem();
    proof {
        reveal_strlit("V");
        reveal_strlit("H");
        reveal_strlit("#");
        assert("V"@ =~= seq!['V']);
        assert("H"@ =~= seq!['H']);
        assert("#"@ =~= seq!['#']);
    }
    let mut con_name = String::new();
    if upright {
        push_tag(&mut con_name, "V", Ghost('V'), a);
    } else {
        push_tag(&mut con_name, "H", Ghost('H'), a);
    }
    push_tag(&mut con_name, "#", Ghost('#'), b);
    let items = [a, b];
    proof {
        assert(ids(items@) =~= seq![a as int, b as int]);
        assert(con_name@ =~= domino_name(d));
    }
    solver.add_option(con_name.as_str(), &items);
    proof {
        assert(solver.problem().options =~= laid(ds.push(d)));
        assert(solver.names() =~= named(ds.push(d)));
        let last = before.options.len() as int;
        let o = seq![a as int, b as int];
        before.lemma_spacer_with_option(o, last);
        assert(solver.problem().spacer(last + 1) == solver.problem().spacer(last) + o.len() + 1);
    }
}

/// The colour of a square in the picture of a tiling.
#[derive(Clone, Copy, Debug, PartialEq, Eq, Structural)]
pub enum Color {
    Red,
    Yellow,
    Blue,
    Green,
    Black,
}

/// The largest number whose square is at most `len`.
pub open spec fn floor_sqrt(len: int) -> int {
    choose|n: int| 0 <= n && #[trigger] (n * n) <= len < (n + 1) * (n + 1)
}

/// There is only one largest number whose square is at most `len`.
pub proof fn lemma_floor_sqrt(len: int, n: int)
    requires
        0 <= n,
        n * n <= len < (n + 1) * (n + 1),
    ensures
        floor_sqrt(len) == n,
{
    let r = floor_sqrt(len);
    assert(0 <= r && r * r <= len < (r + 1) * (r + 1));
    if r < n {
        assert((r + 1) * (r + 1) <= n * n) by (nonlinear_arith)
            requires
                0 <= r < n,
        ;
    } else if n < r {
        assert((n + 1) * (n + 1) <= r * r) by (nonlinear_arith)
            requires
                0 <= n < r,
        ;
    }
}

/// The largest number whose square is at most `len`.
pub fn sqrt_floor(len: usize) -> (n: usize)
    ensures
        n == floor_sqrt(len as int),
        n * n <= len,
{
    let mut n: usize = 0;
    loop
        invariant
            n * n <= len,
        decreases len - n,
    {
        if n == usize::MAX {
            proof {
                assert(n * n >= n) by (nonlinear_arith)
                    requires
                        n >= 0,
                ;
                assert((n + 1) * (n + 1) > n) by (nonlinear_arith)
                    requires
                        n >= 0,
                ;
                lemma_floor_sqrt(len as int, n as int);
            }
            return n;
        }
        let m = n + 1;
        match m.checked_mul(m) {
            Some(q) => {
                if q <= len {
                    proof {
                        assert(m * m >= m) by (nonlinear_arith)
                            requires
                                m >= 1,
                        ;
                    }
                    n = m;
                } else {
                    proof {
                        lemma_floor_sqrt(len as int, n as int);
                    }
                    return n;
                }
            },
            None => {
                proof {
                    lemma_floor_sqrt(len as int, n as int);
                }
                return n;
            },
        }
    }
}

/// The colour of the domino on the squares `a` and `b`, in a diamond with
/// `half` squares in its upper half: flat dominoes are blue or yellow,
/// upright ones green or red, by the place of their first square.
pub open spec fn tint(half: int, a: int, b: int) -> Color {
    let lo = if a <= b {
        a
    } else {
        b
    };
    let hi = if a <= b {
        b
    } else {
        a
    };
    let par: int = if lo > half {
        1
    } else {
        0
    };
    if hi == lo + 1 {
        if lo % 2 == par {
            Color::Blue
        } else {
            Color::Yellow
        }
    } else {
        if lo % 2 == par {
            Color::Green
        } else {
            Color::Red
        }
    }
}

/// The colours of the squares after the first `j` dominoes have been
/// painted; squares without a domino are black.
pub open spec fn painted(sol: Seq<(usize, usize)>, half: int, j: int) -> Seq<Color>
    decreases j,
{
    if j <= 0 {
        Seq::new(2 * sol.len(), |i: int| Color::Black)
    } else {
        let d = sol[j - 1];
        let lo = if d.0 <= d.1 {
            d.0
        } else {
            d.1
        };
        let hi = if d.0 <= d.1 {
            d.1
        } else {
            d.0
        };
        let c = tint(half, d.0 as int, d.1 as int);
        painted(sol, half, j - 1).update(lo - 1, c).update(hi - 1, c)
    }
}

/// A square of the picture: a blank on a ground of the colour.
pub open spec fn block(c: Color) -> Seq<char> {
    match c {
        Color::Red => "\x1b[41m \x1b[0m"@,
        Color::Green => "\x1b[42m \x1b[0m"@,
        Color::Yellow => "\x1b[43m \x1b[0m"@,
        Color::Blue => "\x1b[44m \x1b[0m"@,
        Color::Black => "\x1b[40m \x1b[0m"@,
    }
}

/// How far a picture is drawn: its text, the margin of the row at hand,
/// and whether the rows are still growing.
pub struct Brush {
    pub text: Seq<char>,
    pub margin: int,
    pub growing: bool,
}

/// The picture after the first `i` squares: every square as a block, and
/// behind the last square of a row a line break and the margin of the next
/// row.
pub open spec fn drawn(colors: Seq<Color>, n: int, i: int) -> Brush
    decreases i,
{
    if i <= 0 {
        Brush { text: blanks(n), margin: n, growing: true }
    } else {
        let b = drawn(colors, n, i - 1);
        let text = b.text + block(colors[i - 1]);
        if is_row_end(n, i) {
            let margin = if b.growing {
                if b.margin - 1 == 0 {
                    1
                } else {
                    b.margin - 1
                }
            } else {
                b.margin + 1
            };
            Brush {
                text: text + seq!['\n'] + blanks(margin),
                margin,
                growing: b.growing && b.margin - 1 != 0,
            }
        } else {
            Brush { text, ..b }
        }
    }
}

/// The picture of a tiling, given as the pairs of squares of its dominoes.
pub open spec fn picture_text(sol: Seq<(usize, usize)>) -> Seq<char> {
    let n = floor_sqrt(sol.len() as int);
    let colors = painted(sol, n * (n + 1), sol.len() as int);
    drawn(colors, n, colors.len() as int).text + seq!['\n']
}

/// The squares that are the last of their row, in the diamond of order `n`.
fn row_ends(n: usize) -> (set: HashSet<usize>)
    requires
        2 * (n * n) + 2 * n <= usize::MAX,
    ensures
        forall|y: usize| set@.contains(y) <==> is_row_end(n as int, y as int),
{
    let ghost nn = n as int;
    proof {
        assert(2 * nn * (nn + 1) == 2 * (nn * nn) + 2 * nn) by (nonlinear_arith);
        assert(nn * (nn + 1) == nn * nn + nn) by (nonlinear_arith);
    }
    let max = 2 * n * (n + 1);
    let mut row_ends_set: HashSet<usize> = HashSet::new();
    let mut k: usize = 1;
    proof {
        assert forall|x: usize| !ends_before(nn, 1, x as int) by {
            lemma_ends_before(nn, 1, x as int);
        }
    }
    while k <= n
        invariant
            1 <= k <= n + 1,
            nn == n,
            max == squares(nn),
            max == 2 * (nn * nn) + 2 * nn,
            forall|x: usize| row_ends_set@.contains(x) <==> ends_before(nn, k as int, x as int),
        decreases n + 1 - k,
    {
        proof {
            assert(0 <= k * (k - 1) && k * (k + 1) <= nn * (nn + 1) && k * (k - 1) <= k * (k + 1)
                && nn * (nn + 1) == nn * nn + nn) by (nonlinear_arith)
                requires
                    1 <= k <= nn,
            ;
        }
        let top = k * (k + 1);
        let bottom = max - k * (k - 1);
        let ghost before = row_ends_set@;
        row_ends_set.insert(top);
        row_ends_set.insert(bottom);
        proof {
            assert(top == upper_end(k as int) && bottom == lower_end(nn, k as int));
            assert(row_ends_set@ == before.insert(top).insert(bottom));
            assert forall|x: usize|
                row_ends_set@.contains(x) <==> ends_before(nn, k + 1, x as int) by {
                lemma_ends_before(nn, k as int, x as int);
                assert(before.contains(x) <==> ends_before(nn, k as int, x as int));
            }
        }
        k += 1;
    }
    row_ends_set
}

/// Finds solutions to the Aztec diamond problem.
pub struct Aztec {
    n: usize,
    pub solver: Solver,
}

impl Aztec {
    /// The order of the diamond.
    pub closed spec fn order(&self) -> int {
        self.n as int
    }

    /// The solver that holds the problem.
    pub closed spec fn engine(&self) -> Solver {
        self.solver
    }

    /// The solver holds the tiling problem of the diamond.
    pub closed spec fn wf(&self) -> bool {
        &&& self.n >= 1
        &&& self.solver.wf()
        &&& self.solver.problem() == aztec_problem(self.n as int)
        &&& self.solver.names() == named(dominoes(self.n as int))
    }

    /// The solutions still to come, each as the sequence of its options.
    pub closed spec fn pending(&self) -> Seq<Seq<int>> {
        self.solver.pending()
    }

    /// What being in order means: the solver is in order and holds the
    /// tiling problem of the diamond, under the names of the dominoes.
    pub proof fn lemma_wf(&self)
        requires
            self.wf(),
        ensures
            self.order() >= 1,
            self.engine().wf(),
            self.engine().problem() == aztec_problem(self.order()),
            self.engine().names() == named(dominoes(self.order())),
            self.pending() == self.engine().pending(),
    {
    }

    /// The pairs of squares that the dominoes of a solution cover.
    pub open spec fn pairs(n: int, sol: Seq<int>) -> Seq<(usize, usize)> {
        Seq::new(
            sol.len(),
            |j: int| (dominoes(n)[sol[j]].first as usize, dominoes(n)[sol[j]].second as usize),
        )
    }

    /// Creates new `Aztec` set up with the constraints for the diamond of
    /// order `n`
    pub fn new(n: usize) -> (r: Aztec)
        requires
            1 <= n,
            20 * n * n + 14 * n + 5 <= usize::MAX,
        ensures
            r.wf(),
            r.order() == n,
            r.engine().fresh(),
            r.engine().covered() == Seq::<int>::empty(),
            r.pending() == solutions(aztec_problem(n as int), Seq::empty()),
    {
        // Only constraint is that each square must be covered, and there are
        // (1+2+...+n)*4 = 2*n*(n+1) squares for the order n Aztec diamond
        let ghost nn = n as int;
        let ghost sq = squares(nn);
        proof {
            assert(nn * nn >= nn) by (nonlinear_arith)
                requires
                    nn >= 1,
            ;
            assert(2 * nn * (nn + 1) == 2 * (nn * nn) + 2 * nn) by (nonlinear_arith);
            assert(20 * nn * nn == 20 * (nn * nn)) by (nonlinear_arith);
            assert(nn * (nn + 1) == nn * nn + nn) by (nonlinear_arith);
            assert(2 * (nn * (nn + 1)) == 2 * nn * (nn + 1)) by (nonlinear_arith);
        }
        let mut solver = Solver::new(2 * n * (n + 1));
        let max = 2 * n * (n + 1);
        let ghost ds: Seq<Domino> = Seq::empty();
        proof {
            solver.lemma_fresh();
            assert(solver.problem().options =~= laid(ds));
            assert(solver.names() =~= named(ds));
        }

        // Construct positions at end of row
        let row_ends_set = row_ends(n);

        // Horizontal dominoes
        let mut x: usize = 1;
        while x <= max
            invariant
                1 <= x <= max + 1,
                nn == n,
                nn >= 1,
                max == sq,
                sq == squares(nn),
                sq == 2 * (nn * nn) + 2 * nn,
                20 * (nn * nn) + 14 * nn + 5 <= usize::MAX,
                forall|y: usize| row_ends_set@.contains(y) <==> is_row_end(nn, y as int),
                solver.fresh(),
                solver.covered().len() == 0,
                solver.problem().primary == sq,
                solver.problem().items == sq,
                ds == flat(nn, x - 1),
                ds.len() <= x - 1,
                solver.problem().options == laid(ds),
                solver.names() == named(ds),
                solver.problem().size() == sq + 2 + 3 * ds.len(),
            decreases max + 1 - x,
        {
            if !row_ends_set.contains(&x) {
                let pos1 = x;
                proof {
                    if x == max {
                        assert(x == lower_end(nn, 1)) by (nonlinear_arith)
                            requires
                                x == squares(nn),
                                lower_end(nn, 1) == squares(nn) - 1 * (1 - 1),
                        ;
                        assert(1 <= 1 < nn + 1 && ends_row(nn, 1, x as int));
                        assert(is_row_end(nn, x as int));
                    }
                }
                let pos2 = pos1 + 1;
                add_domino(&mut solver, false, pos1, pos2, Ghost(ds));
                proof {
                    ds = ds.push(Domino { upright: false, first: pos1 as int, second: pos2 as int });
                }
            }
            x += 1;
        }

        // Vertical dominoes
        // First n-1 rows are trivial: for row j pick square i, and square i + 2*j + 1
        let ghost base = ds;
        let ghost vs: Seq<Domino> = Seq::empty();
        proof {
            assert(base + vs =~= base);
        }
        let mut j: usize = 1;
        while j <= n - 1
            invariant
                1 <= j <= n,
                nn == n,
                nn >= 1,
                max == sq,
                sq == squares(nn),
                sq == 2 * (nn * nn) + 2 * nn,
                20 * (nn * nn) + 14 * nn + 5 <= usize::MAX,
                solver.fresh(),
                solver.covered().len() == 0,
                solver.problem().primary == sq,
                solver.problem().items == sq,
                base.len() <= sq,
                vs == steep(nn, j - 1, 2 * (j - 1)),
                vs.len() <= 4 * nn * (j - 1),
                ds == base + vs,
                solver.problem().options == laid(ds),
                solver.names() == named(ds),
                solver.problem().size() == sq + 2 + 3 * ds.len(),
            decreases n - j,
        {
            let mut i: usize = 1;
            proof {
                assert(4 * nn * j == 4 * nn * (j - 1) + 4 * nn) by (nonlinear_arith);
                assert(4 * nn * j <= 4 * nn * nn) by (nonlinear_arith)
                    requires
                        1 <= j <= nn,
                ;
                assert(4 * nn * nn == 4 * (nn * nn)) by (nonlinear_arith);
                assert(0 <= j * (j - 1) && j * (j + 1) <= nn * (nn - 1) && j * (j + 1) == j * (j - 1)
                    + 2 * j && nn * (nn - 1) == nn * nn - nn) by (nonlinear_arith)
                    requires
                        1 <= j <= nn - 1,
                ;
            }
            while i <= 2 * j
                invariant
                    1 <= j <= n - 1,
                    1 <= i <= 2 * j + 1,
                    nn == n,
                    nn >= 1,
                    max == sq,
                    sq == squares(nn),
                    sq == 2 * (nn * nn) + 2 * nn,
                    20 * (nn * nn) + 14 * nn + 5 <= usize::MAX,
                    solver.fresh(),
                    solver.covered().len() == 0,
                    solver.problem().primary == sq,
                    solver.problem().items == sq,
                    base.len() <= sq,
                    vs == steep(nn, j as int, i - 1),
                    vs.len() <= 4 * nn * (j - 1) + 2 * (i - 1),
                    4 * nn * (j - 1) + 4 * nn <= 4 * (nn * nn),
                    0 <= j * (j - 1),
                    j * (j - 1) + 2 * j <= nn * nn - nn,
                    ds == base + vs,
                    solver.problem().options == laid(ds),
                    solver.names() == named(ds),
                    solver.problem().size() == sq + 2 + 3 * ds.len(),
                decreases 2 * j + 1 - i,
            {
                let pos1 = j * (j - 1) + i;
                let pos2 = pos1 + 2 * j + 1;
                add_domino(&mut solver, true, pos1, pos2, Ghost(ds));
                let ghost d1 = Domino { upright: true, first: pos1 as int, second: pos2 as int };
                proof {
                    ds = ds.push(d1);
                }

                // Now add mirror image of this
                let mpos1 = max - pos1 + 1;
                let mpos2 = max - pos2 + 1;
                add_domino(&mut solver, true, mpos2, mpos1, Ghost(ds));
                proof {
                    let d2 = Domino { upright: true, first: mpos2 as int, second: mpos1 as int };
                    ds = ds.push(d2);
                    vs = vs.push(d1).push(d2);
                    assert(ds =~= base + vs);
                }
                i += 1;
            }
            j += 1;
        }
        // Final (biggest row), runs from n(n-1) + 1 -> n(n-1) + 1 + 2n -1
        proof {
            assert(0 <= nn * (nn - 1) && nn * (nn - 1) == nn * nn - nn && 4 * nn * (nn - 1) == 4 * (nn
                * nn) - 4 * nn) by (nonlinear_arith)
                requires
                    nn >= 1,
            ;
        }
        let final_min = n * (n - 1) + 1;
        let final_max = final_min + 2 * n - 1;
        let ghost base2 = ds;
        let ghost ms: Seq<Domino> = Seq::empty();
        proof {
            assert(base2 + ms =~= base2);
        }
        let mut x: usize = final_min;
        while x <= final_max
            invariant
                final_min <= x <= final_max + 1,
                final_min == nn * (nn - 1) + 1,
                final_max == final_min + 2 * nn - 1,
                nn == n,
                nn >= 1,
                max == sq,
                sq == squares(nn),
                sq == 2 * (nn * nn) + 2 * nn,
                nn * (nn - 1) == nn * nn - nn,
                20 * (nn * nn) + 14 * nn + 5 <= usize::MAX,
                solver.fresh(),
                solver.covered().len() == 0,
                solver.problem().primary == sq,
                solver.problem().items == sq,
                base2.len() <= sq + 4 * (nn * nn),
                ms == middle(nn, x - final_min),
                ms.len() == x - final_min,
                ds == base2 + ms,
                solver.problem().options == laid(ds),
                solver.names() == named(ds),
                solver.problem().size() == sq + 2 + 3 * ds.len(),
            decreases final_max + 1 - x,
        {
            let pos1 = x;
            let pos2 = x + 2 * n;
            add_domino(&mut solver, true, pos1, pos2, Ghost(ds));
            proof {
                let d = Domino { upright: true, first: pos1 as int, second: pos2 as int };
                ds = ds.push(d);
                ms = ms.push(d);
                assert(ds =~= base2 + ms);
            }
            x += 1;
        }
        proof {
            assert(ds =~= dominoes(nn));
            solver.lemma_fresh();
            assert(solver.covered() =~= Seq::<int>::empty());
        }
        Aztec { solver, n }
    }

    /// Returns the next solution, which is a vector of tuples denoting the
    /// two squares of each domino of the tiling
    pub fn next(&mut self) -> (r: Option<Vec<(usize, usize)>>)
        requires
            old(self).wf(),
        ensures
            final(self).wf(),
            final(self).order() == old(self).order(),
            match r {
                Some(v) => old(self).pending().len() > 0 && v@ == Self::pairs(
                    old(self).order(),
                    old(self).pending()[0],
                ) && final(self).pending() == old(self).pending().drop_first(),
                None => old(self).pending().len() == 0 && final(self).pending().len() == 0,
            },
    {
        let ghost nn = self.n as int;
        let ghost all = dominoes(nn);
        if let Some(sol) = self.solver.next() {
            let ghost opts = old(self).solver.pending()[0];
            proof {
                let names = old(self).solver.named(opts);
                assert(texts(sol@).len() == sol@.len());
                assert(names.len() == opts.len());
                assert forall|a: int| 0 <= a < opts.len() implies (#[trigger] sol@[a])@
                    == domino_name(all[opts[a]]) by {
                    assert(texts(sol@)[a] == sol@[a]@);
                    assert(names[a] == old(self).solver.names()[opts[a]]);
                }
            }
            let mut dom_solved: Vec<(usize, usize)> = Vec::with_capacity(self.n);
            let mut j: usize = 0;
            while j < sol.len()
                invariant
                    j <= sol@.len(),
                    nn == self.n,
                    all == dominoes(nn),
                    sol@.len() == opts.len(),
                    in_range(opts, all.len()),
                    self.solver.problem() == aztec_problem(nn),
                    self.solver.wf(),
                    forall|a: int|
                        0 <= a < opts.len() ==> (#[trigger] sol@[a])@ == domino_name(all[opts[a]]),
                    dom_solved@ == Self::pairs(nn, opts).take(j as int),
                decreases sol@.len() - j,
            {
                let ghost d = all[opts[j as int]];
                proof {
                    self.solver.lemma_option_in_range(opts[j as int]);
                    let o = aztec_problem(nn).options[opts[j as int]];
                    assert(o == seq![d.first, d.second]);
                    assert(o[0] == d.first && o[1] == d.second);
                    lemma_scan_two(
                        if d.upright {
                            'V'
                        } else {
                            'H'
                        },
                        d.first as nat,
                        '#',
                        d.second as nat,
                    );
                }
                let i = sol[j].as_str();
                let (one_end, other_end) = match numbers(i) {
                    Some(s) => {
                        proof {
                            assert(nats(s@).len() == 2);
                            assert(s@.len() == 2);
                            assert(nats(s@)[0] == s@[0] as nat);
                            assert(nats(s@)[1] == s@[1] as nat);
                        }
                        (s[0], s[1])
                    },
                    None => {
                        proof {
                            assert(false);
                        }
                        (0, 0)
                    },
                };
                dom_solved.push((one_end, other_end));
                proof {
                    assert(dom_solved@ =~= Self::pairs(nn, opts).take(j + 1));
                }
                j += 1;
            }
            proof {
                assert(Self::pairs(nn, opts).take(opts.len() as int) =~= Self::pairs(nn, opts));
            }
            Some(dom_solved)
        } else {
            None
        }
    }

    /// Runs the search to its end and returns the number of tilings that
    /// were still to come.
    pub fn count(self) -> (n: usize)
        requires
            self.wf(),
            self.pending().len() <= usize::MAX,
        ensures
            n == self.pending().len(),
    {
        let mut it = self;
        let ghost all = it.pending().len();
        let mut n: usize = 0;
        loop
            invariant
                it.wf(),
                all <= usize::MAX,
                n + it.pending().len() == all,
            ensures
                n == all,
            decreases it.pending().len(),
        {
            match it.next() {
                Some(_) => {
                    n += 1;
                },
                None => {
                    break ;
                },
            }
        }
        n
    }

    /// Draws a tiling, given as the pairs of squares of its dominoes: one
    /// block for each square, coloured by the domino that covers it, row by
    /// row in the shape of the diamond.
    pub fn picture(sol: &[(usize, usize)]) -> (r: String)
        requires
            4 * sol@.len() + 2 <= usize::MAX,
            forall|j: int|
                0 <= j < sol@.len() ==> 1 <= (#[trigger] sol@[j]).0 <= 2 * sol@.len() && 1
                    <= sol@[j].1 <= 2 * sol@.len(),
        ensures
            r@ == picture_text(sol@),
    {
        let n = sqrt_floor(sol.len());
        let ghost nn = n as int;
        let ghost len = sol@.len() as int;
        proof {
            assert(nn <= nn * nn) by (nonlinear_arith)
                requires
                    nn >= 0,
            ;
            assert(nn * (nn + 1) == nn * nn + nn) by (nonlinear_arith);
        }
        let half = n * (n + 1);
        let row_ends_set = row_ends(n);

        let mut solc: Vec<Color> = Vec::with_capacity(2 * sol.len());
        let mut i: usize = 0;
        while i < 2 * sol.len()
            invariant
                i <= 2 * sol@.len(),
                4 * sol@.len() + 2 <= usize::MAX,
                solc@ == Seq::new(i as nat, |i: int| Color::Black),
            decreases 2 * sol@.len() - i,
        {
            solc.push(Color::Black);
            i += 1;
            proof {
                assert(solc@ =~= Seq::new(i as nat, |i: int| Color::Black));
            }
        }

        // Go through items in solution
        let mut j: usize = 0;
        while j < sol.len()
            invariant
                j <= sol@.len(),
                half == nn * (nn + 1),
                4 * sol@.len() + 2 <= usize::MAX,
                solc@.len() == 2 * sol@.len(),
                solc@ == painted(sol@, half as int, j as int),
                forall|j: int|
                    0 <= j < sol@.len() ==> 1 <= (#[trigger] sol@[j]).0 <= 2 * sol@.len() && 1
                        <= sol@[j].1 <= 2 * sol@.len(),
            decreases sol@.len() - j,
        {
            let item = sol[j];
            let min = if item.0 <= item.1 {
                item.0
            } else {
                item.1
            };
            let max = if item.0 <= item.1 {
                item.1
            } else {
                item.0
            };
            let par = if min > half {
                1
            } else {
                0
            };
            // If horizontal bond
            let color = if max == min + 1 {
                if min % 2 == par {
                    Color::Blue
                } else {
                    Color::Yellow
                }
            } else {
                if min % 2 == par {
                    Color::Green
                } else {
                    Color::Red
                }
            };
            proof {
                assert(color == tint(half as int, item.0 as int, item.1 as int));
            }
            solc[min - 1] = color;
            solc[max - 1] = color;
            j += 1;
        }

        // Now draw the rows
        let mut out = String::new();
        let mut row_dir = true;
        let mut row_pad = n;
        proof {
            reveal_strlit("");
            reveal_strlit("\n");
            assert(""@ =~= Seq::<char>::empty());
            assert("\n"@ =~= seq!['\n']);
        }
        push_padded(&mut out, "", row_pad as u128);
        let ghost colors = solc@;
        proof {
            assert(padded(""@, nn) =~= blanks(nn));
            assert(out@ =~= drawn(colors, nn, 0).text);
        }
        let mut i: usize = 0;
        while i < solc.len()
            invariant
                i <= solc@.len(),
                colors == solc@,
                nn == n,
                solc@.len() <= usize::MAX,
                forall|y: usize| row_ends_set@.contains(y) <==> is_row_end(nn, y as int),
                out@ == drawn(colors, nn, i as int).text,
                row_pad == drawn(colors, nn, i as int).margin,
                row_dir == drawn(colors, nn, i as int).growing,
                row_dir ==> row_pad >= 1 || nn == 0,
                row_pad <= nn + i,
                nn <= len,
                solc@.len() == 2 * len,
                4 * len + 2 <= usize::MAX,
                ""@ == Seq::<char>::empty(),
                "\n"@ == seq!['\n'],
            decreases solc@.len() - i,
        {
            let ghost before = drawn(colors, nn, i as int);
            match solc[i] {
                Color::Red => {
                    out.append("\x1b[41m \x1b[0m");
                },
                Color::Green => {
                    out.append("\x1b[42m \x1b[0m");
                },
                Color::Yellow => {
                    out.append("\x1b[43m \x1b[0m");
                },
                Color::Blue => {
                    out.append("\x1b[44m \x1b[0m");
                },
                Color::Black => {
                    out.append("\x1b[40m \x1b[0m");
                },
            };
            proof {
                assert(out@ =~= before.text + block(colors[i as int]));
            }
            if row_ends_set.contains(&(i + 1)) {
                proof {
                    assert(is_row_end(nn, i + 1));
                    if nn == 0 {
                        lemma_ends_before(nn, 1, i + 1);
                    }
                }
                if row_dir {
                    row_pad -= 1;
                    if row_pad == 0 {
                        row_dir = false;
                        row_pad += 1;
                    }
                } else {
                    row_pad += 1;
                }
                out.append("\n");
                let ghost mid = out@;
                push_padded(&mut out, "", row_pad as u128);
                proof {
                    assert(padded(""@, row_pad as int) =~= blanks(row_pad as int));
                    assert(out@ =~= before.text + block(colors[i as int]) + seq!['\n'] + blanks(
                        row_pad as int,
                    ));
                }
            }
            i += 1;
        }
        out.append("\n");
        out
    }
}

} // verus!
