//! The N queens problem as an exact cover problem.
//!
//! A queen on a square covers its column and its row, which must each hold
//! exactly one queen, and the two diagonals through the square and the
//! square itself, which may each hold at most one.

use vstd::prelude::*;
use vstd::arithmetic::div_mod::lemma_fundamental_div_mod_converse;
use crate::label::{lemma_scan_two, nats, numbers, push_tag, tag};
use crate::problem::Problem;
use crate::solver::{ids, in_range, Solver, texts};

verus! {

/// The items that a queen in row `r` and column `c` of a board of size `n`
/// covers.
pub open spec fn queen_option(n: int, r: int, c: int) -> Seq<int> {
    seq![c, n + r, 2 * n + c - r + n, 4 * n - 1 + r + c - 1, 6 * n - 2 + r + n * (c - 1)]
}

/// The row of the square that option `k` stands for.
pub open spec fn row_of(n: int, k: int) -> int {
    k / n + 1
}

/// The column of the square that option `k` stands for.
pub open spec fn column_of(n: int, k: int) -> int {
    k % n + 1
}

/// The name of the option for a queen in row `r` and column `c`.
pub open spec fn queen_name(r: int, c: int) -> Seq<char> {
    tag('R', r as nat) + tag('C', c as nat)
}

/// The N queens problem on a board of size `n`: one option for each
/// square, row after row.
pub open spec fn queens_problem(n: int) -> Problem {
    Problem {
        primary: (2 * n) as nat,
        items: (n * n + 8 * n - 2) as nat,
        options: Seq::new(
            (n * n) as nat,
            |k: int| queen_option(n, row_of(n, k), column_of(n, k)),
        ),
    }
}

/// The names of the options of the N queens problem.
pub open spec fn queens_names(n: int) -> Seq<Seq<char>> {
    Seq::new((n * n) as nat, |k: int| queen_name(row_of(n, k), column_of(n, k)))
}

/// The squares of a board are numbered row after row.
pub proof fn lemma_square(n: int, r: int, c: int)
    requires
        1 <= r <= n,
        1 <= c <= n,
    ensures
        0 <= (r - 1) * n + (c - 1) < n * n,
        row_of(n, (r - 1) * n + (c - 1)) == r,
        column_of(n, (r - 1) * n + (c - 1)) == c,
{
    let k = (r - 1) * n + (c - 1);
    assert(0 <= (r - 1) * n <= (n - 1) * n) by (nonlinear_arith)
        requires
            1 <= r <= n,
    ;
    assert((n - 1) * n + n == n * n) by (nonlinear_arith);
    assert(k == n * (r - 1) + (c - 1)) by (nonlinear_arith)
        requires
            k == (r - 1) * n + (c - 1),
    ;
    lemma_fundamental_div_mod_converse(k, n, r - 1, c - 1);
}

/// Every option number below `n * n` stands for a square of the board.
pub proof fn lemma_square_of(n: int, k: int)
    requires
        1 <= n,
        0 <= k < n * n,
    ensures
        1 <= row_of(n, k) <= n,
        1 <= column_of(n, k) <= n,
{
    vstd::arithmetic::div_mod::lemma_fundamental_div_mod(k, n);
    vstd::arithmetic::div_mod::lemma_mod_bound(k, n);
    let q = k / n;
    assert(0 <= q < n) by (nonlinear_arith)
        requires
            k == n * q + k % n,
            0 <= k % n < n,
            0 <= k < n * n,
            1 <= n,
    ;
}

/// The items that a queen covers are items of the problem, all different.
pub proof fn lemma_queen_option(n: int, r: int, c: int)
    requires
        1 <= r <= n,
        1 <= c <= n,
    ensures
        queens_problem(n).option_ok(queen_option(n, r, c)),
        queen_option(n, r, c).len() == 5,
{
    let o = queen_option(n, r, c);
    assert(0 <= n * (c - 1) <= n * (n - 1)) by (nonlinear_arith)
        requires
            1 <= c <= n,
    ;
    assert(n * (n - 1) == n * n - n) by (nonlinear_arith);
    assert(n * n >= 1) by (nonlinear_arith)
        requires
            1 <= n,
    ;
    assert(o[0] == c && o[1] == n + r && o[2] == 2 * n + c - r + n && o[3] == 4 * n - 1 + r + c - 1
        && o[4] == 6 * n - 2 + r + n * (c - 1));
}

/// The N queens problem.
pub struct Queens {
    n: usize,
    solver: Solver,
}

impl Queens {
    /// The size of the board.
    pub closed spec fn size(&self) -> int {
        self.n as int
    }

    /// The solver holds the N queens problem for the board.
    pub closed spec fn wf(&self) -> bool {
        &&& self.n >= 1
        &&& self.solver.wf()
        &&& self.solver.problem() == queens_problem(self.n as int)
        &&& self.solver.names() == queens_names(self.n as int)
    }

    /// The solver that holds the problem.
    pub closed spec fn engine(&self) -> Solver {
        self.solver
    }

    /// The solutions still to come, each as the sequence of its options.
    pub closed spec fn pending(&self) -> Seq<Seq<int>> {
        self.solver.pending()
    }

    /// What being in order means: the solver is in order and holds the N
    /// queens problem for the board, under the names of the squares.
    pub proof fn lemma_wf(&self)
        requires
            self.wf(),
        ensures
            self.size() >= 1,
            self.engine().wf(),
            self.engine().problem() == queens_problem(self.size()),
            self.engine().names() == queens_names(self.size()),
            self.pending() == self.engine().pending(),
    {
    }

    /// The squares that the options of a solution stand for.
    pub open spec fn squares(n: int, sol: Seq<int>) -> Seq<(usize, usize)> {
        Seq::new(sol.len(), |j: int| (row_of(n, sol[j]) as usize, column_of(n, sol[j]) as usize))
    }

    /// Creates new `Queens` set up with constraints for the N queens problem
    pub fn new(n: usize) -> (q: Queens)
        requires
            1 <= n,
            7 * n * n + 8 * n <= usize::MAX,
        ensures
            q.wf(),
            q.size() == n,
            q.engine().fresh(),
            q.engine().covered() == Seq::<int>::empty(),
            q.pending() == crate::search::solutions(queens_problem(n as int), Seq::empty()),
    {
        // 1. Each of the N columns must have exactly 1 queen on it
        // 2. Each of the N rows must have exactly 1 queen on it
        // 3. Each of the 2*N-1 right diagonals may have at most one queen
        // 4. Each of the 2*N-1 left diagonals may have at most one queen
        // 5. Each of the N^2 squares may have at most one queen
        // So this gives us 2*N mandatory items, and N^2 + 6*N -2 optional ones
        let ghost nn = n as int;
        proof {
            assert(nn * nn >= nn) by (nonlinear_arith)
                requires
                    nn >= 1,
            ;
            assert(7 * nn * nn == 7 * (nn * nn)) by (nonlinear_arith);
        }
        let mut solver = Solver::new_optional(2 * n, n * n + 6 * n - 2);
        let ghost goal = queens_problem(nn);
        proof {
            solver.lemma_fresh();
            reveal_strlit("R");
            reveal_strlit("C");
            assert("R"@ =~= seq!['R']);
            assert("C"@ =~= seq!['C']);
            assert(goal.options.take(0) =~= Seq::<Seq<int>>::empty());
            assert(queens_names(nn).take(0) =~= Seq::<Seq<char>>::empty());
            assert((1 - 1) * nn == 0) by (nonlinear_arith);
        }

        // Now add options: each option corresponds to a queen in a particular square
        let mut r: usize = 1;
        while r <= n
            invariant
                1 <= r <= n + 1,
                1 <= n,
                nn == n,
                nn * nn >= nn,
                7 * (nn * nn) + 8 * nn <= usize::MAX,
                goal == queens_problem(nn),
                solver.fresh(),
                solver.covered().len() == 0,
                solver.problem().primary == goal.primary,
                solver.problem().items == goal.items,
                solver.problem().options == goal.options.take((r - 1) * nn),
                solver.names() == queens_names(nn).take((r - 1) * nn),
                solver.problem().size() == goal.items + 2 + 6 * ((r - 1) * nn),
                0 <= (r - 1) * nn <= nn * nn,
                "R"@ == seq!['R'],
                "C"@ == seq!['C'],
            decreases n + 1 - r,
        {
            proof {
                assert((r - 1) * nn + nn == r * nn) by (nonlinear_arith);
                assert(r * nn <= nn * nn) by (nonlinear_arith)
                    requires
                        1 <= r <= nn,
                ;
            }
            let mut c: usize = 1;
            while c <= n
                invariant
                    1 <= r <= n,
                    1 <= c <= n + 1,
                    nn == n,
                    nn * nn >= nn,
                    7 * (nn * nn) + 8 * nn <= usize::MAX,
                    goal == queens_problem(nn),
                    solver.fresh(),
                    solver.covered().len() == 0,
                    solver.problem().primary == goal.primary,
                    solver.problem().items == goal.items,
                    solver.problem().options == goal.options.take((r - 1) * nn + (c - 1)),
                    solver.names() == queens_names(nn).take((r - 1) * nn + (c - 1)),
                    solver.problem().size() == goal.items + 2 + 6 * ((r - 1) * nn + (c - 1)),
                    0 <= (r - 1) * nn + (c - 1) <= nn * nn,
                    (r - 1) * nn + nn <= nn * nn,
                    "R"@ == seq!['R'],
                    "C"@ == seq!['C'],
                decreases n + 1 - c,
            {
                let ghost k = (r - 1) * nn + (c - 1);
                let ghost before = solver.problem();
                proof {
                    lemma_square(nn, r as int, c as int);
                    lemma_queen_option(nn, r as int, c as int);
                    assert(0 <= nn * (c - 1) <= nn * (nn - 1)) by (nonlinear_arith)
                        requires
                            1 <= c <= nn,
                    ;
                    assert(nn * (nn - 1) == nn * nn - nn) by (nonlinear_arith);
                }
                let mut con_name = String::new();
                push_tag(&mut con_name, "R", Ghost('R'), r);
                push_tag(&mut con_name, "C", Ghost('C'), c);
                // 1 -> N
                let col_con = c;
                // N+1 -> 2*N
                let row_con = n + r;
                // 2*N+1 -> 4*N - 1
                let rd_con = 2 * n + c - r + n;
                // 4*N ->  6*N - 2
                let ld_con = 4 * n - 1 + r + c - 1;
                // 6*N-1 -> N**2 + 6*N - 2
                let is_queen = 6 * n - 2 + r + n * (c - 1);
                let items = [col_con, row_con, rd_con, ld_con, is_queen];
                proof {
                    assert(ids(items@) =~= queen_option(nn, r as int, c as int));
                    assert(before.option_ok(queen_option(nn, r as int, c as int))) by {
                        assert(goal.option_ok(queen_option(nn, r as int, c as int)));
                    }
                }
                solver.add_option(con_name.as_str(), &items);
                proof {
                    let o = queen_option(nn, r as int, c as int);
                    assert(goal.options[k] == o);
                    assert(solver.problem().options =~= goal.options.take(k + 1));
                    assert(queens_names(nn)[k] == queen_name(r as int, c as int));
                    assert(con_name@ =~= queen_name(r as int, c as int));
                    assert(solver.names() =~= queens_names(nn).take(k + 1));
                    let last = before.options.len() as int;
                    before.lemma_spacer_with_option(o, last);
                    assert(solver.problem().spacer(last + 1) == solver.problem().spacer(last) + o.len()
                        + 1);
                }
                c += 1;
            }
            proof {
                assert((r - 1) * nn + nn == r * nn) by (nonlinear_arith);
                assert(r * nn <= nn * nn) by (nonlinear_arith)
                    requires
                        1 <= r <= nn,
                ;
            }
            r += 1;
        }
        proof {
            assert((n + 1 - 1) * nn == nn * nn) by (nonlinear_arith)
                requires
                    nn == n,
            ;
            assert(goal.options.take(nn * nn) =~= goal.options);
            assert(queens_names(nn).take(nn * nn) =~= queens_names(nn));
            assert(solver.problem() == goal);
            solver.lemma_fresh();
            assert(solver.covered() =~= Seq::<int>::empty());
        }
        Queens { solver, n }
    }

    /// Returns the next solution, which is a vector of tuples denoting the
    /// row and column of the N queens in the solution
    pub fn next(&mut self) -> (r: Option<Vec<(usize, usize)>>)
        requires
            old(self).wf(),
        ensures
            final(self).wf(),
            final(self).size() == old(self).size(),
            match r {
                Some(v) => old(self).pending().len() > 0 && v@ == Self::squares(
                    old(self).size(),
                    old(self).pending()[0],
                ) && final(self).pending() == old(self).pending().drop_first(),
                None => old(self).pending().len() == 0 && final(self).pending().len() == 0,
            },
    {
        let ghost nn = self.n as int;
        if let Some(sol) = self.solver.next() {
            let ghost opts = old(self).solver.pending()[0];
            proof {
                let named = old(self).solver.named(opts);
                assert(texts(sol@).len() == sol@.len());
                assert(named.len() == opts.len());
                assert forall|a: int| 0 <= a < opts.len() implies (#[trigger] sol@[a])@
                    == queens_names(nn)[opts[a]] by {
                    assert(texts(sol@)[a] == sol@[a]@);
                    assert(named[a] == old(self).solver.names()[opts[a]]);
                }
                assert(nn * nn >= 0) by (nonlinear_arith);
            }
            let mut n_queens_solved: Vec<(usize, usize)> = Vec::with_capacity(self.n);
            let mut j: usize = 0;
            while j < sol.len()
                invariant
                    j <= sol@.len(),
                    nn == self.n,
                    nn >= 1,
                    sol@.len() == opts.len(),
                    in_range(opts, (nn * nn) as nat),
                    forall|a: int| 0 <= a < opts.len() ==> (#[trigger] sol@[a])@ == queens_names(nn)[opts[a]],
                    n_queens_solved@ == Self::squares(nn, opts).take(j as int),
                decreases sol@.len() - j,
            {
                let ghost k = opts[j as int];
                proof {
                    lemma_square_of(nn, k);
                    lemma_scan_two('R', row_of(nn, k) as nat, 'C', column_of(nn, k) as nat);
                }
                let i = sol[j].as_str();
                let (r, c) = match numbers(i) {
                    Some(s) => {
                        proof {
                            assert(nats(s@).len() == 2);
                            assert(s@.len() == 2);
                            assert(nats(s@)[0] == s@[0] as nat);
                            assert(nats(s@)[1] == s@[1] as nat);
                        }
                        (s[0], s[1])
                    },
                    None => {
                        proof {
                            assert(false);
                        }
                        (0, 0)
                    },
                };
                n_queens_solved.push((r, c));
                proof {
                    assert(n_queens_solved@ =~= Self::squares(nn, opts).take(j + 1));
                }
                j += 1;
            }
            proof {
                assert(Self::squares(nn, opts).take(opts.len() as int) =~= Self::squares(nn, opts));
            }
            Some(n_queens_solved)
        } else {
            None
        }
    }

    /// Runs the search to its end and returns the number of solutions that
    /// were still to come.
    pub fn count(self) -> (n: usize)
        requires
            self.wf(),
            self.pending().len() <= usize::MAX,
        ensures
            n == self.pending().len(),
    {
        let mut it = self;
        let ghost all = it.pending().len();
        let mut n: usize = 0;
        loop
            invariant
                it.wf(),
                all <= usize::MAX,
                n + it.pending().len() == all,
            ensures
                n == all,
            decreases it.pending().len(),
        {
            match it.next() {
                Some(_) => {
                    n += 1;
                },
                None => {
                    break ;
                },
            }
        }
        n
    }
}

} // verus!
