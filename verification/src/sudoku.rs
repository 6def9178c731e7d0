//! Sudoku as an exact cover problem.
//!
//! A grid of order `n` has `n * n` rows, columns and boxes. A number in a
//! cell covers the cell, the number in its row, the number in its column
//! and the number in its box; each of these must be covered exactly once.

use vstd::prelude::*;
use vstd::arithmetic::div_mod::{
    lemma_div_pos_is_pos, lemma_fundamental_div_mod, lemma_fundamental_div_mod_converse,
    lemma_mod_bound,
};
use vstd::slice::slice_to_vec;
use vstd::string::StringExecFns;
use crate::label::{decimal, digits, lemma_scan_three, nats, numbers, push_tag, tag};
use crate::problem::Problem;
use crate::search::{disjoint, solutions};
use crate::solver::{ids, in_range, is_first, Solver, texts};

verus! {

/// The box that the cell in row `row` and column `col` lies in, counted
/// from 0.
pub open spec fn box_of(n: int, row: int, col: int) -> int {
    (col - 1) / n + n * ((row - 1) / n)
}

/// The items that the number `val` in row `row` and column `col` covers,
/// in a grid with `s` rows.
pub open spec fn sudoku_option(n: int, row: int, col: int, val: int) -> Seq<int> {
    let s = n * n;
    seq![
        col + (row - 1) * s,
        s * s + s * (row - 1) + val,
        2 * s * s + s * (col - 1) + val,
        3 * s * s + s * box_of(n, row, col) + val,
    ]
}

/// The number of the option for the number `val` in row `row` and column
/// `col`.
pub open spec fn option_at(s: int, row: int, col: int, val: int) -> int {
    ((row - 1) * s + (col - 1)) * s + (val - 1)
}

/// The row that option `k` stands for.
pub open spec fn option_row(s: int, k: int) -> int {
    (k / s) / s + 1
}

/// The column that option `k` stands for.
pub open spec fn option_col(s: int, k: int) -> int {
    (k / s) % s + 1
}

/// The number that option `k` stands for.
pub open spec fn option_val(s: int, k: int) -> int {
    k % s + 1
}

/// The name of the option for the number `val` in row `row` and column `col`.
pub open spec fn sudoku_name(row: int, col: int, val: int) -> Seq<char> {
    tag('R', row as nat) + tag('C', col as nat) + tag('#', val as nat)
}

/// The Sudoku problem of order `n`, with no number given: one option for
/// each number in each cell, row after row and cell after cell.
pub open spec fn sudoku_problem(n: int) -> Problem {
    let s = n * n;
    Problem {
        primary: (4 * s * s) as nat,
        items: (4 * s * s) as nat,
        options: Seq::new(
            (s * s * s) as nat,
            |k: int| sudoku_option(n, option_row(s, k), option_col(s, k), option_val(s, k)),
        ),
    }
}

/// The names of the options of the Sudoku problem of order `n`.
pub open spec fn sudoku_names(n: int) -> Seq<Seq<char>> {
    let s = n * n;
    Seq::new(
        (s * s * s) as nat,
        |k: int| sudoku_name(option_row(s, k), option_col(s, k), option_val(s, k)),
    )
}

/// The options are numbered row after row, cell after cell, number after
/// number.
pub proof fn lemma_option_at(s: int, row: int, col: int, val: int)
    requires
        1 <= row <= s,
        1 <= col <= s,
        1 <= val <= s,
    ensures
        0 <= option_at(s, row, col, val) < s * s * s,
        option_row(s, option_at(s, row, col, val)) == row,
        option_col(s, option_at(s, row, col, val)) == col,
        option_val(s, option_at(s, row, col, val)) == val,
{
    let c = (row - 1) * s + (col - 1);
    let k = c * s + (val - 1);
    assert(0 <= (row - 1) * s <= (s - 1) * s) by (nonlinear_arith)
        requires
            1 <= row <= s,
    ;
    assert((s - 1) * s + s == s * s) by (nonlinear_arith);
    assert(0 <= c < s * s);
    assert(0 <= c * s <= (s * s - 1) * s) by (nonlinear_arith)
        requires
            0 <= c < s * s,
            1 <= s,
    ;
    assert((s * s - 1) * s + s == s * s * s) by (nonlinear_arith);
    assert(k == s * c + (val - 1)) by (nonlinear_arith)
        requires
            k == c * s + (val - 1),
    ;
    lemma_fundamental_div_mod_converse(k, s, c, val - 1);
    assert(c == s * (row - 1) + (col - 1)) by (nonlinear_arith)
        requires
            c == (row - 1) * s + (col - 1),
    ;
    lemma_fundamental_div_mod_converse(c, s, row - 1, col - 1);
}

/// Every option number stands for a number in a cell.
pub proof fn lemma_option_of(s: int, k: int)
    requires
        1 <= s,
        0 <= k < s * s * s,
    ensures
        1 <= option_row(s, k) <= s,
        1 <= option_col(s, k) <= s,
        1 <= option_val(s, k) <= s,
        option_at(s, option_row(s, k), option_col(s, k), option_val(s, k)) == k,
{
    let c = k / s;
    lemma_fundamental_div_mod(k, s);
    lemma_mod_bound(k, s);
    lemma_fundamental_div_mod(c, s);
    lemma_mod_bound(c, s);
    assert(0 <= c < s * s) by (nonlinear_arith)
        requires
            k == s * c + k % s,
            0 <= k % s < s,
            0 <= k < s * s * s,
            1 <= s,
    ;
    let r = c / s;
    assert(0 <= r < s) by (nonlinear_arith)
        requires
            c == s * r + c % s,
            0 <= c % s < s,
            0 <= c < s * s,
            1 <= s,
    ;
    assert(((r + 1 - 1) * s + (c % s + 1 - 1)) * s + (k % s + 1 - 1) == k) by (nonlinear_arith)
        requires
            k == s * c + k % s,
            c == s * r + c % s,
    ;
}

/// Every cell lies in one of the boxes.
pub proof fn lemma_box(n: int, row: int, col: int)
    requires
        1 <= n,
        1 <= row <= n * n,
        1 <= col <= n * n,
    ensures
        0 <= box_of(n, row, col) < n * n,
{
    let a = (col - 1) / n;
    let b = (row - 1) / n;
    lemma_fundamental_div_mod(col - 1, n);
    lemma_mod_bound(col - 1, n);
    lemma_fundamental_div_mod(row - 1, n);
    lemma_mod_bound(row - 1, n);
    assert(0 <= a < n) by (nonlinear_arith)
        requires
            col - 1 == n * a + (col - 1) % n,
            0 <= (col - 1) % n < n,
            0 <= col - 1 < n * n,
            1 <= n,
    ;
    assert(0 <= b < n) by (nonlinear_arith)
        requires
            row - 1 == n * b + (row - 1) % n,
            0 <= (row - 1) % n < n,
            0 <= row - 1 < n * n,
            1 <= n,
    ;
    assert(0 <= n * b <= n * (n - 1)) by (nonlinear_arith)
        requires
            0 <= b < n,
    ;
    assert(n * (n - 1) == n * n - n) by (nonlinear_arith);
}

/// The items that a number in a cell covers are items of the problem, all
/// different.
pub proof fn lemma_sudoku_option(n: int, row: int, col: int, val: int)
    requires
        1 <= n,
        1 <= row <= n * n,
        1 <= col <= n * n,
        1 <= val <= n * n,
    ensures
        sudoku_problem(n).option_ok(sudoku_option(n, row, col, val)),
        sudoku_option(n, row, col, val).len() == 4,
        1 <= sudoku_option(n, row, col, val)[0] <= n * n * (n * n),
        n * n * (n * n) < sudoku_option(n, row, col, val)[1] <= 2 * (n * n * (n * n)),
        2 * (n * n * (n * n)) < sudoku_option(n, row, col, val)[2] <= 3 * (n * n * (n * n)),
        3 * (n * n * (n * n)) < sudoku_option(n, row, col, val)[3] <= 4 * (n * n * (n * n)),
{
    let s = n * n;
    let o = sudoku_option(n, row, col, val);
    lemma_box(n, row, col);
    let b = box_of(n, row, col);
    assert(0 <= (row - 1) * s <= (s - 1) * s) by (nonlinear_arith)
        requires
            1 <= row <= s,
    ;
    assert(0 <= s * (row - 1) <= s * (s - 1)) by (nonlinear_arith)
        requires
            1 <= row <= s,
    ;
    assert(0 <= s * (col - 1) <= s * (s - 1)) by (nonlinear_arith)
        requires
            1 <= col <= s,
    ;
    assert(0 <= s * b <= s * (s - 1)) by (nonlinear_arith)
        requires
            0 <= b < s,
    ;
    assert(s * (s - 1) == s * s - s && (s - 1) * s == s * s - s) by (nonlinear_arith);
    assert(2 * s * s == 2 * (s * s) && 3 * s * s == 3 * (s * s) && 4 * s * s == 4 * (s * s))
        by (nonlinear_arith);
    assert(o[0] == col + (row - 1) * s && o[1] == s * s + s * (row - 1) + val && o[2] == 2 * s * s
        + s * (col - 1) + val && o[3] == 3 * s * s + s * b + val);
    assert(s * s >= 1) by (nonlinear_arith)
        requires
            s >= 1,
    ;
}

/// The row of cell `a`, the cells counted from 0 row after row.
pub open spec fn cell_row(s: int, a: int) -> int {
    a / s + 1
}

/// The column of cell `a`.
pub open spec fn cell_col(s: int, a: int) -> int {
    a % s + 1
}

/// The cells `a` and `b` hold the same number and lie in the same row, the
/// same column or the same box.
pub open spec fn clash(n: int, grid: Seq<usize>, a: int, b: int) -> bool {
    let s = n * n;
    &&& grid[a] == grid[b]
    &&& (cell_row(s, a) == cell_row(s, b) || cell_col(s, a) == cell_col(s, b) || box_of(
        n,
        cell_row(s, a),
        cell_col(s, a),
    ) == box_of(n, cell_row(s, b), cell_col(s, b)))
}

/// The grid is one of order `n`: it has `n * n` rows of `n * n` cells, each
/// empty (0) or filled with a number from 1 to `n * n`, and no two filled
/// cells clash.
pub open spec fn grid_ok(n: int, grid: Seq<usize>) -> bool {
    let s = n * n;
    &&& 0 <= n
    &&& grid.len() == s * s
    &&& forall|a: int| 0 <= a < grid.len() ==> #[trigger] grid[a] <= s
    &&& forall|a: int, b: int|
        0 <= a < b < grid.len() && grid[a] != 0 && grid[b] != 0 ==> !#[trigger] clash(n, grid, a, b)
}

/// The items that the number in cell `a` covers.
pub open spec fn cell_option(n: int, grid: Seq<usize>, a: int) -> Seq<int> {
    let s = n * n;
    sudoku_option(n, cell_row(s, a), cell_col(s, a), grid[a] as int)
}

/// The items that the numbers in the first `upto` cells cover, cell after
/// cell.
pub open spec fn givens(n: int, grid: Seq<usize>, upto: int) -> Seq<int>
    decreases upto,
{
    if upto <= 0 {
        Seq::empty()
    } else if grid[upto - 1] != 0 {
        givens(n, grid, upto - 1) + cell_option(n, grid, upto - 1)
    } else {
        givens(n, grid, upto - 1)
    }
}

/// The grid with the numbers of the first `j` options of a solution filled
/// in.
pub open spec fn filled(s: int, grid: Seq<usize>, sol: Seq<int>, j: int) -> Seq<usize>
    decreases j,
{
    if j <= 0 {
        grid
    } else {
        filled(s, grid, sol, j - 1).update(
            (option_col(s, sol[j - 1]) - 1) + s * (option_row(s, sol[j - 1]) - 1),
            option_val(s, sol[j - 1]) as usize,
        )
    }
}

/// Every cell lies in a row and a column of the grid.
pub proof fn lemma_cell(s: int, a: int)
    requires
        1 <= s,
        0 <= a < s * s,
    ensures
        1 <= cell_row(s, a) <= s,
        1 <= cell_col(s, a) <= s,
        a == (cell_row(s, a) - 1) * s + (cell_col(s, a) - 1),
{
    lemma_fundamental_div_mod(a, s);
    lemma_mod_bound(a, s);
    let q = a / s;
    assert(0 <= q < s) by (nonlinear_arith)
        requires
            a == s * q + a % s,
            0 <= a % s < s,
            0 <= a < s * s,
            1 <= s,
    ;
    assert(s * q == q * s) by (nonlinear_arith);
}

/// A number together with a multiple of `s` below it tells both.
pub proof fn lemma_pair(s: int, x: int, v: int, y: int, w: int)
    requires
        1 <= v <= s,
        1 <= w <= s,
        s * x + v == s * y + w,
    ensures
        x == y,
        v == w,
{
    assert(x == y) by (nonlinear_arith)
        requires
            1 <= v <= s,
            1 <= w <= s,
            s * x + v == s * y + w,
    ;
    assert(s * x == s * y);
}

/// The numbers in two cells that do not clash cover different items.
pub proof fn lemma_cells_apart(n: int, grid: Seq<usize>, a: int, b: int, c: int)
    requires
        1 <= n,
        grid_ok(n, grid),
        0 <= a < grid.len(),
        0 <= b < grid.len(),
        a != b,
        grid[a] != 0,
        grid[b] != 0,
    ensures
        !(cell_option(n, grid, a).contains(c) && cell_option(n, grid, b).contains(c)),
{
    let s = n * n;
    let oa = cell_option(n, grid, a);
    let ob = cell_option(n, grid, b);
    assert(s >= 1) by (nonlinear_arith)
        requires
            s == n * n,
            n >= 1,
    ;
    lemma_cell(s, a);
    lemma_cell(s, b);
    let ra = cell_row(s, a);
    let ca = cell_col(s, a);
    let rb = cell_row(s, b);
    let cb = cell_col(s, b);
    lemma_sudoku_option(n, ra, ca, grid[a] as int);
    lemma_sudoku_option(n, rb, cb, grid[b] as int);
    lemma_box(n, ra, ca);
    lemma_box(n, rb, cb);
    if a < b {
        assert(!clash(n, grid, a, b));
    } else {
        assert(!clash(n, grid, b, a));
    }
    if oa.contains(c) && ob.contains(c) {
        let i = choose|i: int| 0 <= i < oa.len() && oa[i] == c;
        let j = choose|j: int| 0 <= j < ob.len() && ob[j] == c;
        assert(i == j);
        if i == 0 {
            assert(ca + (ra - 1) * s == cb + (rb - 1) * s);
            assert((ra - 1) * s == s * (ra - 1) && (rb - 1) * s == s * (rb - 1)) by (nonlinear_arith);
            lemma_pair(s, ra - 1, ca, rb - 1, cb);
        } else if i == 1 {
            lemma_pair(s, ra - 1, grid[a] as int, rb - 1, grid[b] as int);
        } else if i == 2 {
            lemma_pair(s, ca - 1, grid[a] as int, cb - 1, grid[b] as int);
        } else {
            lemma_pair(s, box_of(n, ra, ca), grid[a] as int, box_of(n, rb, cb), grid[b] as int);
        }
    }
}

/// The items that the numbers in the first cells cover are the items that
/// the number in one of these cells covers.
pub proof fn lemma_givens(n: int, grid: Seq<usize>, upto: int, c: int)
    requires
        0 <= upto <= grid.len(),
    ensures
        givens(n, grid, upto).contains(c) <==> exists|a: int|
            0 <= a < upto && grid[a] != 0 && #[trigger] cell_option(n, grid, a).contains(c),
    decreases upto,
{
    if upto > 0 {
        lemma_givens(n, grid, upto - 1, c);
        let g0 = givens(n, grid, upto - 1);
        let g = givens(n, grid, upto);
        let o = cell_option(n, grid, upto - 1);
        if grid[upto - 1] != 0 {
            if g.contains(c) {
                let i = choose|i: int| 0 <= i < g.len() && g[i] == c;
                if i < g0.len() {
                    assert(g0[i] == c);
                    assert(g0.contains(c));
                } else {
                    assert(o[i - g0.len()] == c);
                    assert(o.contains(c));
                }
            }
            if g0.contains(c) {
                let i = choose|i: int| 0 <= i < g0.len() && g0[i] == c;
                assert(g[i] == c);
            }
            if o.contains(c) {
                let i = choose|i: int| 0 <= i < o.len() && o[i] == c;
                assert(g[g0.len() + i] == c);
            }
        }
    }
}

/// A name tells which number in which cell it stands for.
pub proof fn lemma_name_tells(n: int, k: int, row: int, col: int, val: int)
    requires
        1 <= n * n,
        0 <= k < n * n * (n * n) * (n * n),
        1 <= row,
        1 <= col,
        1 <= val,
        sudoku_names(n)[k] == sudoku_name(row, col, val),
    ensures
        k == option_at(n * n, row, col, val),
{
    let s = n * n;
    assert(s * s * s == n * n * (n * n) * (n * n)) by (nonlinear_arith)
        requires
            s == n * n,
    ;
    lemma_option_of(s, k);
    lemma_scan_three('R', row as nat, 'C', col as nat, '#', val as nat);
    lemma_scan_three(
        'R',
        option_row(s, k) as nat,
        'C',
        option_col(s, k) as nat,
        '#',
        option_val(s, k) as nat,
    );
    let a = seq![row as nat, col as nat, val as nat];
    let b = seq![option_row(s, k) as nat, option_col(s, k) as nat, option_val(s, k) as nat];
    assert(a == b);
    assert(a[0] == b[0] && a[1] == b[1] && a[2] == b[2]);
}

/// The fourth power of a number.
pub open spec fn fourth(n: int) -> int {
    n * n * (n * n)
}

/// The order of a grid: the `n` with `n * n` rows of `n * n` cells.
pub open spec fn order_of(grid: Seq<usize>) -> int {
    choose|n: int| 0 <= n && grid.len() == #[trigger] fourth(n)
}

/// A larger number has a larger fourth power.
pub proof fn lemma_fourth_power(a: int, b: int)
    requires
        0 <= a < b,
    ensures
        a * a * (a * a) < b * b * (b * b),
        a * a * (a * a) >= a,
{
    assert(a * a < b * b) by (nonlinear_arith)
        requires
            0 <= a < b,
    ;
    assert(a * a * (a * a) < b * b * (b * b)) by (nonlinear_arith)
        requires
            0 <= a * a < b * b,
    ;
    assert(a * a * (a * a) >= a) by (nonlinear_arith)
        requires
            0 <= a,
    ;
}

/// The largest number whose fourth power is at most `len`.
pub fn fourth_root(len: usize) -> (n: usize)
    ensures
        n * n * (n * n) <= len,
        len < (n + 1) * (n + 1) * ((n + 1) * (n + 1)),
{
    let mut n: usize = 0;
    loop
        invariant
            n * n * (n * n) <= len,
        decreases len - n,
    {
        proof {
            lemma_fourth_power(n as int, n + 1);
        }
        if n == usize::MAX {
            return n;
        }
        let m = n + 1;
        match m.checked_mul(m) {
            Some(q) => match q.checked_mul(q) {
                Some(f) => {
                    if f <= len {
                        proof {
                            lemma_fourth_power(n as int, m as int);
                            lemma_fourth_power(m as int, m + 1);
                        }
                        n = m;
                    } else {
                        return n;
                    }
                },
                None => {
                    return n;
                },
            },
            None => {
                proof {
                    assert(m * m * (m * m) >= m * m) by (nonlinear_arith)
                        requires
                            m * m >= 1,
                    ;
                }
                return n;
            },
        }
    }
}

/// The largest number whose fourth power is at most `len`.
pub open spec fn floor_root(len: int) -> int {
    choose|n: int| 0 <= n && #[trigger] fourth(n) <= len < fourth(n + 1)
}

/// There is only one largest number whose fourth power is at most `len`.
pub proof fn lemma_floor_root(len: int, n: int)
    requires
        0 <= n,
        fourth(n) <= len < fourth(n + 1),
    ensures
        floor_root(len) == n,
{
    let r = floor_root(len);
    if r < n {
        if r + 1 < n {
            lemma_fourth_power(r + 1, n);
        }
    } else if n < r {
        if n + 1 < r {
            lemma_fourth_power(n + 1, r);
        }
    }
}

/// The text of a cell: its number, or a blank for an empty cell.
pub open spec fn cell_text(v: usize) -> Seq<char> {
    if v == 0 {
        seq![' ']
    } else {
        digits(v as nat)
    }
}

/// The text of the first `j` cells of row `i`, with a bar behind every box
/// but the last.
pub open spec fn cells_text(grid: Seq<usize>, n: int, i: int, j: int) -> Seq<char>
    decreases j,
{
    let s = n * n;
    if j <= 0 {
        Seq::empty()
    } else {
        cells_text(grid, n, i, j - 1) + cell_text(grid[i * s + (j - 1)]) + seq![' '] + if j % n == 0
            && j < s {
            seq!['║', ' ']
        } else {
            Seq::empty()
        }
    }
}

/// A line of `k` strokes.
pub open spec fn strokes(k: int) -> Seq<char> {
    Seq::new(k as nat, |i: int| '═')
}

/// The first `m + 1` boxes' worth of the line between two rows of boxes.
pub open spec fn rule_text(n: int, m: int) -> Seq<char>
    decreases m,
{
    if m <= 0 {
        strokes(2 * n + 1)
    } else {
        rule_text(n, m - 1) + seq!['╬'] + strokes(2 * n + 1)
    }
}

/// The text of row `i`: its cells, the line break behind it unless it is
/// the last row, and the line below it if it ends a row of boxes.
pub open spec fn row_text(grid: Seq<usize>, n: int, i: int) -> Seq<char> {
    let s = n * n;
    seq![' '] + cells_text(grid, n, i, s) + (if i < s - 1 {
        seq!['\n']
    } else {
        Seq::empty()
    }) + (if (i + 1) % n == 0 && i < s - 1 {
        rule_text(n, n - 1) + seq!['\n']
    } else {
        Seq::empty()
    })
}

/// The text of the first `i` rows.
pub open spec fn rows_text(grid: Seq<usize>, n: int, i: int) -> Seq<char>
    decreases i,
{
    if i <= 0 {
        Seq::empty()
    } else {
        rows_text(grid, n, i - 1) + row_text(grid, n, i - 1)
    }
}

/// The grid as a text, box by box.
pub open spec fn pretty_text(grid: Seq<usize>) -> Seq<char> {
    let n = floor_root(grid.len() as int);
    rows_text(grid, n, n * n)
}

/// Adds a line of `k` strokes to a text.
fn push_strokes(result: &mut String, k: usize)
    ensures
        final(result)@ == old(result)@ + strokes(k as int),
{
    proof {
        reveal_strlit("═");
        assert("═"@ =~= seq!['═']);
        assert(result@ + strokes(0) =~= result@);
    }
    let mut i: usize = 0;
    while i < k
        invariant
            i <= k,
            result@ == old(result)@ + strokes(i as int),
            "═"@ == seq!['═'],
        decreases k - i,
    {
        result.append("═");
        i += 1;
        proof {
            assert(result@ =~= old(result)@ + strokes(i as int));
        }
    }
}

/// Sudoku.
pub struct Sudoku {
    pub solver: Solver,
    input: Vec<usize>,
    n: usize,
}

impl Sudoku {
    /// The order of the grid: its boxes have `order()` rows and columns.
    pub closed spec fn order(&self) -> int {
        self.n as int
    }

    /// The solver that holds the problem.
    pub closed spec fn engine(&self) -> Solver {
        self.solver
    }

    /// The numbers given, cell after cell; 0 where none is given.
    pub closed spec fn given(&self) -> Seq<usize> {
        self.input@
    }

    /// The solver holds the Sudoku problem of the order of the grid.
    pub closed spec fn wf(&self) -> bool {
        let s = self.n * self.n;
        &&& self.solver.wf()
        &&& self.solver.problem() == sudoku_problem(self.n as int)
        &&& self.solver.names() == sudoku_names(self.n as int)
        &&& s * s * s <= usize::MAX
        &&& (self.input@.len() == 0 || self.input@.len() == s * s)
    }

    /// The solutions still to come, each as the sequence of its options.
    pub closed spec fn pending(&self) -> Seq<Seq<int>> {
        self.solver.pending()
    }

    /// What being in order means: the solver is in order and holds the
    /// Sudoku problem of the order of the grid, under the names of the
    /// numbers in the cells; and the numbers given, if any, fill a grid.
    pub proof fn lemma_wf(&self)
        requires
            self.wf(),
        ensures
            self.engine().wf(),
            self.engine().problem() == sudoku_problem(self.order()),
            self.engine().names() == sudoku_names(self.order()),
            self.pending() == self.engine().pending(),
            self.given().len() == 0 || self.given().len() == fourth(self.order()),
    {
    }

    /// Initialises the constraints for an n*n sudoku-grid (regular is n=3, as the grid is 9x9)
    pub fn new(n: usize) -> (r: Sudoku)
        requires
            5 * (n * n * (n * n) * (n * n)) + 4 * (n * n * (n * n)) + 2 <= usize::MAX,
        ensures
            r.wf(),
            r.order() == n,
            r.given().len() == 0,
            r.engine().fresh(),
            r.engine().covered() == Seq::<int>::empty(),
            r.pending() == solutions(sudoku_problem(n as int), Seq::empty()),
    {
        let ghost nn = n as int;
        let ghost s = nn * nn;
        proof {
            assert(s >= 0) by (nonlinear_arith)
                requires
                    s == nn * nn,
            ;
            assert(s * s >= s && s * s * s >= s * s && s * s >= 0) by (nonlinear_arith)
                requires
                    s >= 0,
            ;
            assert(n * n * (n * n) * (n * n) == s * s * s) by (nonlinear_arith)
                requires
                    s == n * n,
            ;
            assert(4 * s * s == 4 * (s * s)) by (nonlinear_arith);
        }
        #[allow(non_snake_case)]
        let N = n * n;  // Sudoku edge length
        let mut solver = Solver::new(4 * N * N);
        let ghost goal = sudoku_problem(nn);
        proof {
            solver.lemma_fresh();
            reveal_strlit("R");
            reveal_strlit("C");
            reveal_strlit("#");
            assert("R"@ =~= seq!['R']);
            assert("C"@ =~= seq!['C']);
            assert("#"@ =~= seq!['#']);
            assert(goal.options.take(0) =~= Seq::<Seq<int>>::empty());
            assert(sudoku_names(nn).take(0) =~= Seq::<Seq<char>>::empty());
            assert(option_at(s, 1, 1, 1) == 0) by (nonlinear_arith);
        }

        // Add all of the options
        let mut row: usize = 1;
        while row <= N
            invariant
                1 <= row <= N + 1,
                nn == n,
                s == nn * nn,
                N == s,
                s * s >= s,
                s * s * s >= s * s,
                5 * (s * s * s) + 4 * (s * s) + 2 <= usize::MAX,
                goal == sudoku_problem(nn),
                solver.fresh(),
                solver.covered().len() == 0,
                solver.problem().primary == goal.primary,
                solver.problem().items == goal.items,
                0 <= option_at(s, row as int, 1, 1) <= s * s * s,
                solver.problem().options == goal.options.take(option_at(s, row as int, 1, 1)),
                solver.names() == sudoku_names(nn).take(option_at(s, row as int, 1, 1)),
                solver.problem().size() == goal.items + 2 + 5 * option_at(s, row as int, 1, 1),
                "R"@ == seq!['R'],
                "C"@ == seq!['C'],
                "#"@ == seq!['#'],
            decreases N + 1 - row,
        {
            let mut col: usize = 1;
            while col <= N
                invariant
                    1 <= row <= N,
                    1 <= col <= N + 1,
                    nn == n,
                    s == nn * nn,
                    N == s,
                    s * s >= s,
                    s * s * s >= s * s,
                    5 * (s * s * s) + 4 * (s * s) + 2 <= usize::MAX,
                    goal == sudoku_problem(nn),
                    solver.fresh(),
                    solver.covered().len() == 0,
                    solver.problem().primary == goal.primary,
                    solver.problem().items == goal.items,
                    0 <= option_at(s, row as int, col as int, 1) <= s * s * s,
                    solver.problem().options == goal.options.take(
                        option_at(s, row as int, col as int, 1),
                    ),
                    solver.names() == sudoku_names(nn).take(option_at(s, row as int, col as int, 1)),
                    solver.problem().size() == goal.items + 2 + 5 * option_at(
                        s,
                        row as int,
                        col as int,
                        1,
                    ),
                    "R"@ == seq!['R'],
                    "C"@ == seq!['C'],
                    "#"@ == seq!['#'],
                decreases N + 1 - col,
            {
                let mut val: usize = 1;
                while val <= N
                    invariant
                        1 <= row <= N,
                        1 <= col <= N,
                        1 <= val <= N + 1,
                        nn == n,
                        s == nn * nn,
                        N == s,
                        s * s >= s,
                        s * s * s >= s * s,
                        5 * (s * s * s) + 4 * (s * s) + 2 <= usize::MAX,
                        goal == sudoku_problem(nn),
                        solver.fresh(),
                        solver.covered().len() == 0,
                        solver.problem().primary == goal.primary,
                        solver.problem().items == goal.items,
                        0 <= option_at(s, row as int, col as int, val as int) <= s * s * s,
                        solver.problem().options == goal.options.take(
                            option_at(s, row as int, col as int, val as int),
                        ),
                        solver.names() == sudoku_names(nn).take(
                            option_at(s, row as int, col as int, val as int),
                        ),
                        solver.problem().size() == goal.items + 2 + 5 * option_at(
                            s,
                            row as int,
                            col as int,
                            val as int,
                        ),
                        "R"@ == seq!['R'],
                        "C"@ == seq!['C'],
                        "#"@ == seq!['#'],
                    decreases N + 1 - val,
                {
                    let ghost k = option_at(s, row as int, col as int, val as int);
                    let ghost before = solver.problem();
                    let ghost o = sudoku_option(nn, row as int, col as int, val as int);
                    proof {
                        assert(nn >= 1) by (nonlinear_arith)
                            requires
                                nn * nn >= 1,
                                nn >= 0,
                        ;
                        lemma_option_at(s, row as int, col as int, val as int);
                        lemma_sudoku_option(nn, row as int, col as int, val as int);
                        lemma_box(nn, row as int, col as int);
                        assert(2 * s * s == 2 * (s * s) && 3 * s * s == 3 * (s * s) && 4 * s * s == 4
                            * (s * s)) by (nonlinear_arith);
                        assert(goal.items == 4 * (s * s));
                        assert(0 <= (row - 1) * s <= (s - 1) * s) by (nonlinear_arith)
                            requires
                                1 <= row <= s,
                        ;
                        assert(0 <= s * (row - 1) <= s * (s - 1)) by (nonlinear_arith)
                            requires
                                1 <= row <= s,
                        ;
                        assert(0 <= s * (col - 1) <= s * (s - 1)) by (nonlinear_arith)
                            requires
                                1 <= col <= s,
                        ;
                        assert(0 <= s * box_of(nn, row as int, col as int) <= s * (s - 1))
                            by (nonlinear_arith)
                            requires
                                0 <= box_of(nn, row as int, col as int) < s,
                        ;
                        assert(s * (s - 1) == s * s - s && (s - 1) * s == s * s - s) by (nonlinear_arith);
                        assert(0 <= nn * ((row - 1) / nn) <= s) by {
                            lemma_fundamental_div_mod(row - 1, nn);
                            lemma_mod_bound(row - 1, nn);
                        }
                        assert(0 <= (col - 1) / nn <= s) by {
                            lemma_fundamental_div_mod(col - 1, nn);
                            lemma_mod_bound(col - 1, nn);
                            lemma_div_pos_is_pos(col - 1, nn);
                            assert((col - 1) / nn <= col - 1) by (nonlinear_arith)
                                requires
                                    col - 1 == nn * ((col - 1) / nn) + (col - 1) % nn,
                                    0 <= (col - 1) % nn,
                                    nn >= 1,
                                    (col - 1) / nn >= 0,
                            ;
                        }
                        assert((row - 1) / nn >= 0) by {
                            lemma_div_pos_is_pos(row - 1, nn);
                        }
                    }
                    let mut constraint_name = String::new();
                    push_tag(&mut constraint_name, "R", Ghost('R'), row);
                    push_tag(&mut constraint_name, "C", Ghost('C'), col);
                    push_tag(&mut constraint_name, "#", Ghost('#'), val);
                    // Now add option
                    // Runs 1->N*(N-1)+N = N*N
                    let cell_con = col + (row - 1) * N;
                    // Runs N*N+1 -> N*N + N*(N-1) + N = 2*N*N
                    let row_con = N * N + N * (row - 1) + val;
                    // Runs 2*N*N+1 -> 2*N*N + N*(N-1) + N = 3*N*N
                    let col_con = 2 * N * N + N * (col - 1) + val;
                    let sub = (col - 1) / n + n * ((row - 1) / n);
                    // Runs 3*N*N+1 -> 3*N*N + N*(N-1) + N = 4*N*N
                    let sub_con = 3 * N * N + N * (sub) + val;
                    let items = [cell_con, row_con, col_con, sub_con];
                    proof {
                        assert(ids(items@) =~= o);
                        assert(before.option_ok(o)) by {
                            assert(goal.option_ok(o));
                        }
                    }
                    solver.add_option(constraint_name.as_str(), &items);
                    proof {
                        assert(goal.options[k] == o);
                        assert(solver.problem().options =~= goal.options.take(k + 1));
                        assert(sudoku_names(nn)[k] == sudoku_name(row as int, col as int, val as int));
                        assert(constraint_name@ =~= sudoku_name(row as int, col as int, val as int));
                        assert(solver.names() =~= sudoku_names(nn).take(k + 1));
                        let last = before.options.len() as int;
                        before.lemma_spacer_with_option(o, last);
                        assert(solver.problem().spacer(last + 1) == solver.problem().spacer(last)
                            + o.len() + 1);
                        assert(option_at(s, row as int, col as int, val + 1) == k + 1);
                    }
                    val += 1;
                }
                proof {
                    assert(option_at(s, row as int, col as int, s + 1) == option_at(
                        s,
                        row as int,
                        col + 1,
                        1,
                    )) by (nonlinear_arith);
                }
                col += 1;
            }
            proof {
                assert(option_at(s, row as int, s + 1, 1) == option_at(s, row + 1, 1, 1))
                    by (nonlinear_arith);
            }
            row += 1;
        }
        proof {
            assert(option_at(s, s + 1, 1, 1) == s * s * s) by (nonlinear_arith);
            assert(goal.options.take(s * s * s) =~= goal.options);
            assert(sudoku_names(nn).take(s * s * s) =~= sudoku_names(nn));
            assert(solver.problem() == goal);
            solver.lemma_fresh();
            assert(solver.covered() =~= Seq::<int>::empty());
        }
        Sudoku { solver, n, input: Vec::new() }
    }

    /// Initialises an appropriately sized Sudoku with all of the correct
    /// constraints, and then selects all of the options corresponding to the
    /// non-zero entries in `input`
    pub fn new_from_input(input: &[usize]) -> (r: Self)
        requires
            grid_ok(order_of(input@), input@),
            5 * (input@.len() * (order_of(input@) * order_of(input@))) + 4 * input@.len() + 2
                <= usize::MAX,
        ensures
            r.wf(),
            r.order() == order_of(input@),
            r.given() == input@,
            r.engine().fresh(),
            r.engine().covered() == givens(order_of(input@), input@, input@.len() as int),
            r.pending() == solutions(
                sudoku_problem(order_of(input@)),
                givens(order_of(input@), input@, input@.len() as int),
            ),
    {
        let inputv = slice_to_vec(input);
        let nsq: usize = inputv.len();
        let n: usize = fourth_root(nsq);
        let ghost grid = input@;
        let ghost w = order_of(grid);
        let ghost nn = n as int;
        let ghost s = nn * nn;
        proof {
            assert(grid.len() == fourth(w));
            if nn < w {
                if nn + 1 < w {
                    lemma_fourth_power(nn + 1, w);
                }
                assert(false);
            }
            if w < nn {
                lemma_fourth_power(w, nn);
                assert(false);
            }
            assert(w * w * (w * w) * (w * w) == grid.len() * (w * w)) by (nonlinear_arith)
                requires
                    grid.len() == w * w * (w * w),
            ;
            assert(s >= 0) by (nonlinear_arith)
                requires
                    s == nn * nn,
            ;
            assert(s * s * s >= 0) by (nonlinear_arith)
                requires
                    s >= 0,
            ;
        }
        let mut r = Self::new(n);
        r.input = inputv;
        proof {
            reveal_strlit("R");
            reveal_strlit("C");
            reveal_strlit("#");
            assert("R"@ =~= seq!['R']);
            assert("C"@ =~= seq!['C']);
            assert("#"@ =~= seq!['#']);
        }

        let mut i: usize = 0;
        while i < input.len()
            invariant
                i <= input@.len(),
                grid == input@,
                nn == n,
                s == nn * nn,
                s >= 0,
                grid_ok(nn, grid),
                r.n == n,
                r.input@ == grid,
                s * s * s <= usize::MAX,
                r.solver.fresh(),
                r.solver.problem() == sudoku_problem(nn),
                r.solver.names() == sudoku_names(nn),
                r.solver.covered() == givens(nn, grid, i as int),
                "R"@ == seq!['R'],
                "C"@ == seq!['C'],
                "#"@ == seq!['#'],
            decreases input@.len() - i,
        {
            let item = input[i];
            if item != 0 {
                let ghost a = i as int;
                let ghost val = item as int;
                proof {
                    assert(grid[a] <= s);
                    assert(nn >= 1 && s >= 1) by (nonlinear_arith)
                        requires
                            s == nn * nn,
                            nn >= 0,
                            s >= 1,
                    ;
                    lemma_cell(s, a);
                    lemma_fundamental_div_mod(a, s);
                    assert(s * (a / s) == a - a % s);
                    assert(s <= s * s * s) by (nonlinear_arith)
                        requires
                            s >= 1,
                    ;
                }
                let row = i / (n * n);
                let col = i - n * n * row;
                let ghost rr = cell_row(s, a);
                let ghost cc = cell_col(s, a);
                proof {
                    assert(row + 1 == rr);
                    assert(col + 1 == cc);
                }
                let mut opt_string = String::new();
                push_tag(&mut opt_string, "R", Ghost('R'), row + 1);
                push_tag(&mut opt_string, "C", Ghost('C'), col + 1);
                push_tag(&mut opt_string, "#", Ghost('#'), item);
                let ghost pr = sudoku_problem(nn);
                let ghost k = option_at(s, rr, cc, val);
                proof {
                    r.solver.lemma_fresh();
                    lemma_option_at(s, rr, cc, val);
                    assert(opt_string@ =~= sudoku_name(rr, cc, val));
                    assert(sudoku_names(nn)[k] == sudoku_name(rr, cc, val));
                    assert(r.solver.names().contains(opt_string@));
                    assert(pr.options[k] == cell_option(nn, grid, a));
                    assert(s * s * s == nn * nn * (nn * nn) * (nn * nn)) by (nonlinear_arith)
                        requires
                            s == nn * nn,
                    ;
                    assert forall|k2: int| is_first(r.solver.names(), opt_string@, k2) implies k2
                        == k && disjoint(pr.options[k2], r.solver.covered()) by {
                        lemma_name_tells(nn, k2, rr, cc, val);
                        assert forall|c: int| pr.options[k].contains(c) implies !givens(
                            nn,
                            grid,
                            a,
                        ).contains(c) by {
                            lemma_givens(nn, grid, a, c);
                            if givens(nn, grid, a).contains(c) {
                                let b = choose|b: int|
                                    0 <= b < a && grid[b] != 0 && #[trigger] cell_option(
                                        nn,
                                        grid,
                                        b,
                                    ).contains(c);
                                lemma_cells_apart(nn, grid, a, b, c);
                            }
                        }
                    }
                }
                r.solver.select(opt_string.as_str()).unwrap();
                proof {
                    let k2 = choose|k2: int|
                        is_first(sudoku_names(nn), opt_string@, k2) && r.solver.covered() == givens(
                            nn,
                            grid,
                            a,
                        ) + pr.options[k2];
                    assert(k2 == k);
                }
            }
            i += 1;
        }
        proof {
            r.solver.lemma_fresh();
        }
        r
    }

    /// If a remaining solution exists, returns `Some(v)` where `v` is a
    /// `Vec<usize>` containing the flat solved Sudoku grid. Otherwise
    /// returns `None`
    pub fn next(&mut self) -> (r: Option<Vec<usize>>)
        requires
            old(self).wf(),
            old(self).given().len() == (old(self).order() * old(self).order()) * (old(self).order()
                * old(self).order()),
        ensures
            final(self).wf(),
            final(self).order() == old(self).order(),
            final(self).given() == old(self).given(),
            match r {
                Some(v) => old(self).pending().len() > 0 && v@ == filled(
                    old(self).order() * old(self).order(),
                    old(self).given(),
                    old(self).pending()[0],
                    old(self).pending()[0].len() as int,
                ) && final(self).pending() == old(self).pending().drop_first(),
                None => old(self).pending().len() == 0 && final(self).pending().len() == 0,
            },
    {
        let ghost nn = self.n as int;
        let ghost s = nn * nn;
        let ghost grid = self.input@;
        if let Some(sol) = self.solver.next() {
            let ghost opts = old(self).solver.pending()[0];
            proof {
                let named = old(self).solver.named(opts);
                assert(texts(sol@).len() == sol@.len());
                assert(named.len() == opts.len());
                assert forall|a: int| 0 <= a < opts.len() implies (#[trigger] sol@[a])@
                    == sudoku_names(nn)[opts[a]] by {
                    assert(texts(sol@)[a] == sol@[a]@);
                    assert(named[a] == old(self).solver.names()[opts[a]]);
                }
                assert(s >= 0) by (nonlinear_arith)
                    requires
                        s == nn * nn,
                ;
                assert(s * s * s >= 0 && s * s >= 0) by (nonlinear_arith)
                    requires
                        s >= 0,
                ;
            }
            let mut sudoku_solved = self.input.clone();
            proof {
                assert(sudoku_solved@ =~= grid);
            }
            let mut j: usize = 0;
            while j < sol.len()
                invariant
                    j <= sol@.len(),
                    nn == self.n,
                    s == nn * nn,
                    s >= 0,
                    s * s * s <= usize::MAX,
                    grid.len() == s * s,
                    sol@.len() == opts.len(),
                    in_range(opts, (s * s * s) as nat),
                    forall|a: int|
                        0 <= a < opts.len() ==> (#[trigger] sol@[a])@ == sudoku_names(nn)[opts[a]],
                    sudoku_solved@ == filled(s, grid, opts, j as int),
                    sudoku_solved@.len() == s * s,
                decreases sol@.len() - j,
            {
                let ghost k = opts[j as int];
                let ghost row = option_row(s, k);
                let ghost col = option_col(s, k);
                let ghost val = option_val(s, k);
                proof {
                    assert(s >= 1) by (nonlinear_arith)
                        requires
                            0 <= k < s * s * s,
                            s >= 0,
                    ;
                    lemma_option_of(s, k);
                    lemma_scan_three('R', row as nat, 'C', col as nat, '#', val as nat);
                    assert(s * (row - 1) <= s * (s - 1)) by (nonlinear_arith)
                        requires
                            1 <= row <= s,
                    ;
                    assert(s * (s - 1) == s * s - s) by (nonlinear_arith);
                    assert(s * s <= s * s * s) by (nonlinear_arith)
                        requires
                            s >= 1,
                    ;
                }
                let i = sol[j].as_str();
                let (r, c, v) = match numbers(i) {
                    Some(t) => {
                        proof {
                            assert(nats(t@).len() == 3);
                            assert(t@.len() == 3);
                            assert(nats(t@)[0] == t@[0] as nat);
                            assert(nats(t@)[1] == t@[1] as nat);
                            assert(nats(t@)[2] == t@[2] as nat);
                        }
                        (t[0], t[1], t[2])
                    },
                    None => {
                        proof {
                            assert(false);
                        }
                        (1, 1, 0)
                    },
                };
                sudoku_solved[(c - 1) + self.n * self.n * (r - 1)] = v;
                j += 1;
            }
            Some(sudoku_solved)
        } else {
            None
        }
    }

    /// Runs the search to its end and returns the number of solutions that
    /// were still to come.
    pub fn count(self) -> (n: usize)
        requires
            self.wf(),
            self.given().len() == (self.order() * self.order()) * (self.order() * self.order()),
            self.pending().len() <= usize::MAX,
        ensures
            n == self.pending().len(),
    {
        let mut it = self;
        let ghost all = it.pending().len();
        let mut n: usize = 0;
        loop
            invariant
                it.wf(),
                it.given().len() == (it.order() * it.order()) * (it.order() * it.order()),
                all <= usize::MAX,
                n + it.pending().len() == all,
            ensures
                n == all,
            decreases it.pending().len(),
        {
            match it.next() {
                Some(_) => {
                    n += 1;
                },
                None => {
                    break ;
                },
            }
        }
        n
    }

    /// Takes an input sudoku array and produces a pretty printed version
    pub fn pretty(sudoku_solved: &[usize]) -> (result: String)
        ensures
            result@ == pretty_text(sudoku_solved@),
    {
        let ghost grid = sudoku_solved@;
        let mut result = String::new();
        let n = fourth_root(sudoku_solved.len());
        let ghost nn = n as int;
        let ghost s = nn * nn;
        proof {
            lemma_floor_root(grid.len() as int, nn);
            assert(s >= 0 && (s >= 1 ==> nn >= 1)) by (nonlinear_arith)
                requires
                    s == nn * nn,
                    nn >= 0,
            ;
            assert(s <= s * s) by (nonlinear_arith)
                requires
                    s >= 0,
            ;
            assert(fourth(nn) == s * s);
            assert(2 * nn + 1 <= usize::MAX) by (nonlinear_arith)
                requires
                    nn * nn * (nn * nn) <= usize::MAX,
                    nn >= 0,
                    usize::MAX >= 3,
            ;
            reveal_strlit(" ");
            reveal_strlit("║ ");
            reveal_strlit("╬");
            reveal_strlit("\n");
            assert(" "@ =~= seq![' ']);
            assert("║ "@ =~= seq!['║', ' ']);
            assert("╬"@ =~= seq!['╬']);
            assert("\n"@ =~= seq!['\n']);
        }
        #[allow(non_snake_case)]
        let N = n * n;
        // Print the array in a pretty way
        let mut i: usize = 0;
        while i < N
            invariant
                i <= N,
                grid == sudoku_solved@,
                nn == n,
                s == nn * nn,
                N == s,
                s * s <= grid.len(),
                s <= s * s,
                s >= 1 ==> nn >= 1,
                2 * nn + 1 <= usize::MAX,
                result@ == rows_text(grid, nn, i as int),
                " "@ == seq![' '],
                "║ "@ == seq!['║', ' '],
                "╬"@ == seq!['╬'],
                "\n"@ == seq!['\n'],
            decreases N - i,
        {
            let ghost start = result@;
            result.append(" ");
            let mut j: usize = 0;
            proof {
                assert(result@ =~= start + seq![' '] + cells_text(grid, nn, i as int, 0));
                assert(i * s + s <= s * s) by (nonlinear_arith)
                    requires
                        0 <= i < s,
                ;
            }
            while j < N
                invariant
                    i < N,
                    j <= N,
                    grid == sudoku_solved@,
                    nn == n,
                    s == nn * nn,
                    N == s,
                    nn >= 1,
                    s * s <= grid.len(),
                    i * s + s <= s * s,
                    result@ == start + seq![' '] + cells_text(grid, nn, i as int, j as int),
                    " "@ == seq![' '],
                    "║ "@ == seq!['║', ' '],
                decreases N - j,
            {
                let ghost before = result@;
                proof {
                    assert(0 <= i * N && i * N + j < s * s) by (nonlinear_arith)
                        requires
                            i * s + s <= s * s,
                            0 <= j < s,
                            0 <= i,
                            N == s,
                    ;
                    assert(grid.len() == sudoku_solved.len());
                }
                let v = sudoku_solved[i * N + j];
                if v == 0 {
                    result.append(" ");
                } else {
                    let d = decimal(v);
                    result.append(d.as_str());
                }
                result.append(" ");
                if (j + 1) % n == 0 && j < N - 1 {
                    result.append("║ ");
                }
                j += 1;
                proof {
                    assert(result@ =~= start + seq![' '] + cells_text(grid, nn, i as int, j as int));
                }
            }
            if i < N - 1 {
                result.append("\n");
            }
            if (i + 1) % n == 0 && i < N - 1 {
                push_strokes(&mut result, 2 * n + 1);
                let ghost mid = result@;
                let mut m: usize = 1;
                proof {
                    assert(result@ =~= start + seq![' '] + cells_text(grid, nn, i as int, s) + seq![
                        '\n',
                    ] + rule_text(nn, 0));
                }
                while m < n
                    invariant
                        1 <= m <= n,
                        nn == n,
                        2 * nn + 1 <= usize::MAX,
                        result@ == start + seq![' '] + cells_text(grid, nn, i as int, s) + seq![
                            '\n',
                        ] + rule_text(nn, m - 1),
                        "╬"@ == seq!['╬'],
                    decreases n - m,
                {
                    result.append("╬");
                    push_strokes(&mut result, 2 * n + 1);
                    proof {
                        assert(result@ =~= start + seq![' '] + cells_text(grid, nn, i as int, s)
                            + seq!['\n'] + rule_text(nn, m as int));
                    }
                    m += 1;
                }
                result.append("\n");
            }
            proof {
                assert(result@ =~= start + row_text(grid, nn, i as int));
            }
            i += 1;
        }
        result
    }

    /// The numbers are a grid that `new_from_input` takes: as many as a
    /// grid has cells, none of them too large for the grid, no two of them
    /// clashing, and with room in memory for the problem.
    pub open spec fn takes(grid: Seq<usize>) -> bool {
        &&& grid_ok(order_of(grid), grid)
        &&& 5 * (grid.len() * (order_of(grid) * order_of(grid))) + 4 * grid.len() + 2 <= usize::MAX
    }

    /// Tells whether the numbers are a grid that `new_from_input` takes.
    pub fn is_grid(input: &[usize]) -> (r: bool)
        ensures
            r == Self::takes(input@),
    {
        let ghost grid = input@;
        let ghost w = order_of(grid);
        let len = input.len();
        let n = fourth_root(len);
        let ghost nn = n as int;
        let ghost s = nn * nn;
        proof {
            assert(s >= 0 && s <= s * s) by (nonlinear_arith)
                requires
                    s == nn * nn,
            ;
            assert(fourth(nn) == s * s);
            if 0 <= w && grid.len() == fourth(w) {
                if nn < w {
                    if nn + 1 < w {
                        lemma_fourth_power(nn + 1, w);
                    }
                    assert(false);
                }
                if w < nn {
                    lemma_fourth_power(w, nn);
                    assert(false);
                }
            }
        }
        let side = n * n;
        if side * side != len {
            proof {
                if grid_ok(w, grid) {
                    assert(grid.len() == fourth(w));
                }
            }
            return false;
        }
        proof {
            assert(grid.len() == fourth(nn));
            assert(w == nn);
        }
        let room = match len.checked_mul(side) {
            Some(a) => match a.checked_mul(5) {
                Some(b) => match len.checked_mul(4) {
                    Some(c) => match b.checked_add(c) {
                        Some(d) => d.checked_add(2).is_some(),
                        None => false,
                    },
                    None => false,
                },
                None => false,
            },
            None => false,
        };
        if !room {
            return false;
        }
        let mut a: usize = 0;
        while a < len
            invariant
                a <= len,
                len == grid.len(),
                grid == input@,
                side == s,
                s == nn * nn,
                w == nn,
                w == order_of(grid),
                forall|i: int| 0 <= i < a ==> #[trigger] grid[i] <= s,
            decreases len - a,
        {
            if input[a] > side {
                return false;
            }
            a += 1;
        }
        if len == 0 {
            return true;
        }
        proof {
            assert(s >= 1 && nn >= 1) by (nonlinear_arith)
                requires
                    s * s >= 1,
                    s == nn * nn,
                    nn >= 0,
            ;
        }
        let mut a: usize = 0;
        while a < len
            invariant
                a <= len,
                len == grid.len(),
                grid == input@,
                nn == n,
                nn >= 1,
                s == nn * nn,
                s >= 1,
                side == s,
                len == s * s,
                w == nn,
                w == order_of(grid),
                5 * (grid.len() * (w * w)) + 4 * grid.len() + 2 <= usize::MAX,
                forall|i: int| 0 <= i < len ==> #[trigger] grid[i] <= s,
                forall|i: int, j: int|
                    0 <= i < a && i < j < len && grid[i] != 0 && grid[j] != 0 ==> !#[trigger] clash(
                        nn,
                        grid,
                        i,
                        j,
                    ),
            decreases len - a,
        {
            if input[a] != 0 {
                proof {
                    lemma_cell(s, a as int);
                    lemma_box(nn, cell_row(s, a as int), cell_col(s, a as int));
                }
                let row_a = a / side;
                let col_a = a % side;
                let box_a = col_a / n + n * (row_a / n);
                let mut b: usize = a + 1;
                while b < len
                    invariant
                        a < b <= len,
                        len == grid.len(),
                        grid == input@,
                        nn == n,
                        nn >= 1,
                        s == nn * nn,
                        s >= 1,
                        side == s,
                        len == s * s,
                        w == nn,
                        w == order_of(grid),
                        grid[a as int] != 0,
                        row_a + 1 == cell_row(s, a as int),
                        col_a + 1 == cell_col(s, a as int),
                        box_a == box_of(nn, cell_row(s, a as int), cell_col(s, a as int)),
                        forall|j: int|
                            a < j < b && grid[j] != 0 ==> !#[trigger] clash(nn, grid, a as int, j),
                    decreases len - b,
                {
                    if input[b] == input[a] {
                        proof {
                            lemma_cell(s, b as int);
                            lemma_box(nn, cell_row(s, b as int), cell_col(s, b as int));
                        }
                        let row_b = b / side;
                        let col_b = b % side;
                        let box_b = col_b / n + n * (row_b / n);
                        if row_b == row_a || col_b == col_a || box_b == box_a {
                            proof {
                                assert(clash(nn, grid, a as int, b as int));
                            }
                            return false;
                        }
                    }
                    b += 1;
                }
            }
            a += 1;
        }
        true
    }
}

} // verus!
