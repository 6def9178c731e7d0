//! The steps that covering a sequence of items takes, and which option
//! elements they leave spliced out.

use vstd::prelude::*;
use crate::layout::{element_ok, rows_ok, spacer_ok};
use crate::link::Link;
use crate::mesh::{gap, owners};
use crate::problem::Problem;
use crate::trail::{hidden, lemma_hidden_add, Step, unlinked};

verus! {

/// Where the item `c` stands in the option `o`.
pub open spec fn pos(o: Seq<int>, c: int) -> int {
    choose|j: int| 0 <= j < o.len() && o[j] == c
}

/// The place in option `k` that comes `i + 1` places behind `j`, going round.
pub open spec fn turn(p: Problem, k: int, j: int, i: int) -> int {
    let len = p.options[k].len() as int;
    if j + 1 + i < len {
        j + 1 + i
    } else {
        j + 1 + i - len
    }
}

/// The steps that splice out the other elements of option `k`, from the
/// one behind its `j`-th onwards and round to the one before it.
pub open spec fn row_steps(p: Problem, k: int, j: int) -> Seq<Step> {
    Seq::new((p.options[k].len() - 1) as nat, |i: int| Step::Hide(p.node(k, turn(p, k, j, i))))
}

/// Covering `c` strikes option `k`: the option holds `c`, and its element
/// for `c` is still linked.
pub open spec fn fires(p: Problem, hid: Set<int>, c: int, k: int) -> bool {
    p.options[k].contains(c) && !hid.contains(p.node(k, pos(p.options[k], c)))
}

/// The steps that covering `c` takes in the options before `k`.
pub open spec fn col_steps(p: Problem, hid: Set<int>, c: int, k: int) -> Seq<Step>
    decreases k,
{
    if k <= 0 {
        Seq::empty()
    } else {
        col_steps(p, hid, c, k - 1) + if fires(p, hid, c, k - 1) {
            row_steps(p, k - 1, pos(p.options[k - 1], c))
        } else {
            Seq::empty()
        }
    }
}

/// The steps that covering `c` takes, when `hid` is spliced out already.
pub open spec fn cover_steps(p: Problem, hid: Set<int>, c: int) -> Seq<Step> {
    col_steps(p, hid, c, p.options.len() as int).push(Step::Unlink(c))
}

/// The steps that covering the items of `cs`, one after the other, takes.
pub open spec fn course(p: Problem, cs: Seq<int>) -> Seq<Step>
    decreases cs.len(),
{
    if cs.len() == 0 {
        Seq::empty()
    } else {
        let t = course(p, cs.drop_last());
        t + cover_steps(p, hidden(t), cs.last())
    }
}

/// The first item of `cs` that the option `o` holds, or 0 if it holds none.
pub open spec fn killer(o: Seq<int>, cs: Seq<int>) -> int
    decreases cs.len(),
{
    if cs.len() == 0 {
        0
    } else {
        let r = killer(o, cs.drop_last());
        if r != 0 {
            r
        } else if o.contains(cs.last()) {
            cs.last()
        } else {
            0
        }
    }
}

/// The covered items are items of the problem, none of them twice.
pub open spec fn stack_ok(p: Problem, cs: Seq<int>) -> bool {
    &&& cs.no_duplicates()
    &&& forall|i: int| 0 <= i < cs.len() ==> 1 <= #[trigger] cs[i] <= p.items
}

/// The place of an item in an option that holds it.
pub proof fn lemma_pos(o: Seq<int>, j: int)
    requires
        o.no_duplicates(),
        0 <= j < o.len(),
    ensures
        pos(o, o[j]) == j,
        o.contains(o[j]),
{
}

/// The place of an item that the option holds is a place of the option.
pub proof fn lemma_pos_in(o: Seq<int>, c: int)
    requires
        o.contains(c),
    ensures
        0 <= pos(o, c) < o.len(),
        o[pos(o, c)] == c,
{
}

/// Going round an option from `j` meets every other place once.
pub proof fn lemma_turn(p: Problem, k: int, j: int, j2: int) -> (i: int)
    requires
        0 <= k < p.options.len(),
        0 <= j < p.options[k].len(),
        0 <= j2 < p.options[k].len(),
        j2 != j,
    ensures
        0 <= i < p.options[k].len() - 1,
        turn(p, k, j, i) == j2,
{
    let len = p.options[k].len() as int;
    if j2 > j {
        j2 - j - 1
    } else {
        j2 - j - 1 + len
    }
}

/// The steps of a row splice out the other elements of the row, and nothing else.
pub proof fn lemma_row_steps(p: Problem, k: int, j: int, b: int)
    requires
        0 <= k < p.options.len(),
        0 <= j < p.options[k].len(),
        0 <= b <= p.options[k].len() - 1,
    ensures
        unlinked(row_steps(p, k, j).take(b)) == Set::<int>::empty(),
        forall|z: int|
            #[trigger] hidden(row_steps(p, k, j).take(b)).contains(z) <==> exists|i: int|
                0 <= i < b && z == p.node(k, #[trigger] turn(p, k, j, i)),
    decreases b,
{
    let s = row_steps(p, k, j).take(b);
    if b > 0 {
        lemma_row_steps(p, k, j, b - 1);
        let s1 = row_steps(p, k, j).take(b - 1);
        assert(s.drop_last() =~= s1);
        assert(s.last() == Step::Hide(p.node(k, turn(p, k, j, b - 1))));
        assert forall|z: int| #[trigger] hidden(s).contains(z) <==> exists|i: int|
            0 <= i < b && z == p.node(k, #[trigger] turn(p, k, j, i)) by {
            if hidden(s).contains(z) {
                if hidden(s1).contains(z) {
                    let i = choose|i: int| 0 <= i < b - 1 && z == p.node(k, #[trigger] turn(p, k, j, i));
                    assert(0 <= i < b && z == p.node(k, turn(p, k, j, i)));
                } else {
                    assert(z == p.node(k, turn(p, k, j, b - 1)));
                }
            }
            if exists|i: int| 0 <= i < b && z == p.node(k, #[trigger] turn(p, k, j, i)) {
                let i = choose|i: int| 0 <= i < b && z == p.node(k, #[trigger] turn(p, k, j, i));
                if i < b - 1 {
                    assert(hidden(s1).contains(z));
                }
            }
        }
    }
}

/// The steps of a row splice out exactly the other elements of the row.
pub proof fn lemma_row_hidden(p: Problem, k: int, j: int)
    requires
        0 <= k < p.options.len(),
        0 <= j < p.options[k].len(),
    ensures
        unlinked(row_steps(p, k, j)) == Set::<int>::empty(),
        forall|k2: int, j2: int|
            0 <= k2 < p.options.len() && 0 <= j2 < p.options[k2].len() ==> (hidden(
                row_steps(p, k, j),
            ).contains(#[trigger] p.node(k2, j2)) <==> k2 == k && j2 != j),
        forall|z: int|
            #[trigger] hidden(row_steps(p, k, j)).contains(z) ==> p.spacer(k) < z < p.spacer(k + 1),
{
    let len = p.options[k].len() as int;
    let s = row_steps(p, k, j);
    lemma_row_steps(p, k, j, len - 1);
    assert(s.take(len - 1) =~= s);
    p.lemma_spacer_step(k);
    assert forall|k2: int, j2: int|
        0 <= k2 < p.options.len() && 0 <= j2 < p.options[k2].len() implies (hidden(s).contains(
        #[trigger] p.node(k2, j2),
    ) <==> k2 == k && j2 != j) by {
        let z = p.node(k2, j2);
        if hidden(s).contains(z) {
            let i = choose|i: int| 0 <= i < len - 1 && z == p.node(k, #[trigger] turn(p, k, j, i));
            p.lemma_node_unique(k, turn(p, k, j, i), k2, j2);
        }
        if k2 == k && j2 != j {
            let i = lemma_turn(p, k, j, j2);
            assert(z == p.node(k, turn(p, k, j, i)));
        }
    }
    assert forall|z: int| #[trigger] hidden(s).contains(z) implies p.spacer(k) < z < p.spacer(
        k + 1,
    ) by {
        let i = choose|i: int| 0 <= i < len - 1 && z == p.node(k, #[trigger] turn(p, k, j, i));
    }
}

/// Covering an item splices out the other elements of the options that it
/// strikes, and nothing else.
pub proof fn lemma_col_hidden(p: Problem, hid: Set<int>, c: int, k: int)
    requires
        p.valid(),
        0 <= k <= p.options.len(),
    ensures
        unlinked(col_steps(p, hid, c, k)) == Set::<int>::empty(),
        forall|k2: int, j2: int|
            0 <= k2 < p.options.len() && 0 <= j2 < p.options[k2].len() ==> (hidden(
                col_steps(p, hid, c, k),
            ).contains(#[trigger] p.node(k2, j2)) <==> k2 < k && fires(p, hid, c, k2)
                && p.options[k2][j2] != c),
        forall|z: int|
            #[trigger] hidden(col_steps(p, hid, c, k)).contains(z) ==> p.spacer(0) < z < p.spacer(k),
    decreases k,
{
    if k > 0 {
        lemma_col_hidden(p, hid, c, k - 1);
        let a = col_steps(p, hid, c, k - 1);
        let o = p.options[k - 1];
        p.lemma_spacer_order(0, k - 1);
        p.lemma_spacer_order(k - 1, k);
        if fires(p, hid, c, k - 1) {
            let j = pos(o, c);
            lemma_pos_in(o, c);
            let b = row_steps(p, k - 1, j);
            lemma_hidden_add(a, b);
            lemma_row_hidden(p, k - 1, j);
            assert(unlinked(a + b) =~= Set::<int>::empty());
            assert forall|k2: int, j2: int|
                0 <= k2 < p.options.len() && 0 <= j2 < p.options[k2].len() implies (hidden(
                a + b,
            ).contains(#[trigger] p.node(k2, j2)) <==> k2 < k && fires(p, hid, c, k2)
                && p.options[k2][j2] != c) by {
                if k2 == k - 1 {
                    assert(p.option_ok(o));
                    if j2 != j {
                        assert(o[j2] != o[j]);
                    }
                }
            }
        } else {
            assert(a + Seq::<Step>::empty() =~= a);
        }
    }
}

/// Options that covering `c` does not strike add no steps.
pub proof fn lemma_col_skip(p: Problem, hid: Set<int>, c: int, a: int, b: int)
    requires
        0 <= a <= b,
        forall|k: int| a <= k < b ==> !#[trigger] fires(p, hid, c, k),
    ensures
        col_steps(p, hid, c, b) == col_steps(p, hid, c, a),
    decreases b - a,
{
    if a < b {
        lemma_col_skip(p, hid, c, a, b - 1);
        assert(!fires(p, hid, c, b - 1));
        assert(col_steps(p, hid, c, b - 1) + Seq::<Step>::empty() =~= col_steps(p, hid, c, b - 1));
    }
}

/// The first covered item of an option is covered and in the option; there
/// is none exactly if the option holds no covered item.
pub proof fn lemma_killer(o: Seq<int>, cs: Seq<int>)
    requires
        forall|i: int| 0 <= i < cs.len() ==> #[trigger] cs[i] != 0,
    ensures
        killer(o, cs) != 0 ==> cs.contains(killer(o, cs)) && o.contains(killer(o, cs)),
        killer(o, cs) == 0 <==> forall|i: int| 0 <= i < cs.len() ==> !o.contains(#[trigger] cs[i]),
    decreases cs.len(),
{
    if cs.len() > 0 {
        let d = cs.drop_last();
        lemma_killer(o, d);
        assert forall|i: int| 0 <= i < d.len() implies d[i] == cs[i] by {}
        if killer(o, d) != 0 {
            let i = choose|i: int| 0 <= i < d.len() && d[i] == killer(o, d);
            assert(cs[i] == killer(o, d));
        } else {
            if o.contains(cs.last()) {
                assert(cs[cs.len() - 1] == cs.last());
            } else {
                assert forall|i: int| 0 <= i < cs.len() implies !o.contains(#[trigger] cs[i]) by {
                    if i < d.len() {
                        assert(d[i] == cs[i]);
                    }
                }
            }
        }
    }
}

/// After covering the items of `cs`, an element of an option is spliced out
/// exactly if the first covered item of its option is another one than its
/// own; and the items out of the item list are those of `cs`.
pub proof fn lemma_course(p: Problem, cs: Seq<int>)
    requires
        p.valid(),
        stack_ok(p, cs),
    ensures
        unlinked(course(p, cs)) == cs.to_set(),
        forall|k: int, j: int|
            0 <= k < p.options.len() && 0 <= j < p.options[k].len() ==> (hidden(
                course(p, cs),
            ).contains(#[trigger] p.node(k, j)) <==> killer(p.options[k], cs) != 0 && killer(
                p.options[k],
                cs,
            ) != p.options[k][j]),
        forall|z: int|
            #[trigger] hidden(course(p, cs)).contains(z) ==> p.spacer(0) < z < p.spacer(
                p.options.len() as int,
            ),
    decreases cs.len(),
{
    if cs.len() == 0 {
        assert(unlinked(course(p, cs)) =~= cs.to_set());
    } else {
        let d = cs.drop_last();
        let c = cs.last();
        assert(stack_ok(p, d)) by {
            assert forall|i: int| 0 <= i < d.len() implies 1 <= #[trigger] d[i] <= p.items by {
                assert(d[i] == cs[i]);
            }
        }
        lemma_course(p, d);
        let t = course(p, d);
        let hid = hidden(t);
        let last = p.options.len() as int;
        let a = col_steps(p, hid, c, last);
        lemma_col_hidden(p, hid, c, last);
        lemma_hidden_add(t, a.push(Step::Unlink(c)));
        assert(a.push(Step::Unlink(c)).drop_last() =~= a);
        assert(hidden(a.push(Step::Unlink(c))) == hidden(a));
        assert(unlinked(a.push(Step::Unlink(c))) =~= set![c]);
        assert(unlinked(course(p, cs)) =~= cs.to_set()) by {
            assert forall|z: int| cs.to_set().contains(z) <==> d.to_set().contains(z) || z == c by {
                if cs.to_set().contains(z) {
                    let i = choose|i: int| 0 <= i < cs.len() && cs[i] == z;
                    if i < d.len() {
                        assert(d[i] == z);
                    }
                }
                if d.to_set().contains(z) {
                    let i = choose|i: int| 0 <= i < d.len() && d[i] == z;
                    assert(cs[i] == z);
                }
                if z == c {
                    assert(cs[cs.len() - 1] == c);
                }
            }
        }
        assert(!d.contains(c)) by {
            if d.contains(c) {
                let i = choose|i: int| 0 <= i < d.len() && d[i] == c;
                assert(cs[i] == cs[cs.len() - 1]);
            }
        }
        assert forall|k: int, j: int|
            0 <= k < p.options.len() && 0 <= j < p.options[k].len() implies (hidden(
            course(p, cs),
        ).contains(#[trigger] p.node(k, j)) <==> killer(p.options[k], cs) != 0 && killer(
            p.options[k],
            cs,
        ) != p.options[k][j]) by {
            let o = p.options[k];
            assert(p.option_ok(o));
            lemma_killer(o, d);
            if o.contains(c) {
                lemma_pos_in(o, c);
                let jc = pos(o, c);
                assert(hid.contains(p.node(k, jc)) <==> killer(o, d) != 0 && killer(o, d) != o[jc]);
            }
        }
        p.lemma_spacer_order(0, last);
    }
}

/// A node that belongs to item `c` is the element for `c` of some option.
pub proof fn lemma_column_node(p: Problem, m: Seq<Link>, c: int, z: int) -> (k: int)
    requires
        p.valid(),
        rows_ok(m, p),
        m.len() == p.size(),
        p.items < z < m.len(),
        m[z].owner() == c,
        c >= 1,
    ensures
        0 <= k < p.options.len(),
        p.options[k].contains(c),
        p.at(z, k, pos(p.options[k], c)),
{
    if z == p.items + 1 {
        assert(spacer_ok(m, p, 0));
        0
    } else {
        let (k, j) = p.lemma_locate(z);
        if p.at(z, k, j) {
            assert(element_ok(m, p, k, j));
            assert(p.option_ok(p.options[k]));
            lemma_pos(p.options[k], j);
        } else {
            assert(spacer_ok(m, p, k + 1));
        }
        k
    }
}

/// Covering `c` leaves the elements for `c` in their column.
pub proof fn lemma_col_keeps(p: Problem, m: Seq<Link>, hid: Set<int>, c: int, k: int, z: int)
    requires
        p.valid(),
        rows_ok(m, p),
        m.len() == p.size(),
        0 <= z < m.len(),
        m[z].owner() == c,
        c >= 1,
        0 <= k <= p.options.len(),
    ensures
        !hidden(col_steps(p, hid, c, k)).contains(z),
{
    lemma_col_hidden(p, hid, c, k);
    if hidden(col_steps(p, hid, c, k)).contains(z) {
        let k2 = lemma_column_node(p, m, c, z);
        lemma_pos_in(p.options[k2], c);
        assert(hidden(col_steps(p, hid, c, k)).contains(p.node(k2, pos(p.options[k2], c))));
    }
}

/// Where column `c` has no linked node, covering `c` strikes no option.
pub proof fn lemma_gap_skip(
    p: Problem,
    m: Seq<Link>,
    hid: Set<int>,
    c: int,
    lo: int,
    hi: int,
    a: int,
    b: int,
)
    requires
        p.valid(),
        rows_ok(m, p),
        m.len() == p.size(),
        gap(owners(m), hid, c, lo, hi),
        0 <= a <= b <= p.options.len(),
        lo <= p.spacer(a),
        p.spacer(b) <= hi,
    ensures
        col_steps(p, hid, c, b) == col_steps(p, hid, c, a),
{
    assert forall|k: int| a <= k < b implies !#[trigger] fires(p, hid, c, k) by {
        if fires(p, hid, c, k) {
            let o = p.options[k];
            lemma_pos_in(o, c);
            let j = pos(o, c);
            let z = p.node(k, j);
            assert(element_ok(m, p, k, j));
            p.lemma_spacer_order(a, k);
            p.lemma_spacer_order(k + 1, b);
            p.lemma_spacer_step(k);
            p.lemma_spacer_order(b, p.options.len() as int);
            assert(owners(m)[z] == c);
        }
    }
    lemma_col_skip(p, hid, c, a, b);
}

/// An option whose element for an item that is not covered is linked is
/// linked as a whole.
pub proof fn lemma_whole_row(p: Problem, cs: Seq<int>, k: int, j: int)
    requires
        p.valid(),
        stack_ok(p, cs),
        0 <= k < p.options.len(),
        0 <= j < p.options[k].len(),
        !cs.contains(p.options[k][j]),
        !hidden(course(p, cs)).contains(p.node(k, j)),
    ensures
        killer(p.options[k], cs) == 0,
        forall|j2: int|
            0 <= j2 < p.options[k].len() ==> !hidden(course(p, cs)).contains(
                #[trigger] p.node(k, j2),
            ),
{
    lemma_course(p, cs);
    lemma_killer(p.options[k], cs);
}

} // verus!
