//! What the search looks for and in which order it finds it, stated over
//! the problem alone.
//!
//! The search covers items one after the other. It branches on the first
//! primary item with the fewest options left, tries the options that hold
//! this item in the order in which they were added, and with each of them
//! covers the other items of the option.

use vstd::prelude::*;
use crate::course::{
    course, killer, lemma_course, lemma_killer, lemma_pos, lemma_pos_in, pos, stack_ok,
};
use crate::layout::{element_ok, rows_ok, spacer_ok};
use crate::link::Link;
use crate::mesh::{gap, linked, live_count, owners};
use crate::problem::Problem;
use crate::trail::hidden;

verus! {

/// The option holds none of the covered items.
pub open spec fn disjoint(o: Seq<int>, cs: Seq<int>) -> bool {
    forall|c: int| o.contains(c) ==> !cs.contains(c)
}

/// The option `k` can be chosen for item `i`: it holds `i` and no covered item.
pub open spec fn usable(p: Problem, cs: Seq<int>, i: int, k: int) -> bool {
    0 <= k < p.options.len() && p.options[k].contains(i) && disjoint(p.options[k], cs)
}

/// The number of options among the first `b` that can be chosen for item `i`.
pub open spec fn choices(p: Problem, cs: Seq<int>, i: int, b: int) -> int
    decreases b,
{
    if b <= 0 {
        0
    } else {
        choices(p, cs, i, b - 1) + if usable(p, cs, i, b - 1) {
            1int
        } else {
            0int
        }
    }
}

/// The number of options that can be chosen for item `i`.
pub open spec fn width(p: Problem, cs: Seq<int>, i: int) -> int {
    choices(p, cs, i, p.options.len() as int)
}

/// All primary items are covered.
pub open spec fn done(p: Problem, cs: Seq<int>) -> bool {
    forall|i: int| 1 <= i <= p.primary ==> cs.contains(i)
}

/// `i` is a primary item that is not covered.
pub open spec fn open_item(p: Problem, cs: Seq<int>, i: int) -> bool {
    1 <= i <= p.primary && !cs.contains(i)
}

/// `i` is the item to branch on: of the primary items that are not covered,
/// the first among those with the fewest options to choose from.
pub open spec fn is_branch_item(p: Problem, cs: Seq<int>, i: int) -> bool {
    &&& open_item(p, cs, i)
    &&& forall|i2: int|
        #[trigger] open_item(p, cs, i2) ==> width(p, cs, i) <= width(p, cs, i2) && (i2 < i ==> width(
            p,
            cs,
            i,
        ) < width(p, cs, i2))
}

/// The item to branch on.
pub open spec fn branch_item(p: Problem, cs: Seq<int>) -> int {
    choose|i: int| is_branch_item(p, cs, i)
}

/// The items of the option from its `j`-th on, then those before it.
pub open spec fn rotate(o: Seq<int>, j: int) -> Seq<int> {
    o.subrange(j, o.len() as int) + o.subrange(0, j)
}

/// The covered items after option `k` has been chosen for item `i`.
pub open spec fn extend(p: Problem, cs: Seq<int>, i: int, k: int) -> Seq<int> {
    cs + rotate(p.options[k], pos(p.options[k], i))
}

/// How many more items can be covered.
pub open spec fn room(p: Problem, cs: Seq<int>) -> nat {
    if cs.len() < p.items {
        (p.items - cs.len()) as nat
    } else {
        0
    }
}

/// Each of the sequences with `pre` in front.
pub open spec fn prefixed(pre: Seq<int>, ss: Seq<Seq<int>>) -> Seq<Seq<int>> {
    Seq::new(ss.len(), |n: int| pre + ss[n])
}

/// The solutions that the search finds with the items of `cs` covered, in
/// the order in which it finds them: each is the sequence of the options
/// chosen, by their numbers.
pub open spec fn solutions(p: Problem, cs: Seq<int>) -> Seq<Seq<int>>
    decreases room(p, cs), 1int, 0int,
{
    if done(p, cs) {
        seq![Seq::<int>::empty()]
    } else if room(p, cs) == 0 {
        Seq::empty()
    } else {
        branch(p, cs, branch_item(p, cs), 0)
    }
}

/// The solutions that the search finds by choosing for item `i` one of the
/// options from `k` on.
pub open spec fn branch(p: Problem, cs: Seq<int>, i: int, k: int) -> Seq<Seq<int>>
    decreases room(p, cs), 0int, p.options.len() - k,
{
    if k < 0 || k >= p.options.len() || room(p, cs) == 0 {
        Seq::empty()
    } else if usable(p, cs, i, k) {
        prefixed(seq![k], solutions(p, extend(p, cs, i, k))) + branch(p, cs, i, k + 1)
    } else {
        branch(p, cs, i, k + 1)
    }
}

/// The number of steps that the search takes to look through everything
/// below the state with the items of `cs` covered.
pub open spec fn effort(p: Problem, cs: Seq<int>) -> nat
    decreases room(p, cs), 1int, 0int,
{
    if done(p, cs) {
        2
    } else if room(p, cs) == 0 {
        3
    } else {
        2 + branch_effort(p, cs, branch_item(p, cs), 0)
    }
}

/// The number of steps that the search takes to try for item `i` the
/// options from `k` on.
pub open spec fn branch_effort(p: Problem, cs: Seq<int>, i: int, k: int) -> nat
    decreases room(p, cs), 0int, p.options.len() - k,
{
    if k < 0 || k >= p.options.len() || room(p, cs) == 0 {
        1
    } else if usable(p, cs, i, k) {
        3 + effort(p, extend(p, cs, i, k)) + branch_effort(p, cs, i, k + 1)
    } else {
        branch_effort(p, cs, i, k + 1)
    }
}

/// An option holds no covered item exactly if it has no first covered item.
pub proof fn lemma_disjoint(p: Problem, cs: Seq<int>, k: int)
    requires
        stack_ok(p, cs),
        0 <= k < p.options.len(),
    ensures
        disjoint(p.options[k], cs) <==> killer(p.options[k], cs) == 0,
{
    let o = p.options[k];
    lemma_killer(o, cs);
    if killer(o, cs) == 0 {
        assert forall|c: int| o.contains(c) implies !cs.contains(c) by {
            if cs.contains(c) {
                let i = choose|i: int| 0 <= i < cs.len() && cs[i] == c;
                assert(!o.contains(cs[i]));
            }
        }
    } else {
        assert(o.contains(killer(o, cs)) && cs.contains(killer(o, cs)));
    }
}

/// There is only one item to branch on.
pub proof fn lemma_branch_item(p: Problem, cs: Seq<int>, i: int)
    requires
        is_branch_item(p, cs, i),
    ensures
        branch_item(p, cs) == i,
{
    let j = branch_item(p, cs);
    assert(is_branch_item(p, cs, j));
    assert(open_item(p, cs, i) && open_item(p, cs, j));
}

/// Options that cannot be chosen add nothing to the search.
pub proof fn lemma_branch_skip(p: Problem, cs: Seq<int>, i: int, a: int, b: int)
    requires
        0 <= a <= b <= p.options.len(),
        forall|k: int| a <= k < b ==> !usable(p, cs, i, k),
    ensures
        branch(p, cs, i, a) == branch(p, cs, i, b),
        branch_effort(p, cs, i, a) == branch_effort(p, cs, i, b),
    decreases b - a,
{
    if a < b {
        lemma_branch_skip(p, cs, i, a + 1, b);
        assert(!usable(p, cs, i, a));
    }
}

/// Where a column has no linked node, its count stands still.
pub proof fn lemma_count_still(tops: Seq<int>, hid: Set<int>, t: int, a: int, b: int)
    requires
        a <= b,
        gap(tops, hid, t, a - 1, b),
    ensures
        live_count(tops, hid, t, b) == live_count(tops, hid, t, a),
    decreases b - a,
{
    if a < b {
        lemma_count_still(tops, hid, t, a, b - 1);
    }
}

/// The linked nodes of the column of an item that is not covered, counted
/// through the first `k` options, are as many as the options among them
/// that can be chosen for the item.
pub proof fn lemma_count_choices(p: Problem, m: Seq<Link>, cs: Seq<int>, i: int, k: int)
    requires
        p.valid(),
        stack_ok(p, cs),
        rows_ok(m, p),
        m.len() == p.size(),
        forall|z: int| 0 <= z <= p.items ==> (#[trigger] m[z]) is Item,
        1 <= i <= p.items,
        !cs.contains(i),
        0 <= k <= p.options.len(),
    ensures
        live_count(owners(m), hidden(course(p, cs)), i, p.spacer(k) + 1) == choices(p, cs, i, k),
    decreases k,
{
    let tops = owners(m);
    let hid = hidden(course(p, cs));
    if k == 0 {
        assert(spacer_ok(m, p, 0));
        assert(gap(tops, hid, i, -1, p.spacer(0) + 1)) by {
            assert forall|z: int|
                -1 < z < p.spacer(0) + 1 && 0 <= z < tops.len() && #[trigger] tops[z] == i implies hid.contains(
                z,
            ) by {
                let _ = m[z];
            }
        }
        lemma_count_still(tops, hid, i, 0, p.spacer(0) + 1);
    } else {
        lemma_count_choices(p, m, cs, i, k - 1);
        let r = k - 1;
        let o = p.options[r];
        let a = p.spacer(r) + 1;
        let b = p.spacer(k) + 1;
        p.lemma_spacer_step(r);
        p.lemma_spacer_order(k, p.options.len() as int);
        assert(spacer_ok(m, p, k));
        assert(p.option_ok(o));
        lemma_course(p, cs);
        lemma_disjoint(p, cs, r);
        lemma_killer(o, cs);
        assert forall|z: int| a <= z < b && #[trigger] tops[z] == i implies o.contains(i) && z
            == p.node(r, pos(o, i)) by {
            if z < b - 1 {
                let j = z - a;
                assert(z == p.node(r, j));
                assert(element_ok(m, p, r, j));
                lemma_pos(o, j);
            }
        }
        if usable(p, cs, i, r) {
            lemma_pos_in(o, i);
            let j = pos(o, i);
            let z0 = p.node(r, j);
            assert(element_ok(m, p, r, j));
            assert(tops[z0] == i);
            assert(!hid.contains(z0));
            assert(linked(tops, hid, i, z0));
            lemma_count_still(tops, hid, i, a, z0);
            lemma_count_still(tops, hid, i, z0 + 1, b);
        } else {
            assert(gap(tops, hid, i, a - 1, b)) by {
                assert forall|z: int|
                    a - 1 < z < b && 0 <= z < tops.len() && #[trigger] tops[z] == i implies hid.contains(
                    z,
                ) by {
                    lemma_pos_in(o, i);
                    assert(cs.contains(killer(o, cs)));
                }
            }
            lemma_count_still(tops, hid, i, a, b);
        }
    }
}

/// The options chosen at the levels of the search, from the first level on.
pub open spec fn picks(frames: Seq<(int, int)>) -> Seq<int> {
    Seq::new(frames.len(), |j: int| frames[j].1)
}

/// The covered items as they were before the option `k` was chosen.
pub open spec fn below(p: Problem, cs: Seq<int>, k: int) -> Seq<int> {
    cs.take(cs.len() - p.options[k].len())
}

/// The levels of the search fit the covered items: each level names the
/// item that was branched on and the option that was chosen for it, and the
/// items of these options lie on top of each other on the stack of covered
/// items.
pub open spec fn frames_ok(p: Problem, cs: Seq<int>, frames: Seq<(int, int)>) -> bool
    decreases frames.len(),
{
    frames.len() > 0 ==> {
        let f = frames.last();
        let b = below(p, cs, f.1);
        &&& usable(p, b, f.0, f.1)
        &&& is_branch_item(p, b, f.0)
        &&& cs == extend(p, b, f.0, f.1)
        &&& frames_ok(p, b, frames.drop_last())
    }
}

/// The solutions still to come once the search has left the deepest of the
/// given levels: what the other options of each level lead to, the deepest
/// level first.
pub open spec fn tail(p: Problem, cs: Seq<int>, frames: Seq<(int, int)>) -> Seq<Seq<int>>
    decreases frames.len(),
{
    if frames.len() == 0 {
        Seq::empty()
    } else {
        let f = frames.last();
        let b = below(p, cs, f.1);
        prefixed(picks(frames.drop_last()), branch(p, b, f.0, f.1 + 1)) + tail(
            p,
            b,
            frames.drop_last(),
        )
    }
}

/// The number of steps still to come once the search has left the deepest
/// of the given levels.
pub open spec fn tail_effort(p: Problem, cs: Seq<int>, frames: Seq<(int, int)>) -> nat
    decreases frames.len(),
{
    if frames.len() == 0 {
        0
    } else {
        let f = frames.last();
        let b = below(p, cs, f.1);
        2 + branch_effort(p, b, f.0, f.1 + 1) + tail_effort(p, b, frames.drop_last())
    }
}

/// Putting a prefix in front goes through concatenation.
pub proof fn lemma_prefixed_add(a: Seq<int>, x: Seq<Seq<int>>, y: Seq<Seq<int>>)
    ensures
        prefixed(a, x + y) == prefixed(a, x) + prefixed(a, y),
{
    assert(prefixed(a, x + y) =~= prefixed(a, x) + prefixed(a, y));
}

/// Putting two prefixes in front, one after the other, is putting both in
/// front at once.
pub proof fn lemma_prefixed_twice(a: Seq<int>, b: Seq<int>, s: Seq<Seq<int>>)
    ensures
        prefixed(a, prefixed(b, s)) == prefixed(a + b, s),
{
    assert forall|n: int| 0 <= n < s.len() implies prefixed(a, prefixed(b, s))[n] == prefixed(
        a + b,
        s,
    )[n] by {
        assert(a + (b + s[n]) =~= (a + b) + s[n]);
    }
    assert(prefixed(a, prefixed(b, s)) =~= prefixed(a + b, s));
}

/// The options chosen, with one more level.
pub proof fn lemma_picks_push(frames: Seq<(int, int)>, f: (int, int))
    ensures
        picks(frames.push(f)) == picks(frames) + seq![f.1],
{
    assert(picks(frames.push(f)) =~= picks(frames) + seq![f.1]);
}

/// The covered items as they were before the search entered the first of
/// the given levels.
pub open spec fn roots(p: Problem, cs: Seq<int>, frames: Seq<(int, int)>) -> Seq<int>
    decreases frames.len(),
{
    if frames.len() == 0 {
        cs
    } else {
        roots(p, below(p, cs, frames.last().1), frames.drop_last())
    }
}

/// `rest` is what is left of `all` when some of its first members are
/// taken away.
pub open spec fn is_rest(all: Seq<Seq<int>>, rest: Seq<Seq<int>>) -> bool {
    exists|n: int| 0 <= n <= all.len() && rest == #[trigger] all.skip(n)
}

/// The rest of a rest is a rest.
pub proof fn lemma_rest_trans(all: Seq<Seq<int>>, x: Seq<Seq<int>>, y: Seq<Seq<int>>)
    requires
        is_rest(all, x),
        is_rest(x, y),
    ensures
        is_rest(all, y),
{
    let n = choose|n: int| 0 <= n <= all.len() && x == #[trigger] all.skip(n);
    let m = choose|m: int| 0 <= m <= x.len() && y == #[trigger] x.skip(m);
    assert(all.skip(n + m) =~= y);
}

/// What stands behind a rest stands behind the whole.
pub proof fn lemma_rest_add(x: Seq<Seq<int>>, y: Seq<Seq<int>>, t: Seq<Seq<int>>)
    requires
        is_rest(x, y),
    ensures
        is_rest(x + t, y + t),
        is_rest(x + t, t),
{
    let n = choose|n: int| 0 <= n <= x.len() && y == #[trigger] x.skip(n);
    assert((x + t).skip(n) =~= y + t);
    assert((x + t).skip(x.len() as int) =~= t);
}

/// A prefix in front of a rest is a rest of the whole with the prefix in
/// front.
pub proof fn lemma_rest_prefixed(a: Seq<int>, x: Seq<Seq<int>>, y: Seq<Seq<int>>)
    requires
        is_rest(x, y),
    ensures
        is_rest(prefixed(a, x), prefixed(a, y)),
{
    let n = choose|n: int| 0 <= n <= x.len() && y == #[trigger] x.skip(n);
    assert(prefixed(a, x).skip(n) =~= prefixed(a, y));
}

/// What the options from `k` on lead to is the rest of what all options
/// lead to.
pub proof fn lemma_branch_rest(p: Problem, cs: Seq<int>, i: int, k: int)
    requires
        0 <= k,
    ensures
        is_rest(branch(p, cs, i, 0), branch(p, cs, i, k)),
    decreases k,
{
    if k == 0 {
        assert(branch(p, cs, i, 0).skip(0) =~= branch(p, cs, i, 0));
    } else {
        lemma_branch_rest(p, cs, i, k - 1);
        let x = branch(p, cs, i, k - 1);
        let y = branch(p, cs, i, k);
        if k - 1 >= p.options.len() || room(p, cs) == 0 {
            assert(x.skip(0) =~= y);
        } else if usable(p, cs, i, k - 1) {
            let here = prefixed(seq![k - 1], solutions(p, extend(p, cs, i, k - 1)));
            assert(x == here + y);
            assert(x.skip(here.len() as int) =~= y);
        } else {
            assert(x.skip(0) =~= y);
        }
        lemma_rest_trans(branch(p, cs, i, 0), x, y);
    }
}

/// The number of options among the first `b` that hold item `i`.
pub open spec fn holders(p: Problem, i: int, b: int) -> int
    decreases b,
{
    if b <= 0 {
        0
    } else {
        holders(p, i, b - 1) + if p.options[b - 1].contains(i) {
            1int
        } else {
            0int
        }
    }
}

/// While nothing is covered, the options that can be chosen for an item
/// are the options that hold it.
pub proof fn lemma_choices_holders(p: Problem, i: int, b: int)
    requires
        0 <= b <= p.options.len(),
    ensures
        choices(p, Seq::empty(), i, b) == holders(p, i, b),
    decreases b,
{
    if b > 0 {
        lemma_choices_holders(p, i, b - 1);
        let cs = Seq::<int>::empty();
        assert(disjoint(p.options[b - 1], cs));
    }
}

} // verus!
