//! What the search relies on as it moves between its levels.

use vstd::prelude::*;
use vstd::set_lib::{lemma_int_range, lemma_len_subset, set_int_range};
use crate::course::{
    course, lemma_column_node, lemma_course, lemma_killer, lemma_pos_in, pos, stack_ok, turn,
};
use crate::layout::{element_ok, rows_ok};
use crate::link::Link;
use crate::mesh::{is_below, is_right, owners, static_ok};
use crate::problem::Problem;
use crate::search::{
    below, branch, branch_effort, disjoint, done, effort, extend, frames_ok, is_branch_item,
    is_rest, lemma_branch_item, lemma_branch_rest, lemma_disjoint, lemma_picks_push,
    lemma_prefixed_add, lemma_prefixed_twice, lemma_rest_add, lemma_rest_prefixed,
    lemma_rest_trans, picks, prefixed, roots, rotate, solutions, tail, tail_effort, usable,
};
use crate::trail::hidden;

verus! {

/// A sequence of different numbers from `lo` up to, but not including, `hi`
/// has at most `hi - lo` members.
pub proof fn lemma_distinct_bounded(s: Seq<int>, lo: int, hi: int)
    requires
        s.no_duplicates(),
        lo <= hi,
        forall|j: int| 0 <= j < s.len() ==> lo <= #[trigger] s[j] < hi,
    ensures
        s.len() <= hi - lo,
{
    s.unique_seq_to_set();
    lemma_int_range(lo, hi);
    assert forall|x: int| s.to_set().contains(x) implies set_int_range(lo, hi).contains(x) by {
        let j = choose|j: int| 0 <= j < s.len() && s[j] == x;
    }
    lemma_len_subset(s.to_set(), set_int_range(lo, hi));
}

/// While an item is not covered, fewer items are covered than there are.
pub proof fn lemma_room(p: Problem, cs: Seq<int>, i: int)
    requires
        stack_ok(p, cs),
        1 <= i <= p.items,
        !cs.contains(i),
    ensures
        cs.len() < p.items,
{
    let s = cs.push(i);
    assert(s.no_duplicates()) by {
        assert forall|a: int, b: int| 0 <= a < s.len() && 0 <= b < s.len() && a != b implies s[a]
            != s[b] by {
            if a < cs.len() && b < cs.len() {
                assert(cs[a] != cs[b]);
            } else if a < cs.len() {
                assert(cs.contains(cs[a]));
            } else {
                assert(cs.contains(cs[b]));
            }
        }
    }
    lemma_distinct_bounded(s, 1, p.items as int + 1);
}

/// Going round an option from its `j`-th item meets the items in the order
/// in which the search covers them.
pub proof fn lemma_rotate(p: Problem, k: int, j: int)
    requires
        0 <= k < p.options.len(),
        0 <= j < p.options[k].len(),
    ensures
        rotate(p.options[k], j).len() == p.options[k].len(),
        rotate(p.options[k], j)[0] == p.options[k][j],
        forall|h: int|
            0 <= h < p.options[k].len() - 1 ==> rotate(p.options[k], j)[1 + h] == p.options[k][#[trigger] turn(
                p,
                k,
                j,
                h,
            )],
{
}

/// The items of an option that can be chosen are not covered, and stay
/// different from each other on the stack.
pub proof fn lemma_extend_ok(p: Problem, cs: Seq<int>, i: int, k: int, w: int)
    requires
        p.valid(),
        stack_ok(p, cs),
        usable(p, cs, i, k),
        0 <= w <= p.options[k].len(),
    ensures
        stack_ok(p, cs + rotate(p.options[k], pos(p.options[k], i)).take(w)),
        forall|h: int|
            w <= h < p.options[k].len() ==> !(cs + rotate(p.options[k], pos(p.options[k], i)).take(
                w,
            )).contains(#[trigger] rotate(p.options[k], pos(p.options[k], i))[h]),
{
    let o = p.options[k];
    lemma_pos_in(o, i);
    let j = pos(o, i);
    let r = rotate(o, j);
    let s = cs + r.take(w);
    assert(p.option_ok(o));
    assert forall|a: int| 0 <= a < r.len() implies o.contains(#[trigger] r[a]) && 1 <= r[a]
        <= p.items by {
        if a < o.len() - j {
            assert(r[a] == o[j + a]);
        } else {
            assert(r[a] == o[a - (o.len() - j)]);
        }
    }
    assert forall|a: int, b: int| 0 <= a < r.len() && 0 <= b < r.len() && a != b implies r[a]
        != r[b] by {
        let ia = if a < o.len() - j {
            j + a
        } else {
            a - (o.len() - j)
        };
        let ib = if b < o.len() - j {
            j + b
        } else {
            b - (o.len() - j)
        };
        assert(r[a] == o[ia] && r[b] == o[ib]);
    }
    assert forall|a: int, b: int| 0 <= a < s.len() && 0 <= b < s.len() && a != b implies s[a]
        != s[b] by {
        if a < cs.len() && b < cs.len() {
        } else if a < cs.len() {
            assert(cs.contains(cs[a]));
            assert(o.contains(r[b - cs.len()]));
        } else if b < cs.len() {
            assert(cs.contains(cs[b]));
            assert(o.contains(r[a - cs.len()]));
        } else {
        }
    }
    assert forall|h: int| w <= h < o.len() implies !s.contains(#[trigger] r[h]) by {
        if s.contains(r[h]) {
            let a = choose|a: int| 0 <= a < s.len() && s[a] == r[h];
            if a < cs.len() {
                assert(cs.contains(cs[a]));
                assert(o.contains(r[h]));
            } else {
                assert(r[a - cs.len()] == r[h]);
            }
        }
    }
}

/// The options chosen at the levels of the search are different options,
/// and each holds an item that is covered.
pub proof fn lemma_picks(p: Problem, cs: Seq<int>, frames: Seq<(int, int)>)
    requires
        p.valid(),
        frames_ok(p, cs, frames),
    ensures
        picks(frames).no_duplicates(),
        forall|j: int|
            0 <= j < frames.len() ==> 0 <= (#[trigger] picks(frames)[j]) < p.options.len()
                && !disjoint(p.options[picks(frames)[j]], cs),
        frames.len() <= p.options.len(),
        forall|i: int, k: int| usable(p, cs, i, k) ==> frames.len() < p.options.len(),
        forall|j: int|
            0 <= j < frames.len() ==> p.options[picks(frames)[j]].contains((#[trigger] frames[j]).0),
    decreases frames.len(),
{
    let ps = picks(frames);
    if frames.len() > 0 {
        let f = frames.last();
        let b = below(p, cs, f.1);
        let rest = frames.drop_last();
        lemma_picks(p, b, rest);
        let o = p.options[f.1];
        lemma_pos_in(o, f.0);
        let r = rotate(o, pos(o, f.0));
        assert(r[0] == f.0);
        assert(cs[b.len() as int] == f.0);
        assert(cs.contains(f.0));
        assert forall|j: int| 0 <= j < frames.len() implies p.options[ps[j]].contains(
            (#[trigger] frames[j]).0,
        ) by {
            if j < rest.len() {
                assert(rest[j] == frames[j]);
                assert(picks(rest)[j] == ps[j]);
            }
        }
        assert forall|j: int| 0 <= j < frames.len() implies 0 <= (#[trigger] ps[j])
            < p.options.len() && !disjoint(p.options[ps[j]], cs) by {
            if j < rest.len() {
                assert(picks(rest)[j] == ps[j]);
                let oj = p.options[ps[j]];
                let c = choose|c: int| oj.contains(c) && b.contains(c);
                let a = choose|a: int| 0 <= a < b.len() && b[a] == c;
                assert(cs[a] == c);
                assert(cs.contains(c));
            }
        }
        assert forall|a: int, c: int| 0 <= a < ps.len() && 0 <= c < ps.len() && a != c implies ps[a]
            != ps[c] by {
            if a < rest.len() && c < rest.len() {
                assert(picks(rest)[a] == ps[a] && picks(rest)[c] == ps[c]);
            } else if a < rest.len() {
                assert(picks(rest)[a] == ps[a]);
            } else {
                assert(picks(rest)[c] == ps[c]);
            }
        }
    }
    lemma_distinct_bounded(ps, 0, p.options.len() as int);
    assert forall|i: int, k: int| usable(p, cs, i, k) implies frames.len() < p.options.len() by {
        let s = ps.push(k);
        assert forall|a: int, c: int| 0 <= a < s.len() && 0 <= c < s.len() && a != c implies s[a]
            != s[c] by {
            if a < ps.len() && c < ps.len() {
            } else if a < ps.len() {
                assert(!disjoint(p.options[ps[a]], cs));
            } else {
                assert(!disjoint(p.options[ps[c]], cs));
            }
        }
        lemma_distinct_bounded(s, 0, p.options.len() as int);
    }
}

/// With item `i` covered last, the element for `i` of an option is linked
/// exactly if the option could be chosen for `i` before `i` was covered.
pub proof fn lemma_usable_linked(p: Problem, b: Seq<int>, i: int, k: int)
    requires
        p.valid(),
        stack_ok(p, b.push(i)),
        0 <= k < p.options.len(),
        p.options[k].contains(i),
    ensures
        usable(p, b, i, k) <==> !hidden(course(p, b.push(i))).contains(
            p.node(k, pos(p.options[k], i)),
        ),
        stack_ok(p, b),
        !b.contains(i),
{
    let cs = b.push(i);
    let o = p.options[k];
    assert(cs.drop_last() =~= b);
    assert(stack_ok(p, b)) by {
        assert forall|a: int| 0 <= a < b.len() implies 1 <= #[trigger] b[a] <= p.items by {
            assert(b[a] == cs[a]);
        }
    }
    assert(!b.contains(i)) by {
        if b.contains(i) {
            let a = choose|a: int| 0 <= a < b.len() && b[a] == i;
            assert(cs[a] == cs[cs.len() - 1]);
        }
    }
    lemma_pos_in(o, i);
    lemma_course(p, cs);
    lemma_disjoint(p, b, k);
    lemma_killer(o, b);
    assert(cs.last() == i);
}

/// What follows in the column of an item that was covered last: the element
/// of the next option that could be chosen for the item, or the item itself
/// where there is no such option.
pub proof fn lemma_next_candidate(
    p: Problem,
    m: Seq<Link>,
    b: Seq<int>,
    i: int,
    from: int,
    start: int,
    x: int,
) -> (k: int)
    requires
        p.valid(),
        stack_ok(p, b.push(i)),
        rows_ok(m, p),
        static_ok(m, p.items as int),
        m.len() == p.size(),
        1 <= i <= p.items,
        0 <= start <= p.options.len(),
        start > 0 ==> p.options[start - 1].contains(i) && from == p.node(
            start - 1,
            pos(p.options[start - 1], i),
        ),
        start == 0 ==> from == i,
        is_below(owners(m), hidden(course(p, b.push(i))), i, from, x),
    ensures
        start <= k <= p.options.len(),
        forall|k2: int| start <= k2 < k ==> !usable(p, b, i, k2),
        k < p.options.len() ==> usable(p, b, i, k) && x == p.node(k, pos(p.options[k], i)),
        k == p.options.len() ==> x == i,
{
    let cs = b.push(i);
    let hid = hidden(course(p, cs));
    let tops = owners(m);
    let last = p.options.len() as int;
    p.lemma_spacer_order(0, start);
    p.lemma_spacer_order(start, last);
    let k = if x == i {
        last
    } else {
        assert(tops[x] == i);
        let _ = m[x];
        lemma_column_node(p, m, i, x)
    };
    if start > 0 {
        lemma_pos_in(p.options[start - 1], i);
        p.lemma_spacer_step(start - 1);
    }
    if x != i {
        lemma_usable_linked(p, b, i, k);
        lemma_pos_in(p.options[k], i);
        if k < start - 1 {
            p.lemma_spacer_step(k);
            p.lemma_spacer_order(k + 1, start - 1);
        }
    }
    assert forall|k2: int| start <= k2 < k implies !usable(p, b, i, k2) by {
        if usable(p, b, i, k2) {
            let o = p.options[k2];
            lemma_usable_linked(p, b, i, k2);
            lemma_pos_in(o, i);
            let z = p.node(k2, pos(o, i));
            assert(element_ok(m, p, k2, pos(o, i)));
            p.lemma_spacer_order(start, k2);
            p.lemma_spacer_step(k2);
            p.lemma_spacer_order(k2 + 1, last);
            assert(tops[z] == i);
            if k < last {
                p.lemma_spacer_order(k2 + 1, k);
            }
        }
    }
    k
}

/// The item list tells whether all primary items are covered: they are
/// exactly if the first item in the list is none or is no primary item.
pub proof fn lemma_done(p: Problem, cs: Seq<int>, r: int)
    requires
        p.primary <= p.items,
        is_right(p.items as int, cs.to_set(), 0, r),
    ensures
        done(p, cs) <==> r == 0 || r > p.primary,
        !done(p, cs) ==> 1 <= r <= p.primary && !cs.contains(r),
{
    if r == 0 || r > p.primary {
        assert forall|i: int| 1 <= i <= p.primary implies cs.contains(i) by {
            assert(cs.to_set().contains(i));
        }
    } else {
        assert(!cs.to_set().contains(r));
    }
}

/// Going down a level: what was to come from the option at hand and the
/// options behind it is what is to come below the option, and then from the
/// options behind it.
pub proof fn lemma_descend(p: Problem, b: Seq<int>, i: int, k: int, frames: Seq<(int, int)>)
    requires
        p.valid(),
        stack_ok(p, b),
        usable(p, b, i, k),
        1 <= i <= p.items,
        !b.contains(i),
        frames_ok(p, b, frames),
        is_branch_item(p, b, i),
    ensures
        below(p, extend(p, b, i, k), k) == b,
        frames_ok(p, extend(p, b, i, k), frames.push((i, k))),
        prefixed(picks(frames.push((i, k))), solutions(p, extend(p, b, i, k))) + tail(
            p,
            extend(p, b, i, k),
            frames.push((i, k)),
        ) == prefixed(picks(frames), branch(p, b, i, k)) + tail(p, b, frames),
        effort(p, extend(p, b, i, k)) + tail_effort(p, extend(p, b, i, k), frames.push((i, k)))
            < branch_effort(p, b, i, k) + tail_effort(p, b, frames),
{
    let f = (i, k);
    let o = p.options[k];
    let cs2 = extend(p, b, i, k);
    let fr2 = frames.push(f);
    lemma_pos_in(o, i);
    lemma_rotate(p, k, pos(o, i));
    assert(below(p, cs2, k) =~= b);
    assert(fr2.drop_last() =~= frames);
    assert(fr2.last() == f);
    lemma_room(p, b, i);
    lemma_picks_push(frames, f);
    let ss = solutions(p, cs2);
    let rest = branch(p, b, i, k + 1);
    lemma_prefixed_add(picks(frames), prefixed(seq![k], ss), rest);
    lemma_prefixed_twice(picks(frames), seq![k], ss);
    assert(branch(p, b, i, k) == prefixed(seq![k], ss) + rest);
    assert(tail(p, cs2, fr2) == prefixed(picks(frames), rest) + tail(p, b, frames));
    assert(prefixed(picks(fr2), ss) + tail(p, cs2, fr2) =~= prefixed(
        picks(frames),
        branch(p, b, i, k),
    ) + tail(p, b, frames));
}

/// The covered items as they were before an option was chosen are covered
/// items of the problem, none of them twice.
pub proof fn lemma_below_ok(p: Problem, cs: Seq<int>, k: int)
    requires
        stack_ok(p, cs),
        0 <= k < p.options.len(),
        p.options[k].len() <= cs.len(),
    ensures
        stack_ok(p, below(p, cs, k)),
{
    let b = below(p, cs, k);
    assert forall|a: int| 0 <= a < b.len() implies 1 <= #[trigger] b[a] <= p.items by {
        assert(b[a] == cs[a]);
    }
    assert forall|a: int, c: int| 0 <= a < b.len() && 0 <= c < b.len() && a != c implies b[a]
        != b[c] by {
        assert(b[a] == cs[a] && b[c] == cs[c]);
    }
}

/// While the search is at some level, what is to come below the level and
/// then from the levels above is the rest of the solutions of the problem
/// as it was before the search began.
pub proof fn lemma_frames_rest(p: Problem, cs: Seq<int>, frames: Seq<(int, int)>)
    requires
        p.valid(),
        stack_ok(p, cs),
        frames_ok(p, cs, frames),
    ensures
        stack_ok(p, roots(p, cs, frames)),
        is_rest(
            solutions(p, roots(p, cs, frames)),
            prefixed(picks(frames), solutions(p, cs)) + tail(p, cs, frames),
        ),
        is_rest(solutions(p, roots(p, cs, frames)), tail(p, cs, frames)),
    decreases frames.len(),
{
    let all = solutions(p, roots(p, cs, frames));
    let now = prefixed(picks(frames), solutions(p, cs));
    if frames.len() == 0 {
        assert(picks(frames) =~= Seq::<int>::empty());
        assert(now =~= solutions(p, cs)) by {
            assert forall|n: int| 0 <= n < solutions(p, cs).len() implies picks(frames) + solutions(
                p,
                cs,
            )[n] == solutions(p, cs)[n] by {
                assert(picks(frames) + solutions(p, cs)[n] =~= solutions(p, cs)[n]);
            }
        }
        assert(all.skip(0) =~= all);
        assert(is_rest(all, all));
        lemma_rest_add(all, all, tail(p, cs, frames));
        assert(all + tail(p, cs, frames) =~= all);
        assert(all.skip(all.len() as int) =~= tail(p, cs, frames));
    } else {
        let f = frames.last();
        let i = f.0;
        let k = f.1;
        let b = below(p, cs, k);
        let rest = frames.drop_last();
        let o = p.options[k];
        lemma_pos_in(o, i);
        lemma_rotate(p, k, pos(o, i));
        lemma_below_ok(p, cs, k);
        lemma_frames_rest(p, b, rest);
        lemma_room(p, b, i);
        lemma_branch_item(p, b, i);
        assert(frames =~= rest.push(f));
        lemma_picks_push(rest, f);
        let ss = solutions(p, cs);
        let later = branch(p, b, i, k + 1);
        let above = tail(p, b, rest);
        lemma_prefixed_add(picks(rest), prefixed(seq![k], ss), later);
        lemma_prefixed_twice(picks(rest), seq![k], ss);
        assert(branch(p, b, i, k) == prefixed(seq![k], ss) + later);
        assert(solutions(p, b) == branch(p, b, i, 0));
        // What is to come at this level and above it.
        let here = prefixed(picks(rest), branch(p, b, i, k)) + above;
        assert(now + tail(p, cs, frames) =~= here);
        lemma_branch_rest(p, b, i, k);
        lemma_rest_prefixed(picks(rest), solutions(p, b), branch(p, b, i, k));
        lemma_rest_add(
            prefixed(picks(rest), solutions(p, b)),
            prefixed(picks(rest), branch(p, b, i, k)),
            above,
        );
        lemma_rest_trans(all, prefixed(picks(rest), solutions(p, b)) + above, here);
        // What is to come above this level alone.
        assert(here.skip(now.len() as int) =~= tail(p, cs, frames));
        lemma_rest_trans(all, here, tail(p, cs, frames));
    }
}

/// While the search tries the options for an item, what is to come from
/// the options from `k` on and then from the levels above is the rest of
/// the solutions of the problem as it was before the search began.
pub proof fn lemma_trying_rest(p: Problem, b: Seq<int>, i: int, k: int, frames: Seq<(int, int)>)
    requires
        p.valid(),
        stack_ok(p, b),
        frames_ok(p, b, frames),
        is_branch_item(p, b, i),
        1 <= i <= p.items,
        0 <= k,
    ensures
        is_rest(
            solutions(p, roots(p, b, frames)),
            prefixed(picks(frames), branch(p, b, i, k)) + tail(p, b, frames),
        ),
{
    let all = solutions(p, roots(p, b, frames));
    lemma_frames_rest(p, b, frames);
    lemma_room(p, b, i);
    lemma_branch_item(p, b, i);
    assert(solutions(p, b) == branch(p, b, i, 0));
    lemma_branch_rest(p, b, i, k);
    lemma_rest_prefixed(picks(frames), solutions(p, b), branch(p, b, i, k));
    lemma_rest_add(
        prefixed(picks(frames), solutions(p, b)),
        prefixed(picks(frames), branch(p, b, i, k)),
        tail(p, b, frames),
    );
    lemma_rest_trans(
        all,
        prefixed(picks(frames), solutions(p, b)) + tail(p, b, frames),
        prefixed(picks(frames), branch(p, b, i, k)) + tail(p, b, frames),
    );
}

} // verus!
