//! What holds of the solutions that the search finds.

use vstd::prelude::*;
use crate::course::{lemma_pos_in, pos, stack_ok};
use crate::frames::{lemma_distinct_bounded, lemma_extend_ok, lemma_room, lemma_rotate};
use crate::problem::Problem;
use crate::search::{
    branch, branch_item, disjoint, done, extend, is_branch_item, open_item, prefixed, room, rotate,
    solutions, usable, width,
};

verus! {

/// The options of `s` are options of the problem that hold no covered item
/// and no item in common, and every primary item that is not covered is
/// held by one of them: with the covered items left aside, `s` covers every
/// primary item exactly once and every other item at most once.
pub open spec fn exact(p: Problem, cs: Seq<int>, s: Seq<int>) -> bool {
    &&& forall|j: int|
        0 <= j < s.len() ==> 0 <= #[trigger] s[j] < p.options.len() && disjoint(
            p.options[s[j]],
            cs,
        )
    &&& forall|j1: int, j2: int, i: int|
        0 <= j1 < j2 < s.len() ==> !(#[trigger] p.options[s[j1]].contains(i)
            && #[trigger] p.options[s[j2]].contains(i))
    &&& forall|i: int|
        #[trigger] open_item(p, cs, i) ==> exists|j: int|
            0 <= j < s.len() && #[trigger] p.options[s[j]].contains(i)
}

/// The option `k` holds a primary item that is not covered.
pub open spec fn has_open(p: Problem, cs: Seq<int>, k: int) -> bool {
    exists|i: int| #[trigger] open_item(p, cs, i) && p.options[k].contains(i)
}

/// Every option of `s` holds a primary item that is not covered.
pub open spec fn proper(p: Problem, cs: Seq<int>, s: Seq<int>) -> bool {
    forall|j: int| 0 <= j < s.len() ==> has_open(p, cs, #[trigger] s[j])
}

/// All of the sequences are exact covers, of options that each hold a
/// primary item.
pub open spec fn all_exact(p: Problem, cs: Seq<int>, ss: Seq<Seq<int>>) -> bool {
    forall|n: int| 0 <= n < ss.len() ==> exact(p, cs, #[trigger] ss[n]) && proper(p, cs, ss[n])
}

/// No two of the sequences have the same members.
pub open spec fn all_differ(ss: Seq<Seq<int>>) -> bool {
    forall|a: int, b: int|
        0 <= a < b < ss.len() ==> (#[trigger] ss[a]).to_set() != (#[trigger] ss[b]).to_set()
}

/// An item is covered after an option was chosen exactly if it was covered
/// before or the option holds it.
pub proof fn lemma_extend_contains(p: Problem, cs: Seq<int>, i: int, k: int, c: int)
    requires
        usable(p, cs, i, k),
    ensures
        extend(p, cs, i, k).contains(c) <==> cs.contains(c) || p.options[k].contains(c),
{
    let o = p.options[k];
    lemma_pos_in(o, i);
    let j = pos(o, i);
    let r = rotate(o, j);
    let e = extend(p, cs, i, k);
    if e.contains(c) {
        let a = choose|a: int| 0 <= a < e.len() && e[a] == c;
        if a < cs.len() {
            assert(cs[a] == c);
        } else {
            let b = a - cs.len();
            if b < o.len() - j {
                assert(o[j + b] == c);
            } else {
                assert(o[b - (o.len() - j)] == c);
            }
        }
    }
    if cs.contains(c) {
        let a = choose|a: int| 0 <= a < cs.len() && cs[a] == c;
        assert(e[a] == c);
    }
    if o.contains(c) {
        let a = choose|a: int| 0 <= a < o.len() && o[a] == c;
        if a >= j {
            assert(e[cs.len() + a - j] == c);
        } else {
            assert(e[cs.len() + (o.len() - j) + a] == c);
        }
    }
}

/// An option that can be chosen, followed by an exact cover of what is
/// left, is an exact cover.
pub proof fn lemma_exact_cons(p: Problem, cs: Seq<int>, i: int, k: int, s: Seq<int>)
    requires
        usable(p, cs, i, k),
        open_item(p, cs, i),
        exact(p, extend(p, cs, i, k), s),
        proper(p, extend(p, cs, i, k), s),
    ensures
        exact(p, cs, seq![k] + s),
        proper(p, cs, seq![k] + s),
        !s.contains(k),
{
    let e = extend(p, cs, i, k);
    let o = p.options[k];
    let t = seq![k] + s;
    assert forall|c: int| e.contains(c) <==> cs.contains(c) || o.contains(c) by {
        lemma_extend_contains(p, cs, i, k, c);
    }
    assert forall|j: int| 0 <= j < t.len() implies 0 <= #[trigger] t[j] < p.options.len()
        && disjoint(p.options[t[j]], cs) by {
        if j > 0 {
            assert(t[j] == s[j - 1]);
            assert(disjoint(p.options[s[j - 1]], e));
        }
    }
    assert forall|j1: int, j2: int, c: int| 0 <= j1 < j2 < t.len() implies !(
    #[trigger] p.options[t[j1]].contains(c) && #[trigger] p.options[t[j2]].contains(c)) by {
        assert(t[j2] == s[j2 - 1]);
        if j1 == 0 {
            assert(disjoint(p.options[s[j2 - 1]], e));
        } else {
            assert(t[j1] == s[j1 - 1]);
        }
    }
    assert forall|c: int| #[trigger] open_item(p, cs, c) implies exists|j: int|
        0 <= j < t.len() && #[trigger] p.options[t[j]].contains(c) by {
        if o.contains(c) {
            assert(p.options[t[0]].contains(c));
        } else {
            assert(open_item(p, e, c));
            let j = choose|j: int| 0 <= j < s.len() && #[trigger] p.options[s[j]].contains(c);
            assert(t[j + 1] == s[j]);
            assert(p.options[t[j + 1]].contains(c));
        }
    }
    assert forall|j: int| 0 <= j < t.len() implies has_open(p, cs, #[trigger] t[j]) by {
        if j == 0 {
            assert(open_item(p, cs, i) && p.options[t[0]].contains(i));
        } else {
            assert(t[j] == s[j - 1]);
            assert(has_open(p, e, s[j - 1]));
            let c = choose|c: int| #[trigger] open_item(p, e, c) && p.options[s[j - 1]].contains(c);
            assert(open_item(p, cs, c) && p.options[t[j]].contains(c));
        }
    }
    if s.contains(k) {
        let j = choose|j: int| 0 <= j < s.len() && s[j] == k;
        assert(disjoint(p.options[s[j]], e));
        assert(e.contains(i));
    }
}

/// Every solution that the search finds is an exact cover of options that
/// each hold a primary item, and no two solutions have the same options.
pub proof fn lemma_solutions(p: Problem, cs: Seq<int>)
    requires
        p.valid(),
        stack_ok(p, cs),
    ensures
        all_exact(p, cs, solutions(p, cs)),
        all_differ(solutions(p, cs)),
    decreases room(p, cs), 1int, 0int,
{
    if done(p, cs) {
        let s = Seq::<int>::empty();
        assert(solutions(p, cs)[0] == s);
    } else if room(p, cs) == 0 {
    } else {
        let i = choose|i: int| 1 <= i <= p.primary && !cs.contains(i);
        lemma_first_open(p, cs, i);
        let b = branch_item(p, cs);
        assert(is_branch_item(p, cs, b));
        lemma_branch(p, cs, b, 0);
        let ss = solutions(p, cs);
        assert forall|n: int| 0 <= n < ss.len() implies exact(p, cs, #[trigger] ss[n]) && proper(
            p,
            cs,
            ss[n],
        ) by {
            let s = ss[n];
            assert(begins(p, cs, b, 0, s));
            lemma_exact_cons(p, cs, b, s[0], s.drop_first());
            assert(seq![s[0]] + s.drop_first() =~= s);
        }
    }
}

/// While a primary item is not covered there is an item to branch on.
pub proof fn lemma_first_open(p: Problem, cs: Seq<int>, i: int)
    requires
        open_item(p, cs, i),
    ensures
        is_branch_item(p, cs, branch_item(p, cs)),
{
    let b = best_below(p, cs, p.primary as int);
    lemma_best_below(p, cs, p.primary as int);
    assert(is_branch_item(p, cs, b)) by {
        assert forall|i2: int| #[trigger] open_item(p, cs, i2) implies width(p, cs, b) <= width(
            p,
            cs,
            i2,
        ) && (i2 < b ==> width(p, cs, b) < width(p, cs, i2)) by {}
    }
}

/// The item to branch on among the first `n` items, or 0 if none of them
/// is a primary item that is not covered.
pub open spec fn best_below(p: Problem, cs: Seq<int>, n: int) -> int
    decreases n,
{
    if n <= 0 {
        0
    } else {
        let b = best_below(p, cs, n - 1);
        if open_item(p, cs, n) && (b == 0 || width(p, cs, n) < width(p, cs, b)) {
            n
        } else {
            b
        }
    }
}

/// The item to branch on among the first `n` items is the first of those
/// with the fewest options to choose from.
pub proof fn lemma_best_below(p: Problem, cs: Seq<int>, n: int)
    requires
        0 <= n <= p.primary,
    ensures
        best_below(p, cs, n) == 0 ==> forall|i: int| 1 <= i <= n ==> !#[trigger] open_item(p, cs, i),
        best_below(p, cs, n) != 0 ==> 1 <= best_below(p, cs, n) <= n && open_item(
            p,
            cs,
            best_below(p, cs, n),
        ),
        forall|i: int|
            1 <= i <= n && #[trigger] open_item(p, cs, i) ==> width(p, cs, best_below(p, cs, n))
                <= width(p, cs, i) && (i < best_below(p, cs, n) ==> width(
                p,
                cs,
                best_below(p, cs, n),
            ) < width(p, cs, i)),
    decreases n,
{
    if n > 0 {
        lemma_best_below(p, cs, n - 1);
    }
}

/// One find of a branch: the option `k`, which can be chosen for `i`,
/// followed by an exact cover of what is left.
pub open spec fn begins(p: Problem, cs: Seq<int>, i: int, k: int, s: Seq<int>) -> bool {
    &&& s.len() > 0
    &&& k <= s[0]
    &&& usable(p, cs, i, s[0])
    &&& exact(p, extend(p, cs, i, s[0]), s.drop_first())
    &&& proper(p, extend(p, cs, i, s[0]), s.drop_first())
}

/// Finds that begin with different options have different options.
pub proof fn lemma_differ_heads(p: Problem, cs: Seq<int>, i: int, a: Seq<int>, b: Seq<int>)
    requires
        open_item(p, cs, i),
        begins(p, cs, i, 0, a),
        begins(p, cs, i, 0, b),
        a[0] != b[0],
    ensures
        a.to_set() != b.to_set(),
{
    let k = a[0];
    assert(a.to_set().contains(k));
    if b.to_set().contains(k) {
        let j = choose|j: int| 0 <= j < b.len() && b[j] == k;
        let k2 = b[0];
        let tail = b.drop_first();
        assert(tail[j - 1] == k);
        let e2 = extend(p, cs, i, k2);
        lemma_extend_contains(p, cs, i, k2, i);
        assert(disjoint(p.options[tail[j - 1]], e2));
    }
}

/// Finds that begin with the same option and go on with different options
/// have different options.
pub proof fn lemma_differ_tails(p: Problem, cs: Seq<int>, i: int, k: int, a: Seq<int>, b: Seq<int>)
    requires
        open_item(p, cs, i),
        usable(p, cs, i, k),
        exact(p, extend(p, cs, i, k), a),
        proper(p, extend(p, cs, i, k), a),
        exact(p, extend(p, cs, i, k), b),
        proper(p, extend(p, cs, i, k), b),
        a.to_set() != b.to_set(),
    ensures
        (seq![k] + a).to_set() != (seq![k] + b).to_set(),
{
    lemma_exact_cons(p, cs, i, k, a);
    lemma_exact_cons(p, cs, i, k, b);
    lemma_cons_sets(k, a, b);
}

/// What the search finds by choosing for the item `i` an option from `k`
/// on: each find begins with such an option and goes on with an exact cover
/// of what is left, and no two finds have the same options.
pub proof fn lemma_branch(p: Problem, cs: Seq<int>, i: int, k: int)
    requires
        p.valid(),
        stack_ok(p, cs),
        open_item(p, cs, i),
        0 <= k,
    ensures
        forall|n: int|
            0 <= n < branch(p, cs, i, k).len() ==> begins(p, cs, i, k, #[trigger] branch(p, cs, i, k)[n]),
        all_differ(branch(p, cs, i, k)),
    decreases room(p, cs), 0int, p.options.len() - k,
{
    if k >= p.options.len() || room(p, cs) == 0 {
    } else if usable(p, cs, i, k) {
        let e = extend(p, cs, i, k);
        let o = p.options[k];
        assert(stack_ok(p, e) && room(p, e) < room(p, cs)) by {
            lemma_pos_in(o, i);
            lemma_rotate(p, k, pos(o, i));
            lemma_extend_ok(p, cs, i, k, o.len() as int);
            assert(rotate(o, pos(o, i)).take(o.len() as int) =~= rotate(o, pos(o, i)));
            lemma_room(p, cs, i);
        }
        lemma_solutions(p, e);
        lemma_branch(p, cs, i, k + 1);
        let sols = solutions(p, e);
        let here = prefixed(seq![k], sols);
        let rest = branch(p, cs, i, k + 1);
        let ss = here + rest;
        assert(branch(p, cs, i, k) == ss);
        assert forall|n: int| 0 <= n < ss.len() implies begins(p, cs, i, k, #[trigger] ss[n]) by {
            if n < here.len() {
                assert(ss[n] == seq![k] + sols[n]);
                assert(ss[n].drop_first() =~= sols[n]);
                assert(exact(p, e, sols[n]) && proper(p, e, sols[n]));
            } else {
                assert(ss[n] == rest[n - here.len()]);
                assert(begins(p, cs, i, k + 1, rest[n - here.len()]));
            }
        }
        assert forall|a: int, b: int| 0 <= a < b < ss.len() implies (#[trigger] ss[a]).to_set() != (
        #[trigger] ss[b]).to_set() by {
            if b < here.len() {
                assert(ss[a] == seq![k] + sols[a] && ss[b] == seq![k] + sols[b]);
                assert(exact(p, e, sols[a]) && proper(p, e, sols[a]));
                assert(exact(p, e, sols[b]) && proper(p, e, sols[b]));
                lemma_differ_tails(p, cs, i, k, sols[a], sols[b]);
            } else if a < here.len() {
                assert(begins(p, cs, i, k, ss[a]));
                assert(ss[b] == rest[b - here.len()]);
                assert(begins(p, cs, i, k + 1, rest[b - here.len()]));
                assert(ss[a] == seq![k] + sols[a]);
                lemma_differ_heads(p, cs, i, ss[a], ss[b]);
            } else {
                assert(ss[a] == rest[a - here.len()] && ss[b] == rest[b - here.len()]);
            }
        }
    } else {
        lemma_branch(p, cs, i, k + 1);
    }
}

/// Two sequences with different members, neither with `k` among them, have
/// different members with `k` in front.
pub proof fn lemma_cons_sets(k: int, a: Seq<int>, b: Seq<int>)
    requires
        a.to_set() != b.to_set(),
        !a.contains(k),
        !b.contains(k),
    ensures
        (seq![k] + a).to_set() != (seq![k] + b).to_set(),
{
    let ka = seq![k] + a;
    let kb = seq![k] + b;
    if ka.to_set() == kb.to_set() {
        assert forall|x: int| a.to_set().contains(x) <==> b.to_set().contains(x) by {
            if a.contains(x) {
                let j = choose|j: int| 0 <= j < a.len() && a[j] == x;
                assert(ka[j + 1] == x);
                assert(ka.to_set().contains(x));
                assert(kb.contains(x));
                let j2 = choose|j2: int| 0 <= j2 < kb.len() && kb[j2] == x;
                assert(j2 > 0);
                assert(b[j2 - 1] == x);
            }
            if b.contains(x) {
                let j = choose|j: int| 0 <= j < b.len() && b[j] == x;
                assert(kb[j + 1] == x);
                assert(kb.to_set().contains(x));
                assert(ka.contains(x));
                let j2 = choose|j2: int| 0 <= j2 < ka.len() && ka[j2] == x;
                assert(j2 > 0);
                assert(a[j2 - 1] == x);
            }
        }
        assert(a.to_set() =~= b.to_set());
    }
}

/// The set `e` of options is an exact cover with the covered items left
/// aside: its options hold no covered item and no item in common, every
/// primary item that is not covered is held by one of them, and each of them
/// holds such an item.
pub open spec fn covers(p: Problem, cs: Seq<int>, e: Set<int>) -> bool {
    &&& e.finite()
    &&& forall|k: int|
        #[trigger] e.contains(k) ==> 0 <= k < p.options.len() && disjoint(p.options[k], cs)
            && has_open(p, cs, k)
    &&& forall|k1: int, k2: int, i: int|
        e.contains(k1) && e.contains(k2) && k1 != k2 ==> !(#[trigger] p.options[k1].contains(i)
            && #[trigger] p.options[k2].contains(i))
    &&& forall|i: int|
        #[trigger] open_item(p, cs, i) ==> exists|k: int|
            e.contains(k) && #[trigger] p.options[k].contains(i)
}

/// The options of an exact cover, as a set, are an exact cover.
pub proof fn lemma_exact_covers(p: Problem, cs: Seq<int>, s: Seq<int>)
    requires
        exact(p, cs, s),
        proper(p, cs, s),
    ensures
        covers(p, cs, s.to_set()),
{
    let e = s.to_set();
    vstd::seq_lib::seq_to_set_is_finite(s);
    assert forall|k: int| #[trigger] e.contains(k) implies 0 <= k < p.options.len() && disjoint(
        p.options[k],
        cs,
    ) && has_open(p, cs, k) by {
        let j = choose|j: int| 0 <= j < s.len() && s[j] == k;
        assert(has_open(p, cs, s[j]));
    }
    assert forall|k1: int, k2: int, i: int|
        e.contains(k1) && e.contains(k2) && k1 != k2 implies !(#[trigger] p.options[k1].contains(i)
        && #[trigger] p.options[k2].contains(i)) by {
        let j1 = choose|j: int| 0 <= j < s.len() && s[j] == k1;
        let j2 = choose|j: int| 0 <= j < s.len() && s[j] == k2;
        if j1 < j2 {
            assert(!(p.options[s[j1]].contains(i) && p.options[s[j2]].contains(i)));
        } else {
            assert(!(p.options[s[j2]].contains(i) && p.options[s[j1]].contains(i)));
        }
    }
    assert forall|i: int| #[trigger] open_item(p, cs, i) implies exists|k: int|
        e.contains(k) && #[trigger] p.options[k].contains(i) by {
        let j = choose|j: int| 0 <= j < s.len() && #[trigger] p.options[s[j]].contains(i);
        assert(e.contains(s[j]));
    }
}

/// What the search finds below an option that can be chosen is among what
/// it finds for the item.
pub proof fn lemma_branch_has(p: Problem, cs: Seq<int>, i: int, from: int, k: int, n: int) -> (r:
    int)
    requires
        0 <= from <= k,
        usable(p, cs, i, k),
        room(p, cs) > 0,
        0 <= n < solutions(p, extend(p, cs, i, k)).len(),
    ensures
        0 <= r < branch(p, cs, i, from).len(),
        branch(p, cs, i, from)[r] == seq![k] + solutions(p, extend(p, cs, i, k))[n],
    decreases k - from,
{
    if from == k {
        n
    } else {
        let r = lemma_branch_has(p, cs, i, from + 1, k, n);
        if usable(p, cs, i, from) {
            prefixed(seq![from], solutions(p, extend(p, cs, i, from))).len() + r
        } else {
            r
        }
    }
}

/// Every exact cover is found: its options are the options of one of the
/// solutions.
pub proof fn lemma_complete(p: Problem, cs: Seq<int>, e: Set<int>) -> (n: int)
    requires
        p.valid(),
        stack_ok(p, cs),
        covers(p, cs, e),
    ensures
        0 <= n < solutions(p, cs).len(),
        solutions(p, cs)[n].to_set() == e,
    decreases room(p, cs),
{
    if done(p, cs) {
        assert(e =~= Set::<int>::empty()) by {
            if exists|k: int| e.contains(k) {
                let k = choose|k: int| e.contains(k);
                assert(has_open(p, cs, k));
            }
        }
        assert(solutions(p, cs)[0].to_set() =~= e);
        0
    } else {
        let i0 = choose|i: int| 1 <= i <= p.primary && !cs.contains(i);
        lemma_first_open(p, cs, i0);
        let i = branch_item(p, cs);
        assert(is_branch_item(p, cs, i));
        lemma_room(p, cs, i);
        let k = choose|k: int| e.contains(k) && #[trigger] p.options[k].contains(i);
        let o = p.options[k];
        let x = extend(p, cs, i, k);
        assert(usable(p, cs, i, k));
        assert(stack_ok(p, x) && room(p, x) < room(p, cs)) by {
            lemma_pos_in(o, i);
            lemma_rotate(p, k, pos(o, i));
            lemma_extend_ok(p, cs, i, k, o.len() as int);
            assert(rotate(o, pos(o, i)).take(o.len() as int) =~= rotate(o, pos(o, i)));
        }
        let e2 = e.remove(k);
        assert forall|c: int| x.contains(c) <==> cs.contains(c) || o.contains(c) by {
            lemma_extend_contains(p, cs, i, k, c);
        }
        assert(covers(p, x, e2)) by {
            assert forall|k2: int| #[trigger] e2.contains(k2) implies 0 <= k2 < p.options.len()
                && disjoint(p.options[k2], x) && has_open(p, x, k2) by {
                assert(e.contains(k2));
                assert(has_open(p, cs, k2));
                let c = choose|c: int| #[trigger] open_item(p, cs, c) && p.options[k2].contains(c);
                assert(!(p.options[k2].contains(c) && p.options[k].contains(c)));
                assert(open_item(p, x, c));
                assert forall|c2: int| p.options[k2].contains(c2) implies !x.contains(c2) by {
                    assert(!(p.options[k2].contains(c2) && p.options[k].contains(c2)));
                }
            }
            assert forall|c: int| #[trigger] open_item(p, x, c) implies exists|k2: int|
                e2.contains(k2) && #[trigger] p.options[k2].contains(c) by {
                assert(open_item(p, cs, c));
                let k2 = choose|k2: int| e.contains(k2) && #[trigger] p.options[k2].contains(c);
                assert(e2.contains(k2));
            }
        }
        let n2 = lemma_complete(p, x, e2);
        let s2 = solutions(p, x)[n2];
        let n = lemma_branch_has(p, cs, i, 0, k, n2);
        let s = seq![k] + s2;
        assert(s.to_set() =~= e) by {
            assert forall|y: int| s.to_set().contains(y) <==> e.contains(y) by {
                if s.contains(y) {
                    let j = choose|j: int| 0 <= j < s.len() && s[j] == y;
                    if j > 0 {
                        assert(s2[j - 1] == y);
                        assert(s2.to_set().contains(y));
                    }
                }
                if e.contains(y) {
                    if y == k {
                        assert(s[0] == k);
                    } else {
                        assert(e2.contains(y));
                        assert(s2.to_set().contains(y));
                        let j = choose|j: int| 0 <= j < s2.len() && s2[j] == y;
                        assert(s[j + 1] == y);
                    }
                }
            }
        }
        n
    }
}

/// `q` holds the options of `p` in another order: option `k` of `p` is
/// option `to[k]` of `q`, and option `k` of `q` is option `back[k]` of `p`.
pub open spec fn reordered(p: Problem, q: Problem, to: Seq<int>, back: Seq<int>) -> bool {
    &&& p.primary == q.primary
    &&& p.items == q.items
    &&& p.options.len() == q.options.len()
    &&& to.len() == p.options.len()
    &&& back.len() == p.options.len()
    &&& forall|k: int|
        0 <= k < to.len() ==> 0 <= #[trigger] to[k] < to.len() && back[to[k]] == k
            && q.options[to[k]] == p.options[k]
    &&& forall|k: int| 0 <= k < back.len() ==> 0 <= #[trigger] back[k] < back.len() && to[back[k]] == k
}

/// An exact cover of a problem is one of the problem with its options in
/// another order, option by option.
pub proof fn lemma_covers_reordered(
    p: Problem,
    q: Problem,
    to: Seq<int>,
    back: Seq<int>,
    cs: Seq<int>,
    e: Set<int>,
)
    requires
        reordered(p, q, to, back),
        covers(p, cs, e),
    ensures
        covers(q, cs, e.map(|k: int| to[k])),
        forall|k: int| e.contains(k) <==> e.map(|k: int| to[k]).contains(#[trigger] to[k]) && 0 <= k
            < to.len(),
{
    let f = |k: int| to[k];
    let e2 = e.map(f);
    e.lemma_map_finite(f);
    assert forall|k: int| e.contains(k) <==> e2.contains(#[trigger] to[k]) && 0 <= k
        < to.len() by {
        if e.contains(k) {
            assert(e2.contains(f(k)));
        }
        if e2.contains(to[k]) && 0 <= k < to.len() {
            let k0 = choose|k0: int| e.contains(k0) && f(k0) == to[k];
            assert(back[to[k0]] == k0 && back[to[k]] == k);
        }
    }
    assert forall|k2: int| #[trigger] e2.contains(k2) implies 0 <= k2 < q.options.len()
        && disjoint(q.options[k2], cs) && has_open(q, cs, k2) by {
        let k = choose|k: int| e.contains(k) && f(k) == k2;
        assert(has_open(p, cs, k));
        let c = choose|c: int| #[trigger] open_item(p, cs, c) && p.options[k].contains(c);
        assert(open_item(q, cs, c) && q.options[k2].contains(c));
    }
    assert forall|k1: int, k2: int, i: int|
        e2.contains(k1) && e2.contains(k2) && k1 != k2 implies !(#[trigger] q.options[k1].contains(i)
        && #[trigger] q.options[k2].contains(i)) by {
        let a = choose|k: int| e.contains(k) && f(k) == k1;
        let b = choose|k: int| e.contains(k) && f(k) == k2;
        assert(!(p.options[a].contains(i) && p.options[b].contains(i)));
    }
    assert forall|i: int| #[trigger] open_item(q, cs, i) implies exists|k: int|
        e2.contains(k) && #[trigger] q.options[k].contains(i) by {
        assert(open_item(p, cs, i));
        let k = choose|k: int| e.contains(k) && #[trigger] p.options[k].contains(i);
        assert(e2.contains(f(k)));
        assert(q.options[to[k]].contains(i));
    }
}

/// A problem has at most as many solutions as the problem with its options
/// in another order.
pub proof fn lemma_count_le(
    p: Problem,
    q: Problem,
    to: Seq<int>,
    back: Seq<int>,
    cs: Seq<int>,
)
    requires
        p.valid(),
        q.valid(),
        stack_ok(p, cs),
        reordered(p, q, to, back),
    ensures
        solutions(p, cs).len() <= solutions(q, cs).len(),
{
    let ss = solutions(p, cs);
    let tt = solutions(q, cs);
    lemma_solutions(p, cs);
    let f = |k: int| to[k];
    let pick = |n: int| choose|m: int| 0 <= m < tt.len() && tt[m].to_set() == ss[n].to_set().map(f);
    let image = Seq::new(ss.len(), pick);
    assert forall|n: int| 0 <= n < ss.len() implies 0 <= #[trigger] image[n] < tt.len()
        && tt[image[n]].to_set() == ss[n].to_set().map(f) by {
        lemma_exact_covers(p, cs, ss[n]);
        lemma_covers_reordered(p, q, to, back, cs, ss[n].to_set());
        let m = lemma_complete(q, cs, ss[n].to_set().map(f));
    }
    assert forall|a: int, b: int| 0 <= a < image.len() && 0 <= b < image.len() && a != b implies image[a]
        != image[b] by {
        if image[a] == image[b] {
            let ea = ss[a].to_set();
            let eb = ss[b].to_set();
            lemma_exact_covers(p, cs, ss[a]);
            lemma_exact_covers(p, cs, ss[b]);
            lemma_covers_reordered(p, q, to, back, cs, ea);
            lemma_covers_reordered(p, q, to, back, cs, eb);
            assert(ea.map(f) == eb.map(f));
            assert forall|k: int| ea.contains(k) <==> eb.contains(k) by {
                if ea.contains(k) {
                    assert(ea.map(f).contains(to[k]));
                }
                if eb.contains(k) {
                    assert(eb.map(f).contains(to[k]));
                }
            }
            assert(ea =~= eb);
            if a < b {
                assert(ss[a].to_set() != ss[b].to_set());
            } else {
                assert(ss[b].to_set() != ss[a].to_set());
            }
        }
    }
    lemma_distinct_bounded(image, 0, tt.len() as int);
}

/// The number of solutions does not depend on the order in which the
/// options were added.
pub proof fn lemma_count_order(
    p: Problem,
    q: Problem,
    to: Seq<int>,
    back: Seq<int>,
    cs: Seq<int>,
)
    requires
        p.valid(),
        q.valid(),
        stack_ok(p, cs),
        reordered(p, q, to, back),
    ensures
        solutions(p, cs).len() == solutions(q, cs).len(),
{
    lemma_count_le(p, q, to, back, cs);
    assert(reordered(q, p, back, to));
    assert(stack_ok(q, cs));
    lemma_count_le(q, p, back, to, cs);
}

/// Without options, a problem with a primary item has no solution.
pub proof fn lemma_no_options(p: Problem)
    requires
        p.valid(),
        p.options.len() == 0,
        p.primary > 0,
    ensures
        solutions(p, Seq::empty()) == Seq::<Seq<int>>::empty(),
{
    let cs = Seq::<int>::empty();
    assert(!cs.contains(1));
    assert(!done(p, cs));
    assert(solutions(p, cs) =~= Seq::<Seq<int>>::empty());
}

/// Without primary items, a problem has one solution: no option at all.
pub proof fn lemma_no_primary(p: Problem, cs: Seq<int>)
    requires
        p.primary == 0,
    ensures
        solutions(p, cs) == seq![Seq::<int>::empty()],
{
}

/// An option without items is in no solution.
pub proof fn lemma_no_empty_option(p: Problem, cs: Seq<int>, n: int, j: int)
    requires
        p.valid(),
        stack_ok(p, cs),
        0 <= n < solutions(p, cs).len(),
        0 <= j < solutions(p, cs)[n].len(),
    ensures
        p.options[solutions(p, cs)[n][j]].len() > 0,
{
    lemma_solutions(p, cs);
    let s = solutions(p, cs)[n];
    assert(exact(p, cs, s) && proper(p, cs, s));
    assert(has_open(p, cs, s[j]));
}

/// In every solution, every primary item that is not covered is held by
/// exactly one of the options, no item is held by two of them, and no
/// covered item is held by any of them.
pub proof fn lemma_covered_once(p: Problem, cs: Seq<int>, n: int, i: int)
    requires
        p.valid(),
        stack_ok(p, cs),
        0 <= n < solutions(p, cs).len(),
    ensures
        open_item(p, cs, i) ==> exists|j: int|
            0 <= j < solutions(p, cs)[n].len() && #[trigger] p.options[solutions(p, cs)[n][j]].contains(
                i,
            ),
        forall|j1: int, j2: int|
            0 <= j1 < solutions(p, cs)[n].len() && 0 <= j2 < solutions(p, cs)[n].len() && j1 != j2
                ==> !(#[trigger] p.options[solutions(p, cs)[n][j1]].contains(i)
                && #[trigger] p.options[solutions(p, cs)[n][j2]].contains(i)),
        cs.contains(i) ==> forall|j: int|
            0 <= j < solutions(p, cs)[n].len() ==> !#[trigger] p.options[solutions(p, cs)[n][j]].contains(
                i,
            ),
{
    lemma_solutions(p, cs);
    let s = solutions(p, cs)[n];
    assert(exact(p, cs, s));
    assert forall|j1: int, j2: int|
        0 <= j1 < s.len() && 0 <= j2 < s.len() && j1 != j2 implies !(#[trigger] p.options[s[j1]].contains(
        i,
    ) && #[trigger] p.options[s[j2]].contains(i)) by {
        if j1 < j2 {
            assert(!(p.options[s[j1]].contains(i) && p.options[s[j2]].contains(i)));
        } else {
            assert(!(p.options[s[j2]].contains(i) && p.options[s[j1]].contains(i)));
        }
    }
    if cs.contains(i) {
        assert forall|j: int| 0 <= j < s.len() implies !#[trigger] p.options[s[j]].contains(i) by {
            assert(disjoint(p.options[s[j]], cs));
        }
    }
}

/// The problem with one more option, without items, as its option `j`.
pub open spec fn with_blank(p: Problem, j: int) -> Problem {
    Problem {
        options: Seq::new(
            p.options.len() + 1,
            |k: int|
                if k < j {
                    p.options[k]
                } else if k == j {
                    Seq::empty()
                } else {
                    p.options[k - 1]
                },
        ),
        ..p
    }
}

/// The number that option `k` has once an option stands in front of
/// option `j`.
pub open spec fn past(j: int, k: int) -> int {
    if k < j {
        k
    } else {
        k + 1
    }
}

/// The number that option `k` had before an option came to stand as
/// option `j`; the new option itself counts as the one behind it.
pub open spec fn back(j: int, k: int) -> int {
    if k <= j {
        k
    } else {
        k - 1
    }
}

/// The same options, by the numbers they have once an option stands in
/// front of option `j`.
pub open spec fn moved(j: int, s: Seq<int>) -> Seq<int> {
    Seq::new(s.len(), |n: int| past(j, s[n]))
}

/// Each of the sequences of options, by their new numbers.
pub open spec fn all_moved(j: int, ss: Seq<Seq<int>>) -> Seq<Seq<int>> {
    Seq::new(ss.len(), |n: int| moved(j, ss[n]))
}

/// An option without items leaves every item with as many options to
/// choose from as before.
pub proof fn lemma_blank_choices(p: Problem, j: int, cs: Seq<int>, i: int, b: int)
    requires
        0 <= j <= p.options.len(),
        0 <= b <= p.options.len() + 1,
    ensures
        crate::search::choices(with_blank(p, j), cs, i, b) == crate::search::choices(
            p,
            cs,
            i,
            back(j, b),
        ),
    decreases b,
{
    if b > 0 {
        lemma_blank_choices(p, j, cs, i, b - 1);
        let q = with_blank(p, j);
        if b - 1 == j {
            assert(!q.options[j].contains(i));
        } else {
            assert(q.options[b - 1] == p.options[back(j, b - 1)]);
        }
    }
}

/// An option without items leaves the item to branch on as it is.
pub proof fn lemma_blank_item(p: Problem, j: int, cs: Seq<int>)
    requires
        0 <= j <= p.options.len(),
        !done(p, cs),
    ensures
        branch_item(with_blank(p, j), cs) == branch_item(p, cs),
        is_branch_item(p, cs, branch_item(p, cs)),
{
    let q = with_blank(p, j);
    let i0 = choose|i: int| 1 <= i <= p.primary && !cs.contains(i);
    lemma_first_open(p, cs, i0);
    let b = branch_item(p, cs);
    assert forall|i: int| width(q, cs, i) == width(p, cs, i) by {
        lemma_blank_choices(p, j, cs, i, p.options.len() as int + 1);
    }
    assert(is_branch_item(q, cs, b)) by {
        assert forall|i2: int| #[trigger] open_item(q, cs, i2) implies width(q, cs, b) <= width(
            q,
            cs,
            i2,
        ) && (i2 < b ==> width(q, cs, b) < width(q, cs, i2)) by {
            assert(open_item(p, cs, i2));
        }
    }
    crate::search::lemma_branch_item(q, cs, b);
}

/// An option without items changes no solution: the problem with such an
/// option among its options has the solutions of the problem without it, in
/// the same order, made of the same options by their new numbers.
pub proof fn lemma_blank_option(p: Problem, j: int, cs: Seq<int>)
    requires
        0 <= j <= p.options.len(),
    ensures
        solutions(with_blank(p, j), cs) == all_moved(j, solutions(p, cs)),
        solutions(with_blank(p, j), cs).len() == solutions(p, cs).len(),
        forall|n: int, m: int|
            0 <= n < solutions(with_blank(p, j), cs).len() && 0 <= m < solutions(
                with_blank(p, j),
                cs,
            )[n].len() ==> #[trigger] solutions(with_blank(p, j), cs)[n][m] != j,
    decreases room(p, cs), 1int, 0int,
{
    let q = with_blank(p, j);
    let ss = solutions(p, cs);
    if done(p, cs) {
        assert(moved(j, Seq::<int>::empty()) =~= Seq::<int>::empty());
        assert(solutions(q, cs) =~= all_moved(j, ss));
    } else if room(p, cs) == 0 {
        assert(solutions(q, cs) =~= all_moved(j, ss));
    } else {
        lemma_blank_item(p, j, cs);
        lemma_blank_branch(p, j, cs, branch_item(p, cs), 0);
    }
}

/// What the search finds for an item from option `k` on, with an option
/// without items among the options, is what it finds without that option.
pub proof fn lemma_blank_branch(p: Problem, j: int, cs: Seq<int>, i: int, k: int)
    requires
        0 <= j <= p.options.len(),
        0 <= k,
    ensures
        branch(with_blank(p, j), cs, i, k) == all_moved(j, branch(p, cs, i, back(j, k))),
    decreases room(p, cs), 0int, p.options.len() + 1 - k,
{
    let q = with_blank(p, j);
    let kp = back(j, k);
    if k >= p.options.len() + 1 || room(p, cs) == 0 {
        assert(branch(q, cs, i, k) =~= all_moved(j, branch(p, cs, i, kp)));
    } else if k == j {
        assert(!q.options[j].contains(i));
        lemma_blank_branch(p, j, cs, i, k + 1);
    } else {
        assert(q.options[k] == p.options[kp]);
        assert(past(j, kp) == k);
        assert(back(j, k + 1) == kp + 1);
        lemma_blank_branch(p, j, cs, i, k + 1);
        if usable(p, cs, i, kp) {
            let o = p.options[kp];
            let e = extend(p, cs, i, kp);
            lemma_pos_in(o, i);
            lemma_rotate(p, kp, pos(o, i));
            assert(extend(q, cs, i, k) == e);
            lemma_blank_option(p, j, e);
            let found = solutions(p, e);
            let later = branch(p, cs, i, kp + 1);
            let here = prefixed(seq![kp], found);
            assert(branch(p, cs, i, kp) == here + later);
            let left = prefixed(seq![k], all_moved(j, found)) + all_moved(j, later);
            let right = all_moved(j, here + later);
            assert(left.len() == right.len());
            assert forall|n: int| 0 <= n < left.len() implies left[n] == right[n] by {
                if n < found.len() {
                    assert(seq![k] + moved(j, found[n]) =~= moved(j, seq![kp] + found[n]));
                }
            }
            assert(left =~= right);
        }
    }
}

} // verus!
