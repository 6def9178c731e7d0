//! How a problem is laid out in the arena: the header and the items first,
//! then the root spacer, then each option's elements closed by a spacer.

use vstd::prelude::*;
use crate::link::{Link, OptionElement, Spacer};
use crate::mesh::{
    column_ok, counts, downs, is_above, is_below, is_left, is_right, item_ok, lefts,
    lemma_rings_append, lemma_rings_pad, links_ok, node_ok, owners, rights, same_shape, static_ok,
    ups,
};
use crate::problem::Problem;

verus! {

/// Spacer `k` stands in its place and in the ring of spacers.
pub open spec fn spacer_ok(m: Seq<Link>, p: Problem, k: int) -> bool {
    let last = p.options.len() as int;
    &&& m[p.spacer(k)] is Spacer
    &&& m[p.spacer(k)].up() == p.spacer(
        if k == 0 {
            last
        } else {
            k - 1
        },
    )
    &&& m[p.spacer(k)].down() == p.spacer(
        if k == last {
            0
        } else {
            k + 1
        },
    )
}

/// The `j`-th element of option `k` stands in its place and belongs to its item.
pub open spec fn element_ok(m: Seq<Link>, p: Problem, k: int, j: int) -> bool {
    m[p.node(k, j)] is OptionElement && m[p.node(k, j)].owner() == p.options[k][j]
}

/// All spacers and option elements of the problem stand in their places.
pub open spec fn rows_ok(m: Seq<Link>, p: Problem) -> bool {
    &&& forall|k: int| 0 <= k <= p.options.len() ==> #[trigger] spacer_ok(m, p, k)
    &&& forall|k: int, j: int|
        0 <= k < p.options.len() && 0 <= j < p.options[k].len() ==> #[trigger] element_ok(
            m,
            p,
            k,
            j,
        )
}

/// The arena holds the problem, and nothing else.
pub open spec fn laid_out(m: Seq<Link>, p: Problem) -> bool {
    &&& m.len() == p.size()
    &&& m[0].up() == 0
    &&& m[0].down() == 0
    &&& m[0].count() == 0
    &&& rows_ok(m, p)
}

/// The mesh of the problem with nothing covered.
pub open spec fn is_base(m: Seq<Link>, p: Problem) -> bool {
    p.valid() && laid_out(m, p) && links_ok(m, p.items as int, Set::empty(), Set::empty())
}

/// The mesh of the problem with nothing covered: there is only one.
pub open spec fn base(p: Problem) -> Seq<Link> {
    choose|m: Seq<Link>| is_base(m, p)
}

/// A mesh of the same build as one that holds the problem holds it too.
pub proof fn lemma_rows_carry(a: Seq<Link>, b: Seq<Link>, p: Problem)
    requires
        same_shape(a, b),
        rows_ok(b, p),
        b.len() == p.size(),
        forall|z: int| 0 <= z < b.len() ==> (#[trigger] b[z] is Item <==> z <= p.items),
    ensures
        rows_ok(a, p),
{
    assert forall|k: int| 0 <= k <= p.options.len() implies #[trigger] spacer_ok(a, p, k) by {
        assert(spacer_ok(b, p, k));
        p.lemma_spacer_order(k, p.options.len() as int);
        let _ = a[p.spacer(k)];
    }
    assert forall|k: int, j: int|
        0 <= k < p.options.len() && 0 <= j < p.options[k].len() implies #[trigger] element_ok(
        a,
        p,
        k,
        j,
    ) by {
        assert(element_ok(b, p, k, j));
        p.lemma_spacer_order(k + 1, p.options.len() as int);
        p.lemma_spacer_step(k);
        let z = p.node(k, j);
        let _ = a[z];
        assert(owners(a)[z] == a[z].owner());
        assert(owners(b)[z] == b[z].owner());
        p.lemma_spacer_order(0, k);
    }
}

/// The nearest linked nodes of a place are determined.
pub proof fn lemma_nearest_unique(
    tops: Seq<int>,
    hid: Set<int>,
    t: int,
    x: int,
    a: int,
    b: int,
)
    requires
        0 <= t < tops.len(),
        tops[t] != t || t == 0,
    ensures
        is_below(tops, hid, t, x, a) && is_below(tops, hid, t, x, b) ==> a == b,
        is_above(tops, hid, t, x, a) && is_above(tops, hid, t, x, b) ==> a == b,
{
}

/// The nearest items in the list are determined.
pub proof fn lemma_neighbour_unique(n: int, cov: Set<int>, x: int, a: int, b: int)
    ensures
        is_right(n, cov, x, a) && is_right(n, cov, x, b) ==> a == b,
        is_left(n, cov, x, a) && is_left(n, cov, x, b) ==> a == b,
{
}

/// A problem has only one mesh with nothing covered.
pub proof fn lemma_base_unique(a: Seq<Link>, b: Seq<Link>, p: Problem)
    requires
        is_base(a, p),
        is_base(b, p),
    ensures
        a == b,
{
    let n = p.items as int;
    let e = Set::<int>::empty();
    assert forall|z: int| 0 <= z < a.len() implies a[z] == b[z] by {
        let _ = b[z];
        if z <= n {
            assert(a[z] is Item && b[z] is Item);
            assert(lefts(a)[z] == a[z].left() && lefts(b)[z] == b[z].left());
            assert(rights(a)[z] == a[z].right() && rights(b)[z] == b[z].right());
            if z == 0 {
                lemma_neighbour_unique(n, e, 0, a[z].right(), b[z].right());
                lemma_neighbour_unique(n, e, n + 1, a[z].left(), b[z].left());
            } else {
                assert(item_ok(lefts(a), rights(a), n, e, z));
                assert(item_ok(lefts(b), rights(b), n, e, z));
                lemma_neighbour_unique(n, e, z, a[z].right(), b[z].right());
                lemma_neighbour_unique(n, e, z, a[z].left(), b[z].left());
                lemma_owners_same(a, b, p);
                let tops = owners(a);
                assert(column_ok(tops, ups(a), downs(a), counts(a), e, z));
                assert(column_ok(tops, ups(b), downs(b), counts(b), e, z));
                assert(ups(a)[z] == a[z].up() && ups(b)[z] == b[z].up());
                assert(downs(a)[z] == a[z].down() && downs(b)[z] == b[z].down());
                assert(counts(a)[z] == a[z].count() && counts(b)[z] == b[z].count());
                assert(tops[z] == 0);
                lemma_nearest_unique(tops, e, z, z, a[z].down(), b[z].down());
                lemma_nearest_unique(tops, e, z, tops.len() as int, a[z].up(), b[z].up());
            }
        } else if z == n + 1 {
            assert(spacer_ok(a, p, 0) && spacer_ok(b, p, 0));
        } else {
            let (k, j) = p.lemma_locate(z);
            if p.at(z, k, j) {
                assert(element_ok(a, p, k, j) && element_ok(b, p, k, j));
                lemma_owners_same(a, b, p);
                let tops = owners(a);
                let t = a[z].owner();
                assert(tops[z] == t);
                assert(node_ok(tops, ups(a), downs(a), e, z));
                assert(node_ok(tops, ups(b), downs(b), e, z));
                assert(ups(a)[z] == a[z].up() && ups(b)[z] == b[z].up());
                assert(downs(a)[z] == a[z].down() && downs(b)[z] == b[z].down());
                assert(tops[t] == 0);
                lemma_nearest_unique(tops, e, t, z, a[z].down(), b[z].down());
                lemma_nearest_unique(tops, e, t, z, a[z].up(), b[z].up());
            } else {
                assert(spacer_ok(a, p, k + 1) && spacer_ok(b, p, k + 1));
            }
        }
    }
    assert(a =~= b);
}

/// Two meshes that hold the same problem give every node the same owner.
pub proof fn lemma_owners_same(a: Seq<Link>, b: Seq<Link>, p: Problem)
    requires
        is_base(a, p),
        is_base(b, p),
    ensures
        owners(a) == owners(b),
{
    let n = p.items as int;
    assert forall|z: int| 0 <= z < a.len() implies a[z].owner() == b[z].owner() by {
        let _ = b[z];
        if z <= n {
        } else if z == n + 1 {
            assert(spacer_ok(a, p, 0) && spacer_ok(b, p, 0));
        } else {
            let (k, j) = p.lemma_locate(z);
            if p.at(z, k, j) {
                assert(element_ok(a, p, k, j) && element_ok(b, p, k, j));
            } else {
                assert(spacer_ok(a, p, k + 1) && spacer_ok(b, p, k + 1));
            }
        }
    }
    assert(owners(a) =~= owners(b));
}

/// Once a mesh of the problem is at hand, it is the base.
pub proof fn lemma_base_is(m: Seq<Link>, p: Problem)
    requires
        is_base(m, p),
    ensures
        base(p) == m,
        is_base(base(p), p),
{
    lemma_base_unique(base(p), m, p);
}

/// The arena of `p`, in order, with the first `j` elements of a further
/// option `o` behind it and no spacer yet to close them.
pub open spec fn building(m: Seq<Link>, p: Problem, o: Seq<int>, j: int) -> bool {
    &&& p.valid()
    &&& 0 <= j <= o.len()
    &&& m.len() == p.size() + j
    &&& m[0].up() == 0
    &&& m[0].down() == 0
    &&& m[0].count() == 0
    &&& rows_ok(m, p)
    &&& links_ok(m, p.items as int, Set::empty(), Set::empty())
    &&& forall|i: int|
        0 <= i < j ==> (#[trigger] m[p.size() + i]) is OptionElement && m[p.size() + i].owner()
            == o[i]
}

/// The mesh with one more element at its end, linked in below item `t`.
pub open spec fn grow(m: Seq<Link>, t: int) -> Seq<Link> {
    let x = m.len() as int;
    let u = m[t].up();
    let m1 = m.update(u, m[u].with_down(x));
    let m2 = m1.update(t, m1[t].with_up(x));
    let m3 = m2.update(t, m2[t].with_count(m2[t].count() + 1));
    m3.push(
        Link::OptionElement(OptionElement { ulink: u as usize, dlink: t as usize, top: t as usize }),
    )
}

/// The mesh with one more spacer at its end, linked into the ring of
/// spacers behind the one that was last.
pub open spec fn close(m: Seq<Link>, n: int) -> Seq<Link> {
    let s = m.len() as int;
    let root = n + 1;
    let bottom = m[root].up();
    let m1 = m.push(Link::Spacer(Spacer { ulink: bottom as usize, dlink: root as usize }));
    let m2 = m1.update(bottom, m1[bottom].with_down(s));
    m2.update(root, m2[root].with_up(s))
}

/// One more element of the option under construction keeps the arena in order.
pub proof fn lemma_grow(m: Seq<Link>, p: Problem, o: Seq<int>, j: int)
    requires
        building(m, p, o, j),
        j < o.len(),
        p.option_ok(o),
        m.len() < usize::MAX,
    ensures
        building(grow(m, o[j]), p, o, j + 1),
        0 <= m[o[j]].up() < m.len(),
        m[o[j]].count() < m.len(),
{
    let n = p.items as int;
    let e = Set::<int>::empty();
    let t = o[j];
    let x = m.len() as int;
    let u = m[t].up();
    let g = grow(m, t);
    p.lemma_spacer_order(0, p.options.len() as int);
    assert(ups(m)[t] == u);
    lemma_rings_append(owners(m), ups(m), downs(m), counts(m), n, e, t);
    assert(counts(m)[t] == m[t].count());
    assert(m[t] is Item);
    if u != t {
        assert(owners(m)[u] == t);
        assert(m[u] is OptionElement);
    }
    assert(g.len() == x + 1);
    assert(owners(g) =~= owners(m).push(t));
    assert(ups(g) =~= ups(m).update(t, x).push(u));
    assert(downs(g) =~= downs(m).update(u, x).push(t));
    assert(counts(g) =~= counts(m).update(t, counts(m)[t] + 1).push(0));
    assert(static_ok(g, n)) by {
        assert forall|z: int| 0 <= z < g.len() implies (z <= n <==> (#[trigger] g[z]) is Item)
            && crate::mesh::bounded(g[z], n, g.len() as int) by {
            if z < x {
                let _ = m[z];
            }
        }
    }
    assert forall|y: int| 1 <= y <= n implies #[trigger] item_ok(lefts(g), rights(g), n, e, y) by {
        assert(item_ok(lefts(m), rights(m), n, e, y));
        assert(lefts(m)[y] == m[y].left() && rights(m)[y] == m[y].right());
    }
    assert(lefts(m)[0] == m[0].left() && rights(m)[0] == m[0].right());
    assert forall|k: int| 0 <= k <= p.options.len() implies #[trigger] spacer_ok(g, p, k) by {
        assert(spacer_ok(m, p, k));
        p.lemma_spacer_order(k, p.options.len() as int);
    }
    assert forall|k: int, i: int|
        0 <= k < p.options.len() && 0 <= i < p.options[k].len() implies #[trigger] element_ok(
        g,
        p,
        k,
        i,
    ) by {
        assert(element_ok(m, p, k, i));
        p.lemma_spacer_order(k + 1, p.options.len() as int);
        p.lemma_spacer_step(k);
        p.lemma_spacer_order(0, k);
    }
    assert forall|i: int| 0 <= i < j + 1 implies (#[trigger] g[p.size() + i]) is OptionElement
        && g[p.size() + i].owner() == o[i] by {
        if i < j {
            let _ = m[p.size() + i];
        }
    }
}

/// The spacer that closes the option under construction makes the arena
/// that of the problem with that option.
pub proof fn lemma_close(m: Seq<Link>, p: Problem, o: Seq<int>)
    requires
        building(m, p, o, o.len() as int),
        p.option_ok(o),
        m.len() < usize::MAX,
    ensures
        is_base(close(m, p.items as int), p.with_option(o)),
        m[p.items as int + 1].up() == p.spacer(p.options.len() as int),
        m.len() == p.with_option(o).spacer(p.options.len() as int + 1),
{
    let n = p.items as int;
    let e = Set::<int>::empty();
    let grown = p.with_option(o);
    let last = p.options.len() as int;
    let s = m.len() as int;
    let root = n + 1;
    let bottom = m[root].up();
    let c = close(m, n);
    p.lemma_spacer_order(0, last);
    assert(spacer_ok(m, p, 0));
    assert(spacer_ok(m, p, last));
    assert(bottom == p.spacer(last));
    assert forall|k: int| 0 <= k <= last implies #[trigger] grown.spacer(k) == p.spacer(k) by {
        p.lemma_spacer_with_option(o, k);
    }
    assert(grown.spacer(last + 1) == grown.spacer(last) + o.len() + 1);
    assert(grown.spacer(last + 1) == s);
    assert(c.len() == s + 1);
    assert(grown.valid()) by {
        assert forall|k: int| 0 <= k < grown.options.len() implies grown.option_ok(
            #[trigger] grown.options[k],
        ) by {
            if k < last {
                assert(p.option_ok(p.options[k]));
            }
        }
    }
    assert forall|z: int| 0 <= z < s && z != root && z != bottom implies #[trigger] c[z] == m[z] by {}
    assert(owners(c) =~= owners(m).push(0));
    lemma_rings_pad(
        owners(m),
        ups(m),
        downs(m),
        counts(m),
        n,
        e,
        ups(c),
        downs(c),
        counts(c),
    );
    assert(static_ok(c, n)) by {
        assert forall|z: int| 0 <= z < c.len() implies (z <= n <==> (#[trigger] c[z]) is Item)
            && crate::mesh::bounded(c[z], n, c.len() as int) by {
            if z < s {
                let _ = m[z];
            }
        }
    }
    assert forall|y: int| 1 <= y <= n implies #[trigger] item_ok(lefts(c), rights(c), n, e, y) by {
        assert(item_ok(lefts(m), rights(m), n, e, y));
        assert(lefts(m)[y] == m[y].left() && rights(m)[y] == m[y].right());
    }
    assert(lefts(m)[0] == m[0].left() && rights(m)[0] == m[0].right());
    assert forall|k: int| 0 <= k <= grown.options.len() implies #[trigger] spacer_ok(c, grown, k) by {
        if k <= last {
            assert(spacer_ok(m, p, k));
            p.lemma_spacer_order(k, last);
            if 0 < k {
                p.lemma_spacer_order(0, k);
            }
            if k < last {
                p.lemma_spacer_order(k + 1, last);
                p.lemma_spacer_order(k, k + 1);
            }
        }
    }
    assert forall|k: int, i: int|
        0 <= k < grown.options.len() && 0 <= i < grown.options[k].len() implies #[trigger] element_ok(
        c,
        grown,
        k,
        i,
    ) by {
        if k < last {
            assert(element_ok(m, p, k, i));
            p.lemma_spacer_order(k + 1, last);
            p.lemma_spacer_step(k);
            p.lemma_spacer_order(0, k);
            p.lemma_spacer_with_option(o, k);
        } else {
            let _ = m[p.size() + i];
        }
    }
}

} // verus!
