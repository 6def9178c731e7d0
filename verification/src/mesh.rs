//! The shape of the link mesh, stated over the sequence of its nodes.
//!
//! A mesh over `n` items keeps, for every item, the ring of the option
//! elements that are linked below it, and a ring of the items that are still
//! to be covered. Both are described here by saying which node is the nearest
//! linked one in each direction, given the set of nodes that are spliced out.

use vstd::prelude::*;
use crate::link::Link;

verus! {

/// For each node the item it belongs to: 0 unless it is an option element.
pub open spec fn owners(m: Seq<Link>) -> Seq<int> {
    Seq::new(m.len(), |z: int| m[z].owner())
}

/// The links of a node stay inside a mesh of `len` nodes over `n` items, and
/// an option element belongs to one of the items.
pub open spec fn bounded(v: Link, n: int, len: int) -> bool {
    &&& v.up() < len
    &&& v.down() < len
    &&& v.right() <= n
    &&& v.left() <= n
    &&& v.count() < len
    &&& v is OptionElement ==> 1 <= v.owner() <= n
}

/// Items are the nodes `0..=n`, and every link stays inside the mesh.
pub open spec fn static_ok(m: Seq<Link>, n: int) -> bool {
    &&& 0 <= n
    &&& n + 2 <= m.len() <= usize::MAX
    &&& forall|z: int|
        #![trigger m[z]]
        0 <= z < m.len() ==> (z <= n <==> m[z] is Item) && bounded(m[z], n, m.len() as int)
}

/// Two meshes of the same build: the same kinds of node at the same places,
/// the same owners, and the same spacers.
pub open spec fn same_shape(a: Seq<Link>, b: Seq<Link>) -> bool {
    &&& a.len() == b.len()
    &&& owners(a) == owners(b)
    &&& forall|z: int|
        #![trigger a[z]]
        0 <= z < a.len() ==> (a[z] is Item <==> b[z] is Item) && (a[z] is Spacer ==> a[z] == b[z])
            && (b[z] is Spacer ==> a[z] == b[z])
}

/// The node `z` stands in column `t` and is not spliced out.
pub open spec fn linked(tops: Seq<int>, hid: Set<int>, t: int, z: int) -> bool {
    0 <= z < tops.len() && tops[z] == t && !hid.contains(z)
}

/// No linked node of column `t` lies strictly between `lo` and `hi`.
pub open spec fn gap(tops: Seq<int>, hid: Set<int>, t: int, lo: int, hi: int) -> bool {
    forall|z: int| lo < z < hi && 0 <= z < tops.len() && #[trigger] tops[z] == t ==> hid.contains(z)
}

/// `d` is what follows position `x` in column `t`: the nearest linked node
/// below, or the item itself where there is none.
pub open spec fn is_below(tops: Seq<int>, hid: Set<int>, t: int, x: int, d: int) -> bool {
    if d == t {
        gap(tops, hid, t, x, tops.len() as int)
    } else {
        x < d && linked(tops, hid, t, d) && gap(tops, hid, t, x, d)
    }
}

/// `u` is what precedes position `x` in column `t`: the nearest linked node
/// above, or the item itself where there is none.
pub open spec fn is_above(tops: Seq<int>, hid: Set<int>, t: int, x: int, u: int) -> bool {
    if u == t {
        gap(tops, hid, t, -1, x)
    } else {
        u < x && linked(tops, hid, t, u) && gap(tops, hid, t, u, x)
    }
}

/// The number of linked nodes of column `t` among the first `b` nodes.
pub open spec fn live_count(tops: Seq<int>, hid: Set<int>, t: int, b: int) -> int
    decreases b,
{
    if b <= 0 {
        0
    } else {
        live_count(tops, hid, t, b - 1) + if linked(tops, hid, t, b - 1) {
            1int
        } else {
            0int
        }
    }
}

/// The upward links of all nodes.
pub open spec fn ups(m: Seq<Link>) -> Seq<int> {
    Seq::new(m.len(), |z: int| m[z].up())
}

/// The downward links of all nodes.
pub open spec fn downs(m: Seq<Link>) -> Seq<int> {
    Seq::new(m.len(), |z: int| m[z].down())
}

/// The counts of all nodes.
pub open spec fn counts(m: Seq<Link>) -> Seq<int> {
    Seq::new(m.len(), |z: int| m[z].count())
}

/// The links to the right of all nodes.
pub open spec fn rights(m: Seq<Link>) -> Seq<int> {
    Seq::new(m.len(), |z: int| m[z].right())
}

/// The links to the left of all nodes.
pub open spec fn lefts(m: Seq<Link>) -> Seq<int> {
    Seq::new(m.len(), |z: int| m[z].left())
}

/// The item `t` heads its column: it points at the first and the last linked
/// node, and counts the linked nodes.
pub open spec fn column_ok(
    tops: Seq<int>,
    up: Seq<int>,
    down: Seq<int>,
    cnt: Seq<int>,
    hid: Set<int>,
    t: int,
) -> bool {
    &&& is_below(tops, hid, t, t, down[t])
    &&& is_above(tops, hid, t, tops.len() as int, up[t])
    &&& cnt[t] == live_count(tops, hid, t, tops.len() as int)
}

/// A linked option element points at its nearest linked neighbours.
pub open spec fn node_ok(tops: Seq<int>, up: Seq<int>, down: Seq<int>, hid: Set<int>, x: int) -> bool {
    tops[x] >= 1 && !hid.contains(x) ==> is_below(tops, hid, tops[x], x, down[x]) && is_above(
        tops,
        hid,
        tops[x],
        x,
        up[x],
    )
}

/// Every column is a ring through its item and its linked nodes.
pub open spec fn rings_ok(
    tops: Seq<int>,
    up: Seq<int>,
    down: Seq<int>,
    cnt: Seq<int>,
    n: int,
    hid: Set<int>,
) -> bool {
    &&& 0 <= n < tops.len()
    &&& up.len() == tops.len()
    &&& down.len() == tops.len()
    &&& cnt.len() == tops.len()
    &&& forall|z: int| 0 <= z < tops.len() ==> 0 <= #[trigger] tops[z] <= n
    &&& forall|z: int| 0 <= z <= n ==> #[trigger] tops[z] == 0
    &&& forall|z: int| #[trigger] hid.contains(z) ==> 0 <= z < tops.len() && tops[z] >= 1
    &&& forall|t: int| 1 <= t <= n ==> #[trigger] column_ok(tops, up, down, cnt, hid, t)
    &&& forall|x: int| 0 <= x < tops.len() ==> #[trigger] node_ok(tops, up, down, hid, x)
}

/// Every column of the mesh is a ring, with the nodes of `hid` spliced out.
pub open spec fn vertical_ok(m: Seq<Link>, n: int, hid: Set<int>) -> bool {
    rings_ok(owners(m), ups(m), downs(m), counts(m), n, hid)
}

/// No item strictly between `lo` and `hi` is still in the item list.
pub open spec fn hgap(cov: Set<int>, lo: int, hi: int) -> bool {
    forall|z: int| lo < z < hi ==> #[trigger] cov.contains(z)
}

/// `r` is the nearest item to the right of `x` that is in the list, or 0.
pub open spec fn is_right(n: int, cov: Set<int>, x: int, r: int) -> bool {
    if r == 0 {
        hgap(cov, x, n + 1)
    } else {
        x < r <= n && !cov.contains(r) && hgap(cov, x, r)
    }
}

/// `l` is the nearest item to the left of position `x` that is in the list, or 0.
pub open spec fn is_left(n: int, cov: Set<int>, x: int, l: int) -> bool {
    if l == 0 {
        hgap(cov, 0, x)
    } else {
        1 <= l < x && !cov.contains(l) && hgap(cov, l, x)
    }
}

/// An item that is in the list points at its nearest neighbours in the list.
pub open spec fn item_ok(left: Seq<int>, right: Seq<int>, n: int, cov: Set<int>, x: int) -> bool {
    !cov.contains(x) ==> is_right(n, cov, x, right[x]) && is_left(n, cov, x, left[x])
}

/// The header and the items that are not covered form a ring.
pub open spec fn list_ok(left: Seq<int>, right: Seq<int>, n: int, cov: Set<int>) -> bool {
    &&& 0 <= n < left.len()
    &&& left.len() == right.len()
    &&& forall|z: int| #[trigger] cov.contains(z) ==> 1 <= z <= n
    &&& is_right(n, cov, 0, right[0])
    &&& is_left(n, cov, n + 1, left[0])
    &&& forall|x: int| 1 <= x <= n ==> #[trigger] item_ok(left, right, n, cov, x)
}

/// The header and the items of the mesh that are not in `cov` form a ring.
pub open spec fn horizontal_ok(m: Seq<Link>, n: int, cov: Set<int>) -> bool {
    list_ok(lefts(m), rights(m), n, cov)
}

/// The mesh is in order, with `hid` spliced out of the columns and `cov` out
/// of the item list.
pub open spec fn links_ok(m: Seq<Link>, n: int, hid: Set<int>, cov: Set<int>) -> bool {
    static_ok(m, n) && vertical_ok(m, n, hid) && horizontal_ok(m, n, cov)
}

/// The mesh after the option element `x` left its column.
pub open spec fn splice(m: Seq<Link>, x: int) -> Seq<Link> {
    let t = m[x].owner();
    let u = m[x].up();
    let d = m[x].down();
    let m1 = m.update(u, m[u].with_down(d));
    let m2 = m1.update(d, m1[d].with_up(u));
    m2.update(t, m2[t].with_count(m2[t].count() - 1))
}

/// The mesh after the option element `x` came back into its column.
pub open spec fn unsplice(m: Seq<Link>, x: int) -> Seq<Link> {
    let t = m[x].owner();
    let u = m[x].up();
    let d = m[x].down();
    let m1 = m.update(u, m[u].with_down(x));
    let m2 = m1.update(d, m1[d].with_up(x));
    m2.update(t, m2[t].with_count(m2[t].count() + 1))
}

/// The mesh after the item `c` left the item list.
pub open spec fn unlink(m: Seq<Link>, c: int) -> Seq<Link> {
    let l = m[c].left();
    let r = m[c].right();
    let m1 = m.update(l, m[l].with_right(r));
    m1.update(r, m1[r].with_left(l))
}

/// The mesh after the item `c` came back into the item list.
pub open spec fn relink(m: Seq<Link>, c: int) -> Seq<Link> {
    let l = m[c].left();
    let r = m[c].right();
    let m1 = m.update(l, m[l].with_right(c));
    m1.update(r, m1[r].with_left(c))
}

/// Splicing the node `x` out of its column lowers the count of that column
/// by one and leaves the counts of the others.
pub proof fn lemma_count_hide(tops: Seq<int>, hid: Set<int>, x: int, t: int, b: int)
    requires
        0 <= x < tops.len(),
        !hid.contains(x),
    ensures
        live_count(tops, hid.insert(x), t, b) == live_count(tops, hid, t, b) - if tops[x] == t && x
            < b {
            1int
        } else {
            0int
        },
    decreases b,
{
    if b > 0 {
        lemma_count_hide(tops, hid, x, t, b - 1);
    }
}

/// A count is never negative and never more than the number of nodes seen.
pub proof fn lemma_count_bounds(tops: Seq<int>, hid: Set<int>, t: int, b: int)
    ensures
        0 <= live_count(tops, hid, t, b),
        b >= 0 ==> live_count(tops, hid, t, b) <= b,
        (exists|z: int| 0 <= z < b && linked(tops, hid, t, z)) ==> live_count(tops, hid, t, b) >= 1,
    decreases b,
{
    if b > 0 {
        lemma_count_bounds(tops, hid, t, b - 1);
    }
}

/// Splicing the linked node `x` out of its column keeps the columns in order.
pub proof fn lemma_rings_hide(
    tops: Seq<int>,
    up: Seq<int>,
    down: Seq<int>,
    cnt: Seq<int>,
    n: int,
    hid: Set<int>,
    x: int,
)
    requires
        rings_ok(tops, up, down, cnt, n, hid),
        0 <= x < tops.len(),
        tops[x] >= 1,
        !hid.contains(x),
    ensures
        rings_ok(
            tops,
            up.update(down[x], up[x]),
            down.update(up[x], down[x]),
            cnt.update(tops[x], cnt[tops[x]] - 1),
            n,
            hid.insert(x),
        ),
        0 <= up[x] < tops.len(),
        0 <= down[x] < tops.len(),
        up[x] != x,
        down[x] != x,
        down[up[x]] == x,
        up[down[x]] == x,
        cnt[tops[x]] >= 1,
        up[x] != tops[x] ==> tops[up[x]] == tops[x],
        down[x] != tops[x] ==> tops[down[x]] == tops[x],
{
    let t = tops[x];
    let u = up[x];
    let d = down[x];
    let up2 = up.update(d, u);
    let down2 = down.update(u, d);
    let cnt2 = cnt.update(t, cnt[t] - 1);
    let hid2 = hid.insert(x);
    assert(node_ok(tops, up, down, hid, x));
    assert(column_ok(tops, up, down, cnt, hid, t));
    if u != t {
        assert(node_ok(tops, up, down, hid, u));
    }
    if d != t {
        assert(node_ok(tops, up, down, hid, d));
    }
    lemma_count_bounds(tops, hid, t, tops.len() as int);
    assert(linked(tops, hid, t, x));
    assert forall|t2: int| 1 <= t2 <= n implies #[trigger] column_ok(
        tops,
        up2,
        down2,
        cnt2,
        hid2,
        t2,
    ) by {
        assert(column_ok(tops, up, down, cnt, hid, t2));
        lemma_count_hide(tops, hid, x, t2, tops.len() as int);
    }
    assert forall|y: int| 0 <= y < tops.len() implies #[trigger] node_ok(
        tops,
        up2,
        down2,
        hid2,
        y,
    ) by {
        assert(node_ok(tops, up, down, hid, y));
    }
}

/// Taking the item `c` out of the item list keeps the list in order.
pub proof fn lemma_list_unlink(left: Seq<int>, right: Seq<int>, n: int, cov: Set<int>, c: int)
    requires
        list_ok(left, right, n, cov),
        1 <= c <= n,
        !cov.contains(c),
    ensures
        list_ok(left.update(right[c], left[c]), right.update(left[c], right[c]), n, cov.insert(c)),
        0 <= left[c] <= n,
        0 <= right[c] <= n,
        left[c] != c,
        right[c] != c,
        right[left[c]] == c,
        left[right[c]] == c,
{
    let l = left[c];
    let r = right[c];
    let left2 = left.update(r, l);
    let right2 = right.update(l, r);
    let cov2 = cov.insert(c);
    assert(item_ok(left, right, n, cov, c));
    if l != 0 {
        assert(item_ok(left, right, n, cov, l));
    }
    if r != 0 {
        assert(item_ok(left, right, n, cov, r));
    }
    assert forall|y: int| 1 <= y <= n implies #[trigger] item_ok(left2, right2, n, cov2, y) by {
        assert(item_ok(left, right, n, cov, y));
    }
}

/// What must hold of an option element before it is spliced out.
pub open spec fn can_hide(m: Seq<Link>, hid: Set<int>, x: int) -> bool {
    0 <= x < m.len() && m[x] is OptionElement && !hid.contains(x)
}

/// What must hold of an item before it is taken out of the item list.
pub open spec fn can_unlink(n: int, cov: Set<int>, c: int) -> bool {
    1 <= c <= n && !cov.contains(c)
}

/// Splicing a linked node out keeps the mesh in order, with that node added
/// to the nodes that are out, and splicing it in again gives the mesh back.
pub proof fn lemma_splice(m: Seq<Link>, n: int, hid: Set<int>, cov: Set<int>, x: int)
    requires
        links_ok(m, n, hid, cov),
        can_hide(m, hid, x),
    ensures
        links_ok(splice(m, x), n, hid.insert(x), cov),
        same_shape(splice(m, x), m),
        unsplice(splice(m, x), x) == m,
        splice(m, x)[x] == m[x],
        m[m[x].owner()].count() >= 1,
{
    let t = m[x].owner();
    let u = m[x].up();
    let d = m[x].down();
    let m3 = splice(m, x);
    assert(owners(m)[x] == t && ups(m)[x] == u && downs(m)[x] == d);
    lemma_rings_hide(owners(m), ups(m), downs(m), counts(m), n, hid, x);
    assert(counts(m)[t] == m[t].count());
    assert(downs(m)[u] == m[u].down() && ups(m)[d] == m[d].up());
    assert(m[t] is Item && m[x] is OptionElement);
    assert(m3.len() == m.len());
    assert(owners(m3) =~= owners(m));
    assert(ups(m3) =~= ups(m).update(d, u));
    assert(downs(m3) =~= downs(m).update(u, d));
    assert(counts(m3) =~= counts(m).update(t, counts(m)[t] - 1));
    assert(lefts(m3) =~= lefts(m));
    assert(rights(m3) =~= rights(m));
    assert(static_ok(m3, n));
    if u != t {
        assert(owners(m)[u] == t);
        assert(m[u] is OptionElement);
    }
    if d != t {
        assert(owners(m)[d] == t);
        assert(m[d] is OptionElement);
    }
    assert(same_shape(m3, m));
    assert(unsplice(m3, x) =~= m);
}

/// Taking an item out of the item list keeps the mesh in order, with that
/// item added to the covered ones, and putting it back gives the mesh back.
pub proof fn lemma_unlink(m: Seq<Link>, n: int, hid: Set<int>, cov: Set<int>, c: int)
    requires
        links_ok(m, n, hid, cov),
        can_unlink(n, cov, c),
    ensures
        links_ok(unlink(m, c), n, hid, cov.insert(c)),
        same_shape(unlink(m, c), m),
        relink(unlink(m, c), c) == m,
        unlink(m, c)[c] == m[c],
{
    let l = m[c].left();
    let r = m[c].right();
    let m2 = unlink(m, c);
    assert(lefts(m)[c] == l && rights(m)[c] == r);
    lemma_list_unlink(lefts(m), rights(m), n, cov, c);
    assert(rights(m)[l] == m[l].right() && lefts(m)[r] == m[r].left());
    assert(m[l] is Item && m[r] is Item && m[c] is Item);
    assert(m2.len() == m.len());
    assert(owners(m2) =~= owners(m));
    assert(ups(m2) =~= ups(m));
    assert(downs(m2) =~= downs(m));
    assert(counts(m2) =~= counts(m));
    assert(lefts(m2) =~= lefts(m).update(r, l));
    assert(rights(m2) =~= rights(m).update(l, r));
    assert(static_ok(m2, n));
    assert(same_shape(m2, m));
    assert(relink(m2, c) =~= m);
}

/// A column without linked nodes counts nothing.
pub proof fn lemma_count_none(tops: Seq<int>, hid: Set<int>, t: int, b: int)
    requires
        gap(tops, hid, t, -1, b),
    ensures
        live_count(tops, hid, t, b) == 0,
    decreases b,
{
    if b > 0 {
        lemma_count_none(tops, hid, t, b - 1);
    }
}

/// A count looks only at the nodes before its bound.
pub proof fn lemma_count_prefix(a: Seq<int>, b: Seq<int>, hid: Set<int>, t: int, k: int)
    requires
        k <= a.len(),
        k <= b.len(),
        forall|z: int| 0 <= z < k ==> a[z] == b[z],
    ensures
        live_count(a, hid, t, k) == live_count(b, hid, t, k),
    decreases k,
{
    if k > 0 {
        lemma_count_prefix(a, b, hid, t, k - 1);
    }
}

/// A new element at the end of the arena, linked in as the last node of
/// column `t`, keeps the columns in order.
pub proof fn lemma_rings_append(
    tops: Seq<int>,
    up: Seq<int>,
    down: Seq<int>,
    cnt: Seq<int>,
    n: int,
    hid: Set<int>,
    t: int,
)
    requires
        rings_ok(tops, up, down, cnt, n, hid),
        1 <= t <= n,
    ensures
        rings_ok(
            tops.push(t),
            up.update(t, tops.len() as int).push(up[t]),
            down.update(up[t], tops.len() as int).push(t),
            cnt.update(t, cnt[t] + 1).push(0),
            n,
            hid,
        ),
        0 <= up[t] < tops.len(),
        cnt[t] < tops.len(),
        up[t] != t ==> tops[up[t]] == t,
{
    let x = tops.len() as int;
    let u = up[t];
    let tops2 = tops.push(t);
    let up2 = up.update(t, x).push(u);
    let down2 = down.update(u, x).push(t);
    let cnt2 = cnt.update(t, cnt[t] + 1).push(0);
    assert(column_ok(tops, up, down, cnt, hid, t));
    if u != t {
        assert(node_ok(tops, up, down, hid, u));
    }
    lemma_count_bounds(tops, hid, t, x);
    assert(cnt[t] < tops.len()) by {
        lemma_count_bounds(tops, hid, t, t + 1);
        lemma_count_gap(tops, hid, t, t + 1, x);
        lemma_count_none(tops, hid, t, t + 1);
    }
    assert forall|t2: int| 1 <= t2 <= n implies #[trigger] column_ok(
        tops2,
        up2,
        down2,
        cnt2,
        hid,
        t2,
    ) by {
        assert(column_ok(tops, up, down, cnt, hid, t2));
        lemma_count_prefix(tops, tops2, hid, t2, x);
    }
    assert forall|y: int| 0 <= y < tops2.len() implies #[trigger] node_ok(
        tops2,
        up2,
        down2,
        hid,
        y,
    ) by {
        if y < x {
            assert(node_ok(tops, up, down, hid, y));
        }
    }
}

/// A count grows by at most one per node.
pub proof fn lemma_count_gap(tops: Seq<int>, hid: Set<int>, t: int, a: int, b: int)
    requires
        a <= b,
    ensures
        live_count(tops, hid, t, a) <= live_count(tops, hid, t, b) <= live_count(tops, hid, t, a)
            + (b - a),
    decreases b - a,
{
    if a < b {
        lemma_count_gap(tops, hid, t, a, b - 1);
    }
}

/// A new node at the end of the arena that stands in no column leaves the
/// columns in order, whatever happens to the links of such nodes.
pub proof fn lemma_rings_pad(
    tops: Seq<int>,
    up: Seq<int>,
    down: Seq<int>,
    cnt: Seq<int>,
    n: int,
    hid: Set<int>,
    up2: Seq<int>,
    down2: Seq<int>,
    cnt2: Seq<int>,
)
    requires
        rings_ok(tops, up, down, cnt, n, hid),
        up2.len() == tops.len() + 1,
        down2.len() == tops.len() + 1,
        cnt2.len() == tops.len() + 1,
        forall|z: int|
            0 <= z < tops.len() && (1 <= z <= n || #[trigger] tops[z] >= 1) ==> up2[z] == up[z]
                && down2[z] == down[z] && cnt2[z] == cnt[z],
    ensures
        rings_ok(tops.push(0), up2, down2, cnt2, n, hid),
{
    let x = tops.len() as int;
    let tops2 = tops.push(0);
    assert forall|t2: int| 1 <= t2 <= n implies #[trigger] column_ok(
        tops2,
        up2,
        down2,
        cnt2,
        hid,
        t2,
    ) by {
        assert(column_ok(tops, up, down, cnt, hid, t2));
        assert(tops[t2] == 0);
        lemma_count_prefix(tops, tops2, hid, t2, x);
    }
    assert forall|y: int| 0 <= y < tops2.len() implies #[trigger] node_ok(
        tops2,
        up2,
        down2,
        hid,
        y,
    ) by {
        if y < x {
            assert(node_ok(tops, up, down, hid, y));
            assert(tops2[y] == tops[y]);
        }
    }
}

/// The linked nodes of column `t` among the first `b` nodes, from the top.
pub open spec fn column(tops: Seq<int>, hid: Set<int>, t: int, b: int) -> Seq<int>
    decreases b,
{
    if b <= 0 {
        Seq::empty()
    } else if linked(tops, hid, t, b - 1) {
        column(tops, hid, t, b - 1).push(b - 1)
    } else {
        column(tops, hid, t, b - 1)
    }
}

/// Walking down from the item `t` leads through the nodes of `col`, one
/// after the other, and then back to `t`.
pub open spec fn walks(m: Seq<Link>, t: int, col: Seq<int>) -> bool {
    &&& forall|j: int| 0 <= j < col.len() ==> 0 <= #[trigger] col[j] < m.len() && col[j] != t
    &&& m[t].down() == if col.len() == 0 {
        t
    } else {
        col[0]
    }
    &&& forall|j: int|
        0 <= j < col.len() ==> m[#[trigger] col[j]].down() == if j + 1 < col.len() {
            col[j + 1]
        } else {
            t
        }
}

/// The linked nodes of a column, listed from the top: they are as many as
/// the count says, they come in the order of the arena, and every linked
/// node of the column is among them.
pub proof fn lemma_column(tops: Seq<int>, hid: Set<int>, t: int, b: int)
    requires
        0 <= b <= tops.len(),
    ensures
        column(tops, hid, t, b).len() == live_count(tops, hid, t, b),
        forall|j: int|
            0 <= j < column(tops, hid, t, b).len() ==> linked(
                tops,
                hid,
                t,
                #[trigger] column(tops, hid, t, b)[j],
            ) && column(tops, hid, t, b)[j] < b,
        forall|j1: int, j2: int|
            0 <= j1 < j2 < column(tops, hid, t, b).len() ==> #[trigger] column(tops, hid, t, b)[j1]
                < #[trigger] column(tops, hid, t, b)[j2],
        forall|z: int|
            0 <= z < b && linked(tops, hid, t, z) ==> #[trigger] column(tops, hid, t, b).contains(z),
    decreases b,
{
    if b > 0 {
        lemma_column(tops, hid, t, b - 1);
        let c0 = column(tops, hid, t, b - 1);
        let c = column(tops, hid, t, b);
        if linked(tops, hid, t, b - 1) {
            assert forall|z: int| 0 <= z < b && linked(tops, hid, t, z) implies #[trigger] c.contains(
                z,
            ) by {
                if z < b - 1 {
                    assert(c0.contains(z));
                    let j = choose|j: int| 0 <= j < c0.len() && c0[j] == z;
                    assert(c[j] == z);
                } else {
                    assert(c[c.len() - 1] == z);
                }
            }
        }
    }
}

/// In a mesh in order, walking down from an item leads through the linked
/// nodes of its column, and the item counts them.
pub proof fn lemma_walk(
    tops: Seq<int>,
    up: Seq<int>,
    down: Seq<int>,
    cnt: Seq<int>,
    n: int,
    hid: Set<int>,
    t: int,
)
    requires
        rings_ok(tops, up, down, cnt, n, hid),
        1 <= t <= n,
    ensures
        cnt[t] == column(tops, hid, t, tops.len() as int).len(),
        down[t] == if column(tops, hid, t, tops.len() as int).len() == 0 {
            t
        } else {
            column(tops, hid, t, tops.len() as int)[0]
        },
        forall|j: int|
            0 <= j < column(tops, hid, t, tops.len() as int).len() ==> down[#[trigger] column(
                tops,
                hid,
                t,
                tops.len() as int,
            )[j]] == if j + 1 < column(tops, hid, t, tops.len() as int).len() {
                column(tops, hid, t, tops.len() as int)[j + 1]
            } else {
                t
            },
{
    let len = tops.len() as int;
    let col = column(tops, hid, t, len);
    lemma_column(tops, hid, t, len);
    assert(column_ok(tops, up, down, cnt, hid, t));
    if col.len() == 0 {
        if down[t] != t {
            assert(col.contains(down[t]));
        }
    } else {
        let d = down[t];
        assert(linked(tops, hid, t, col[0]));
        if d == t {
        } else {
            assert(col.contains(d));
            let j = choose|j: int| 0 <= j < col.len() && col[j] == d;
            if j > 0 {
                assert(col[0] < col[j]);
            }
        }
    }
    assert forall|j: int| 0 <= j < col.len() implies down[#[trigger] col[j]] == if j + 1
        < col.len() {
        col[j + 1]
    } else {
        t
    } by {
        let x = col[j];
        assert(linked(tops, hid, t, x));
        assert(node_ok(tops, up, down, hid, x));
        let d = down[x];
        if j + 1 < col.len() {
            let y = col[j + 1];
            assert(linked(tops, hid, t, y));
            assert(x < y);
            if d == t {
            } else {
                assert(col.contains(d));
                let j2 = choose|j2: int| 0 <= j2 < col.len() && col[j2] == d;
                if j2 <= j {
                    if j2 < j {
                        assert(col[j2] < col[j]);
                    }
                } else if j2 > j + 1 {
                    assert(col[j + 1] < col[j2]);
                }
            }
        } else {
            if d != t {
                assert(col.contains(d));
                let j2 = choose|j2: int| 0 <= j2 < col.len() && col[j2] == d;
                if j2 < j {
                    assert(col[j2] < col[j]);
                }
            }
        }
    }
}

} // verus!
