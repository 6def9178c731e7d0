//! The trail of splices that leads from the mesh as it was built to the mesh
//! as it is: every cover adds steps at its end, every uncover takes them back
//! in reverse.

use vstd::prelude::*;
use crate::link::Link;
use crate::mesh::{
    can_hide, can_unlink, lemma_splice, lemma_unlink, links_ok, relink, same_shape, splice, unlink,
    unsplice,
};

verus! {

/// One splice: an option element leaves its column, or an item the item list.
pub enum Step {
    Hide(int),
    Unlink(int),
}

/// The mesh after the step.
pub open spec fn apply(m: Seq<Link>, s: Step) -> Seq<Link> {
    match s {
        Step::Hide(x) => splice(m, x),
        Step::Unlink(c) => unlink(m, c),
    }
}

/// The mesh after the step has been taken back.
pub open spec fn undo(m: Seq<Link>, s: Step) -> Seq<Link> {
    match s {
        Step::Hide(x) => unsplice(m, x),
        Step::Unlink(c) => relink(m, c),
    }
}

/// The mesh that the steps of `t` make of the mesh `b`.
pub open spec fn replay(b: Seq<Link>, t: Seq<Step>) -> Seq<Link>
    decreases t.len(),
{
    if t.len() == 0 {
        b
    } else {
        apply(replay(b, t.drop_last()), t.last())
    }
}

/// The option elements that the steps of `t` have spliced out.
pub open spec fn hidden(t: Seq<Step>) -> Set<int>
    decreases t.len(),
{
    if t.len() == 0 {
        Set::empty()
    } else {
        match t.last() {
            Step::Hide(x) => hidden(t.drop_last()).insert(x),
            Step::Unlink(_) => hidden(t.drop_last()),
        }
    }
}

/// The items that the steps of `t` have taken out of the item list.
pub open spec fn unlinked(t: Seq<Step>) -> Set<int>
    decreases t.len(),
{
    if t.len() == 0 {
        Set::empty()
    } else {
        match t.last() {
            Step::Hide(_) => unlinked(t.drop_last()),
            Step::Unlink(c) => unlinked(t.drop_last()).insert(c),
        }
    }
}

/// The step can be taken: its node is still linked.
pub open spec fn ready(m: Seq<Link>, n: int, t: Seq<Step>, s: Step) -> bool {
    match s {
        Step::Hide(x) => can_hide(m, hidden(t), x),
        Step::Unlink(c) => can_unlink(n, unlinked(t), c),
    }
}

/// Every step of the trail was taken on a mesh in order, from a node that
/// was linked, starting from `b`.
pub open spec fn sound(b: Seq<Link>, n: int, t: Seq<Step>) -> bool
    decreases t.len(),
{
    &&& links_ok(replay(b, t), n, hidden(t), unlinked(t))
    &&& same_shape(replay(b, t), b)
    &&& t.len() > 0 ==> sound(b, n, t.drop_last()) && ready(
        replay(b, t.drop_last()),
        n,
        t.drop_last(),
        t.last(),
    )
}

/// Being of the same build carries over.
pub proof fn lemma_same_shape_trans(a: Seq<Link>, b: Seq<Link>, c: Seq<Link>)
    requires
        same_shape(a, b),
        same_shape(b, c),
    ensures
        same_shape(a, c),
{
    assert forall|z: int| 0 <= z < a.len() implies (#[trigger] a[z] is Item <==> c[z] is Item) && (
    a[z] is Spacer ==> a[z] == c[z]) && (c[z] is Spacer ==> a[z] == c[z]) by {
        let _ = b[z];
    }
}

/// A step that is ready extends a sound trail.
pub proof fn lemma_push(b: Seq<Link>, n: int, t: Seq<Step>, s: Step)
    requires
        sound(b, n, t),
        ready(replay(b, t), n, t, s),
    ensures
        sound(b, n, t.push(s)),
        replay(b, t.push(s)) == apply(replay(b, t), s),
        s is Hide ==> hidden(t.push(s)) == hidden(t).insert(s->Hide_0) && unlinked(t.push(s))
            == unlinked(t) && replay(b, t)[replay(b, t)[s->Hide_0].owner()].count() >= 1,
        s is Unlink ==> unlinked(t.push(s)) == unlinked(t).insert(s->Unlink_0) && hidden(t.push(s))
            == hidden(t),
{
    let m = replay(b, t);
    let t2 = t.push(s);
    assert(t2.drop_last() =~= t);
    assert(t2.last() == s);
    match s {
        Step::Hide(x) => {
            lemma_splice(m, n, hidden(t), unlinked(t), x);
        },
        Step::Unlink(c) => {
            lemma_unlink(m, n, hidden(t), unlinked(t), c);
        },
    }
    lemma_same_shape_trans(apply(m, s), m, b);
}

/// Taking back the last step of a sound trail gives the mesh of the trail
/// without it.
pub proof fn lemma_pop(b: Seq<Link>, n: int, t: Seq<Step>)
    requires
        sound(b, n, t),
        t.len() > 0,
    ensures
        sound(b, n, t.drop_last()),
        undo(replay(b, t), t.last()) == replay(b, t.drop_last()),
        ready(replay(b, t.drop_last()), n, t.drop_last(), t.last()),
        t.last() matches Step::Hide(x) ==> replay(b, t)[x] == replay(b, t.drop_last())[x],
        t.last() matches Step::Unlink(c) ==> replay(b, t)[c] == replay(b, t.drop_last())[c],
{
    reveal_with_fuel(sound, 2);
    let t1 = t.drop_last();
    let m = replay(b, t1);
    match t.last() {
        Step::Hide(x) => {
            lemma_splice(m, n, hidden(t1), unlinked(t1), x);
        },
        Step::Unlink(c) => {
            lemma_unlink(m, n, hidden(t1), unlinked(t1), c);
        },
    }
}

/// What the steps of a trail followed by more steps have spliced out.
pub proof fn lemma_hidden_add(t: Seq<Step>, u: Seq<Step>)
    ensures
        hidden(t + u) == hidden(t).union(hidden(u)),
        unlinked(t + u) == unlinked(t).union(unlinked(u)),
    decreases u.len(),
{
    if u.len() == 0 {
        assert(t + u =~= t);
    } else {
        assert((t + u).drop_last() =~= t + u.drop_last());
        assert((t + u).last() == u.last());
        lemma_hidden_add(t, u.drop_last());
    }
    assert(hidden(t + u) =~= hidden(t).union(hidden(u)));
    assert(unlinked(t + u) =~= unlinked(t).union(unlinked(u)));
}

} // verus!
