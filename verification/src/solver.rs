//! The solver: the link mesh, the cover and uncover operations, and the
//! search for exact covers as a machine that can stop at each solution.

use vstd::prelude::*;
use vstd::string::StringExecFns;
use std::collections::HashMap;
use crate::course::{
    col_steps, course, cover_steps, fires, lemma_col_hidden, lemma_col_keeps, lemma_column_node,
    lemma_course, lemma_gap_skip, lemma_pos, lemma_pos_in, lemma_row_steps, lemma_whole_row, pos,
    row_steps, stack_ok, turn,
};
use crate::frames::{
    lemma_descend, lemma_done, lemma_extend_ok, lemma_frames_rest, lemma_next_candidate,
    lemma_picks, lemma_room, lemma_rotate, lemma_trying_rest, lemma_usable_linked,
};
use crate::label::decimal;
use crate::laws::{all_differ, all_exact, lemma_solutions};
use crate::layout::{
    base, building, close, element_ok, grow, is_base, lemma_base_is, lemma_close, lemma_grow,
    lemma_rows_carry, rows_ok, spacer_ok,
};
use crate::link::{Index, Item, Link, OptionElement, Spacer};
use crate::mesh::{
    column, column_ok, counts, downs, gap, horizontal_ok, item_ok, lefts, lemma_count_none,
    lemma_walk, linked, links_ok, node_ok, owners, relink, rights, splice, static_ok, unlink,
    unsplice, ups, vertical_ok, walks,
};
use crate::problem::Problem;
use crate::search::{
    below, branch, branch_effort, disjoint, done, effort, extend, frames_ok, is_branch_item,
    holders, is_rest, lemma_branch_item, lemma_branch_skip, lemma_choices_holders,
    lemma_count_choices, open_item, picks,
    prefixed, roots, rotate, solutions, tail, tail_effort, usable, width,
};
use crate::show::{
    field, lemma_open_count, lemma_places_step, lemma_shown_gap, open_count, places, push_padded,
    shown, shown_items, shown_row, shown_rows,
};
use crate::trail::{hidden, lemma_hidden_add, lemma_pop, lemma_push, replay, sound, Step, unlinked};

verus! {

broadcast use vstd::std_specs::hash::group_hash_axioms;

/// Where the search stands between two steps.
#[derive(Clone, Copy, Debug)]
enum Stage {
    /// All primary items covered? Then a solution is at hand.
    X2,
    /// Choose an item to branch on, and cover it.
    X3,
    /// Try the option at hand, or give the item up.
    X5,
    /// Take the option at hand back and move on to the next.
    X6,
    /// Leave the level.
    X8,
}

/// The item numbers of an option, as mathematical integers.
pub open spec fn ids(s: Seq<Index>) -> Seq<int> {
    Seq::new(s.len(), |j: int| s[j] as int)
}

/// The strings as sequences of characters.
pub open spec fn texts(v: Seq<String>) -> Seq<Seq<char>> {
    Seq::new(v.len(), |j: int| v[j]@)
}

/// `k` is the first option that goes by the name `name`.
pub open spec fn is_first(names: Seq<Seq<char>>, name: Seq<char>, k: int) -> bool {
    &&& 0 <= k < names.len()
    &&& names[k] == name
    &&& forall|k2: int| 0 <= k2 < k ==> names[k2] != name
}

/// Every member of `sol` is the number of one of `n` options.
pub open spec fn in_range(sol: Seq<int>, n: nat) -> bool {
    forall|j: int| 0 <= j < sol.len() ==> 0 <= #[trigger] sol[j] < n
}

/// A solver for exact cover problems with optional items.
///
/// Items are numbered from 1: first those that must be covered exactly once,
/// then those that may be covered at most once. Options are added one by one
/// under a name; the solutions come out as the names of their options.
pub struct Solver {
    elements: Vec<Link>,
    items: Index,
    l: usize,
    sol_vec: Vec<Index>,
    yielding: bool,
    idx: Index,
    names: Vec<String>,
    spacer_ids: HashMap<Index, usize>,
    stage: Stage,
    optional: Index,
    options: Ghost<Seq<Seq<int>>>,
    covered: Ghost<Seq<int>>,
    frames: Ghost<Seq<(int, int)>>,
    cand: Ghost<int>,
}

impl Solver {
    /// The problem that the solver holds.
    pub closed spec fn problem(&self) -> Problem {
        Problem {
            primary: (self.optional - 1) as nat,
            items: self.items as nat,
            options: self.options@,
        }
    }

    /// The names of the options, in the order in which they were added.
    pub closed spec fn names(&self) -> Seq<Seq<char>> {
        Seq::new(self.names@.len(), |k: int| self.names@[k]@)
    }

    /// The items that are covered, in the order in which they were covered.
    pub closed spec fn covered(&self) -> Seq<int> {
        self.covered@
    }

    /// The nodes of the mesh.
    pub closed spec fn nodes(&self) -> Seq<Link> {
        self.elements@
    }

    /// What holds of the solver whatever the mesh is doing: the tables
    /// around the mesh fit the problem.
    spec fn framed(&self) -> bool {
        let p = self.problem();
        &&& self.optional >= 1
        &&& p.valid()
        &&& is_base(base(p), p)
        &&& self.names@.len() == p.options.len()
        &&& self.sol_vec@.len() == p.options.len() + 1
        &&& forall|k: int|
            0 <= k < p.options.len() ==> self.spacer_ids@.contains_key(
                #[trigger] p.spacer(k + 1) as usize,
            ) && self.spacer_ids@[p.spacer(k + 1) as usize] == k
    }

    /// The mesh is what the steps of `t` make of the mesh of the problem.
    spec fn at(&self, t: Seq<Step>) -> bool {
        let p = self.problem();
        &&& self.framed()
        &&& sound(base(p), p.items as int, t)
        &&& self.elements@ == replay(base(p), t)
    }

    /// The mesh is the mesh of the problem after the items of `covered()`
    /// have been covered, in that order.
    pub closed spec fn mesh_wf(&self) -> bool {
        &&& stack_ok(self.problem(), self.covered@)
        &&& self.at(course(self.problem(), self.covered@))
    }

    /// The options chosen at the levels of the search that are in progress,
    /// by their numbers, from the first level on.
    pub closed spec fn chosen(&self) -> Seq<int> {
        picks(self.frames@).take(self.l as int)
    }

    /// At stage X5: the option at hand is the next that can be chosen for
    /// the item branched on, or the item itself when there is none.
    spec fn trying(&self) -> bool {
        let p = self.problem();
        let b = self.covered@.drop_last();
        let x = self.sol_vec@[self.l as int];
        let k = self.cand@;
        &&& 0 <= k <= p.options.len()
        &&& k < p.options.len() ==> usable(p, b, self.idx as int, k) && x == p.node(
            k,
            pos(p.options[k], self.idx as int),
        )
        &&& k == p.options.len() ==> x == self.idx
    }

    /// The state of the search fits the covered items.
    spec fn search_wf(&self) -> bool {
        let p = self.problem();
        let cs = self.covered@;
        let fr = self.frames@;
        &&& self.l < self.sol_vec@.len()
        &&& fr.len() <= self.sol_vec@.len()
        &&& forall|j: int|
            0 <= j < fr.len() ==> (#[trigger] self.sol_vec@[j]) == p.node(
                fr[j].1,
                pos(p.options[fr[j].1], fr[j].0),
            )
        &&& match self.stage {
            Stage::X2 => fr.len() == self.l && frames_ok(p, cs, fr) && (self.yielding || done(
                p,
                cs,
            )),
            Stage::X3 => fr.len() == self.l && frames_ok(p, cs, fr) && self.yielding && !done(
                p,
                cs,
            ),
            Stage::X5 => fr.len() == self.l && self.yielding && cs.len() > 0 && cs.last()
                == self.idx && frames_ok(p, cs.drop_last(), fr) && is_branch_item(
                p,
                cs.drop_last(),
                self.idx as int,
            ) && self.trying(),
            Stage::X6 => fr.len() == self.l + 1 && frames_ok(p, cs, fr) && self.yielding,
            Stage::X8 => fr.len() == self.l && frames_ok(p, cs, fr) && self.yielding,
        }
    }

    /// The solver is in order.
    pub closed spec fn wf(&self) -> bool {
        self.mesh_wf() && self.search_wf()
    }

    /// The solver is in order and the search has not begun.
    pub closed spec fn fresh(&self) -> bool {
        &&& self.wf()
        &&& self.stage is X2
        &&& self.l == 0
        &&& self.yielding
    }

    /// The solutions that are still to come, in the order in which they
    /// will come, each as the sequence of its options by their numbers.
    pub closed spec fn pending(&self) -> Seq<Seq<int>> {
        let p = self.problem();
        let cs = self.covered@;
        let fr = self.frames@;
        match self.stage {
            Stage::X2 => if self.yielding {
                prefixed(picks(fr), solutions(p, cs)) + tail(p, cs, fr)
            } else {
                tail(p, cs, fr)
            },
            Stage::X3 => prefixed(picks(fr), solutions(p, cs)) + tail(p, cs, fr),
            Stage::X5 => prefixed(picks(fr), branch(p, cs.drop_last(), self.idx as int, self.cand@))
                + tail(p, cs.drop_last(), fr),
            Stage::X6 => tail(p, cs, fr),
            Stage::X8 => tail(p, cs, fr),
        }
    }

    /// The level at which the search stands: the number of options chosen.
    pub closed spec fn depth(&self) -> nat {
        self.l as nat
    }

    /// The number of levels that the partial solution has room for.
    pub closed spec fn levels(&self) -> nat {
        self.sol_vec@.len()
    }

    /// The search has stopped at a solution: the next step leaves it.
    pub closed spec fn at_solution(&self) -> bool {
        self.stage is X2 && !self.yielding
    }

    /// The search has come to its end: it stands at the first level, about
    /// to leave it, with nothing left to try.
    pub closed spec fn exhausted(&self) -> bool {
        self.stage is X8 && self.l == 0
    }

    /// The items that were covered before the search began, in the order in
    /// which they were covered.
    pub closed spec fn origin(&self) -> Seq<int> {
        match self.stage {
            Stage::X5 => roots(self.problem(), self.covered@.drop_last(), self.frames@),
            _ => roots(self.problem(), self.covered@, self.frames@),
        }
    }

    /// The number of steps that the search has still to take.
    spec fn toil(&self) -> nat {
        let p = self.problem();
        let cs = self.covered@;
        let fr = self.frames@;
        match self.stage {
            Stage::X2 => if self.yielding {
                effort(p, cs) + tail_effort(p, cs, fr)
            } else {
                1 + tail_effort(p, cs, fr)
            },
            Stage::X3 => (effort(p, cs) - 1) as nat + tail_effort(p, cs, fr),
            Stage::X5 => branch_effort(p, cs.drop_last(), self.idx as int, self.cand@)
                + tail_effort(p, cs.drop_last(), fr),
            Stage::X6 => (tail_effort(p, cs, fr) - 1) as nat,
            Stage::X8 => tail_effort(p, cs, fr),
        }
    }

    /// The names of the options of a solution.
    pub open spec fn named(&self, sol: Seq<int>) -> Seq<Seq<char>> {
        Seq::new(sol.len(), |j: int| self.names()[sol[j]])
    }

    /// A solver in order has its mesh in order, holds a well formed problem,
    /// and has a name for each option.
    pub proof fn lemma_wf(&self)
        requires
            self.wf(),
        ensures
            self.mesh_wf(),
            self.problem().valid(),
            stack_ok(self.problem(), self.covered()),
            self.names().len() == self.problem().options.len(),
            self.nodes().len() == self.problem().size(),
            self.problem().size() <= usize::MAX,
            in_range(self.chosen(), self.problem().options.len()),
            self.levels() == self.problem().options.len() + 1,
            self.depth() < self.levels(),
    {
        let p = self.problem();
        let cs = self.covered@;
        self.lemma_at(course(p, cs));
        let under = match self.stage {
            Stage::X5 => cs.drop_last(),
            _ => cs,
        };
        lemma_picks(p, under, self.frames@);
    }

    /// Before the search has begun the solver is in order, and the solutions
    /// to come are those of the problem with the covered items as they are.
    pub proof fn lemma_fresh(&self)
        requires
            self.fresh(),
        ensures
            self.wf(),
            self.mesh_wf(),
            self.pending() == solutions(self.problem(), self.covered()),
            self.chosen() == Seq::<int>::empty(),
            self.origin() == self.covered(),
            self.depth() == 0,
            !self.at_solution(),
            !self.exhausted(),
            self.levels() == self.problem().options.len() + 1,
            self.nodes().len() == self.problem().size(),
            self.problem().valid(),
            self.names().len() == self.problem().options.len(),
    {
        let p = self.problem();
        let cs = self.covered@;
        let fr = self.frames@;
        assert(fr.len() == 0);
        assert(picks(fr) =~= Seq::<int>::empty());
        assert(prefixed(picks(fr), solutions(p, cs)) =~= solutions(p, cs)) by {
            assert forall|n: int| 0 <= n < solutions(p, cs).len() implies picks(fr) + solutions(
                p,
                cs,
            )[n] == solutions(p, cs)[n] by {
                assert(picks(fr) + solutions(p, cs)[n] =~= solutions(p, cs)[n]);
            }
        }
        assert(tail(p, cs, fr) =~= Seq::<Seq<int>>::empty());
        assert(self.pending() =~= solutions(p, cs));
        assert(self.chosen() =~= Seq::<int>::empty());
        self.lemma_at(course(p, cs));
    }

    /// Returns a solver with `n` items, all of which must be covered exactly
    /// once.
    pub fn new(n: Index) -> (s: Self)
        requires
            n + 2 <= usize::MAX,
        ensures
            s.fresh(),
            s.problem() == (Problem { primary: n as nat, items: n as nat, options: Seq::empty() }),
            s.covered() == Seq::<int>::empty(),
            s.names() == Seq::<Seq<char>>::empty(),
    {
        Self::new_optional(n, 0)
    }

    /// Returns a solver with `mandatory` items that must be covered exactly
    /// once, followed by `opt` items that may be covered at most once.
    ///
    /// A problem without primary items has one solution, which has no
    /// options; this holds of a problem without any items as well.
    pub fn new_optional(mandatory: Index, opt: Index) -> (s: Self)
        requires
            mandatory + opt + 2 <= usize::MAX,
        ensures
            s.fresh(),
            s.problem() == (Problem {
                primary: mandatory as nat,
                items: (mandatory + opt) as nat,
                options: Seq::empty(),
            }),
            s.covered() == Seq::<int>::empty(),
            s.names() == Seq::<Seq<char>>::empty(),
    {
        let optional = mandatory + 1;
        let n = mandatory + opt;
        let mut elements: Vec<Link> = Vec::new();
        let mut i: usize = 0;
        while i <= n
            invariant
                i <= n + 1,
                n + 2 <= usize::MAX,
                elements@.len() == i,
                forall|z: int|
                    0 <= z < i ==> #[trigger] elements@[z] == Link::Item(
                        Item {
                            ulink: z as usize,
                            dlink: z as usize,
                            rlink: if z == n {
                                0
                            } else {
                                (z + 1) as usize
                            },
                            llink: if z == 0 {
                                n
                            } else {
                                (z - 1) as usize
                            },
                            l: 0,
                        },
                    ),
            decreases n + 1 - i,
        {
            let rlink = if i == n {
                0
            } else {
                i + 1
            };
            let llink = if i == 0 {
                n
            } else {
                i - 1
            };
            elements.push(Link::Item(Item { ulink: i, dlink: i, rlink, llink, l: 0 }));
            i = i + 1;
        }
        let spacer_index = elements.len();
        elements.push(Link::Spacer(Spacer { ulink: spacer_index, dlink: spacer_index }));
        let mut sol_vec: Vec<Index> = Vec::new();
        sol_vec.push(0);
        let s = Solver {
            optional,
            elements,
            items: n,
            l: 0,
            sol_vec,
            names: Vec::new(),
            spacer_ids: HashMap::new(),
            yielding: true,
            idx: 0,
            stage: Stage::X2,
            options: Ghost(Seq::empty()),
            covered: Ghost(Seq::empty()),
            frames: Ghost(Seq::empty()),
            cand: Ghost(0),
        };
        proof {
            let p = s.problem();
            let m = s.elements@;
            let e = Set::<int>::empty();
            let tops = owners(m);
            assert(p.spacer(0) == n + 1);
            assert(spacer_ok(m, p, 0));
            assert(static_ok(m, n as int));
            assert forall|t: int| 1 <= t <= n implies #[trigger] column_ok(
                tops,
                ups(m),
                downs(m),
                counts(m),
                e,
                t,
            ) by {
                lemma_count_none(tops, e, t, m.len() as int);
            }
            assert(vertical_ok(m, n as int, e));
            assert forall|x: int| 1 <= x <= n implies #[trigger] item_ok(
                lefts(m),
                rights(m),
                n as int,
                e,
                x,
            ) by {
                let _ = m[x];
            }
            assert(horizontal_ok(m, n as int, e));
            assert(is_base(m, p));
            lemma_base_is(m, p);
            assert(s.names() =~= Seq::<Seq<char>>::empty());
            assert(course(p, s.covered@) =~= Seq::<Step>::empty());
            assert(stack_ok(p, s.covered@));
        }
        s
    }

    /// Adds an option under the name `name` that covers the items of `option`.
    ///
    /// Options are added before any item is covered and before the search
    /// begins. The items of an option are items of the problem, none of them
    /// twice; an option may have no items at all.
    pub fn add_option(&mut self, name: &str, option: &[Index]) -> (r: &mut Self)
        requires
            old(self).fresh(),
            old(self).covered().len() == 0,
            old(self).problem().option_ok(ids(option@)),
            old(self).problem().size() + option@.len() + 1 <= usize::MAX,
        ensures
            r.fresh(),
            r.covered().len() == 0,
            r.problem() == old(self).problem().with_option(ids(option@)),
            r.names() == old(self).names().push(name@),
            r.levels() == old(self).levels() + 1,
            *final(self) == *final(r),
    {
        let ghost p = self.problem();
        let ghost o = ids(option@);
        let ghost n = self.items as int;
        proof {
            p.lemma_spacer_order(0, p.options.len() as int);
            assert(course(p, self.covered@) =~= Seq::<Step>::empty());
            assert(self.elements@ == base(p));
            assert(building(self.elements@, p, o, 0));
        }
        // Room in the partial solution for one more level.
        self.sol_vec.push(0);

        let mut j: usize = 0;
        while j < option.len()
            invariant
                j <= option.len(),
                o == ids(option@),
                p.option_ok(o),
                n == p.items,
                self.items == n,
                p.options.len() >= 0,
                building(self.elements@, p, o, j as int),
                p.size() + option@.len() + 1 <= usize::MAX,
                self.options == old(self).options,
                self.covered == old(self).covered,
                self.optional == old(self).optional,
                self.names == old(self).names,
                self.spacer_ids == old(self).spacer_ids,
                self.sol_vec@.len() == old(self).sol_vec@.len() + 1,
                self.frames == old(self).frames,
                self.l == old(self).l,
                self.stage == old(self).stage,
                self.yielding == old(self).yielding,
            decreases option.len() - j,
        {
            let item_id = option[j];
            proof {
                assert(o[j as int] == item_id);
                lemma_grow(self.elements@, p, o, j as int);
            }
            let ghost m = self.elements@;
            let new_ulink = self.elements[item_id].u();
            let new_id = self.elements.len();
            self.elements[new_ulink].set_d(new_id);
            self.elements[item_id].set_u(new_id);
            self.elements[item_id].inc_l();
            let new_node = Link::OptionElement(
                OptionElement { ulink: new_ulink, dlink: item_id, top: item_id },
            );
            self.elements.push(new_node);
            proof {
                assert(self.elements@ =~= grow(m, item_id as int));
            }
            j = j + 1;
        }

        let ghost m = self.elements@;
        proof {
            lemma_close(m, p, o);
            assert(static_ok(m, n));
            p.lemma_spacer_order(0, p.options.len() as int);
        }
        // The spacer that closes the option.
        let spacer_index = self.elements.len();
        let root_spacer_index = self.items + 1;
        let bottom_spacer_index = self.elements[root_spacer_index].u();
        let new_spacer = Link::Spacer(
            Spacer { dlink: root_spacer_index, ulink: bottom_spacer_index },
        );
        self.elements.push(new_spacer);
        self.elements[bottom_spacer_index].set_d(spacer_index);
        self.elements[root_spacer_index].set_u(spacer_index);
        proof {
            assert(self.elements@ =~= close(m, n));
        }

        self.names.push(name.to_owned());
        self.spacer_ids.insert(spacer_index, self.names.len() - 1);
        self.options = Ghost(self.options@.push(o));
        proof {
            let grown = p.with_option(o);
            assert(self.problem() == grown);
            lemma_base_is(self.elements@, grown);
            let last = p.options.len() as int;
            assert forall|k: int| 0 <= k < grown.options.len() implies self.spacer_ids@.contains_key(
                #[trigger] grown.spacer(k + 1) as usize,
            ) && self.spacer_ids@[grown.spacer(k + 1) as usize] == k by {
                if k < last {
                    p.lemma_spacer_with_option(o, k + 1);
                    p.lemma_spacer_order(k + 1, last);
                    assert(old(self).spacer_ids@.contains_key(p.spacer(k + 1) as usize));
                }
            }
            assert(self.names() =~= old(self).names().push(name@));
            assert(course(grown, self.covered@) =~= Seq::<Step>::empty());
            assert(stack_ok(grown, self.covered@));
        }
        self
    }

    /// Everything but the mesh is the same in both solvers.
    spec fn same_frame(&self, o: &Solver) -> bool {
        &&& self.items == o.items
        &&& self.l == o.l
        &&& self.sol_vec == o.sol_vec
        &&& self.yielding == o.yielding
        &&& self.idx == o.idx
        &&& self.names == o.names
        &&& self.spacer_ids == o.spacer_ids
        &&& self.stage == o.stage
        &&& self.optional == o.optional
        &&& self.options == o.options
        &&& self.covered == o.covered
        &&& self.frames == o.frames
        &&& self.cand == o.cand
    }

    /// What a mesh on the trail `t` is known to be.
    proof fn lemma_at(&self, t: Seq<Step>)
        requires
            self.at(t),
        ensures
            self.problem().valid(),
            self.problem().items == self.items,
            links_ok(self.elements@, self.items as int, hidden(t), unlinked(t)),
            rows_ok(self.elements@, self.problem()),
            self.elements@.len() == self.problem().size(),
            self.problem().size() <= usize::MAX,
            owners(self.elements@) == owners(base(self.problem())),
    {
        let p = self.problem();
        lemma_rows_carry(self.elements@, base(p), p);
    }

    /// Splices the other elements of the option of `p` out of their columns.
    fn hide_row(
        &mut self,
        p: Index,
        Ghost(t): Ghost<Seq<Step>>,
        Ghost(k): Ghost<int>,
        Ghost(j): Ghost<int>,
    ) -> (r: Result<(), &'static str>)
        requires
            old(self).at(t),
            old(self).problem().at(p as int, k, j),
            forall|j2: int|
                0 <= j2 < old(self).problem().options[k].len() && j2 != j ==> !hidden(t).contains(
                    #[trigger] old(self).problem().node(k, j2),
                ),
        ensures
            r is Ok,
            final(self).at(t + row_steps(old(self).problem(), k, j)),
            final(self).same_frame(old(self)),
    {
        let ghost pr = self.problem();
        let ghost n = self.items as int;
        let ghost len = pr.options[k].len() as int;
        let ghost steps = row_steps(pr, k, j);
        let ghost w: int = 0;
        let ghost h: int = 0;
        proof {
            self.lemma_at(t);
            pr.lemma_spacer_step(k);
            pr.lemma_spacer_order(k + 1, pr.options.len() as int);
            assert(t + steps.take(0) =~= t);
        }
        let mut q = p + 1;
        while q != p
            invariant
                self.same_frame(old(self)),
                pr == self.problem(),
                n == self.items,
                pr.at(p as int, k, j),
                len == pr.options[k].len(),
                steps == row_steps(pr, k, j),
                0 <= w <= len,
                q == if w <= len - j - 1 {
                    p + 1 + w
                } else {
                    p + w - len
                },
                h == if w <= len - j - 1 {
                    w
                } else {
                    w - 1
                },
                self.at(t + steps.take(h)),
                pr.spacer(k + 1) == pr.spacer(k) + len + 1,
                pr.spacer(k + 1) < pr.size() <= usize::MAX,
                forall|j2: int|
                    0 <= j2 < len && j2 != j ==> !hidden(t).contains(#[trigger] pr.node(k, j2)),
            decreases len - w,
        {
            let ghost cur = t + steps.take(h);
            let ghost m = self.elements@;
            proof {
                self.lemma_at(cur);
                if w == len - j - 1 {
                    assert(spacer_ok(m, pr, k + 1));
                } else {
                    let j2 = turn(pr, k, j, h);
                    assert(q == pr.node(k, j2));
                    assert(element_ok(m, pr, k, j2));
                    lemma_row_steps(pr, k, j, h);
                    lemma_hidden_add(t, steps.take(h));
                    assert(!hidden(cur).contains(q as int)) by {
                        if hidden(steps.take(h)).contains(q as int) {
                            let i = choose|i: int|
                                0 <= i < h && q as int == pr.node(k, #[trigger] turn(pr, k, j, i));
                            assert(turn(pr, k, j, i) != turn(pr, k, j, h));
                        }
                    }
                    lemma_push(base(pr), n, cur, Step::Hide(q as int));
                    assert(cur.push(Step::Hide(q as int)) =~= t + steps.take(h + 1));
                }
            }
            let x = self.elements[q].top();
            let u = self.elements[q].u();
            let d = self.elements[q].d();

            match self.elements[q] {
                Link::Item(_) => {
                    return Err("Hide encountered and item");
                },
                Link::Spacer(_) => {
                    q = u;
                },
                Link::OptionElement(_) => {
                    self.elements[u].set_d(d);
                    self.elements[d].set_u(u);
                    self.elements[x].dec_l();
                    proof {
                        assert(self.elements@ =~= splice(m, q as int));
                        h = h + 1;
                    }
                },
            };
            q += 1;
            proof {
                w = w + 1;
            }
        }
        proof {
            assert(steps.take(h) =~= steps);
        }
        Ok(())
    }

    /// Splices the other elements of the option of `p` back into their columns.
    fn unhide(
        &mut self,
        p: Index,
        Ghost(t): Ghost<Seq<Step>>,
        Ghost(k): Ghost<int>,
        Ghost(j): Ghost<int>,
    ) -> (r: Result<(), &'static str>)
        requires
            old(self).problem().at(p as int, k, j),
            old(self).at(t + row_steps(old(self).problem(), k, j)),
        ensures
            r is Ok,
            final(self).at(t),
            final(self).same_frame(old(self)),
    {
        let ghost pr = self.problem();
        let ghost n = self.items as int;
        let ghost len = pr.options[k].len() as int;
        let ghost steps = row_steps(pr, k, j);
        let ghost w: int = 0;
        let ghost h: int = 0;
        proof {
            self.lemma_at(t + steps);
            pr.lemma_spacer_step(k);
            pr.lemma_spacer_order(k + 1, pr.options.len() as int);
            pr.lemma_spacer_order(0, k);
            assert(steps.take(len - 1) =~= steps);
        }
        let mut q = p - 1;
        while q != p
            invariant
                self.same_frame(old(self)),
                pr == self.problem(),
                n == self.items,
                pr.at(p as int, k, j),
                len == pr.options[k].len(),
                steps == row_steps(pr, k, j),
                0 <= w <= len,
                q == if w <= j {
                    p - 1 - w
                } else {
                    p + len - w
                },
                h == if w <= j {
                    w
                } else {
                    w - 1
                },
                self.at(t + steps.take(len - 1 - h)),
                pr.spacer(k + 1) == pr.spacer(k) + len + 1,
                pr.spacer(k + 1) < pr.size() <= usize::MAX,
                pr.spacer(k) > n,
            decreases len - w,
        {
            let ghost cur = t + steps.take(len - 1 - h);
            let ghost m = self.elements@;
            proof {
                self.lemma_at(cur);
                if w == j {
                    assert(spacer_ok(m, pr, k));
                } else {
                    let i = len - 2 - h;
                    let j2 = turn(pr, k, j, i);
                    assert(q == pr.node(k, j2));
                    assert(element_ok(m, pr, k, j2));
                    assert(cur.last() == Step::Hide(q as int));
                    assert(cur.drop_last() =~= t + steps.take(len - 2 - h));
                    lemma_pop(base(pr), n, cur);
                }
            }
            let x = self.elements[q].top();
            let u = self.elements[q].u();
            let d = self.elements[q].d();

            match self.elements[q] {
                Link::Item(_) => {
                    return Err("Hide encountered and item");
                },
                Link::Spacer(_) => {
                    q = d;
                },
                Link::OptionElement(_) => {
                    self.elements[u].set_d(q);
                    self.elements[d].set_u(q);
                    self.elements[x].inc_l();
                    proof {
                        assert(self.elements@ =~= unsplice(m, q as int));
                        h = h + 1;
                    }
                },
            };
            q -= 1;
            proof {
                w = w + 1;
            }
        }
        proof {
            assert(t + steps.take(0) =~= t);
        }
        Ok(())
    }

    /// Unlinks an item from the horizontally linked list
    fn unlink_item(&mut self, i: Index, Ghost(t): Ghost<Seq<Step>>)
        requires
            old(self).at(t),
            1 <= i <= old(self).items,
            !unlinked(t).contains(i as int),
        ensures
            final(self).at(t.push(Step::Unlink(i as int))),
            final(self).same_frame(old(self)),
    {
        let ghost m = self.elements@;
        proof {
            self.lemma_at(t);
            lemma_push(base(self.problem()), self.items as int, t, Step::Unlink(i as int));
            assert(lefts(m)[i as int] == m[i as int].left());
            assert(rights(m)[i as int] == m[i as int].right());
            crate::mesh::lemma_list_unlink(
                lefts(m),
                rights(m),
                self.items as int,
                unlinked(t),
                i as int,
            );
        }
        let l = self.elements[i].l();
        let r = self.elements[i].r();
        self.elements[l].set_r(r);
        self.elements[r].set_l(l);
        proof {
            assert(self.elements@ =~= unlink(m, i as int));
        }
    }

    /// Relinks an item into the horizontally linked list
    ///
    /// Must be done in the reverse order to unlinking
    fn relink_item(&mut self, i: Index, Ghost(t): Ghost<Seq<Step>>)
        requires
            old(self).at(t.push(Step::Unlink(i as int))),
        ensures
            final(self).at(t),
            final(self).same_frame(old(self)),
            1 <= i <= old(self).items,
    {
        let ghost m = self.elements@;
        let ghost t1 = t.push(Step::Unlink(i as int));
        proof {
            self.lemma_at(t1);
            assert(t1.drop_last() =~= t);
            lemma_pop(base(self.problem()), self.items as int, t1);
        }
        let l = self.elements[i].l();
        let r = self.elements[i].r();
        self.elements[l].set_r(i);
        self.elements[r].set_l(i);
        proof {
            assert(self.elements@ =~= relink(m, i as int));
        }
    }

    /// `i` is the number of an item of the problem.
    pub open spec fn is_item(&self, i: int) -> bool {
        1 <= i <= self.problem().items
    }

    /// The problem and the tables that go with it are the same in both.
    spec fn same_setup(&self, o: &Solver) -> bool {
        &&& self.items == o.items
        &&& self.optional == o.optional
        &&& self.options == o.options
        &&& self.names == o.names
        &&& self.spacer_ids == o.spacer_ids
    }

    /// Everything but the mesh and the covered items is the same in both.
    pub closed spec fn same_tables(&self, o: &Solver) -> bool {
        &&& self.items == o.items
        &&& self.l == o.l
        &&& self.sol_vec == o.sol_vec
        &&& self.yielding == o.yielding
        &&& self.idx == o.idx
        &&& self.names == o.names
        &&& self.spacer_ids == o.spacer_ids
        &&& self.stage == o.stage
        &&& self.optional == o.optional
        &&& self.options == o.options
        &&& self.frames == o.frames
        &&& self.cand == o.cand
    }

    /// Covers item `i`: takes it out of the item list, and every option that
    /// holds it out of the columns of the other items of that option.
    ///
    /// Fails, and leaves the solver as it is, if `i` is no item of the
    /// problem. An item that is covered cannot be covered again.
    pub fn cover(&mut self, i: Index) -> (r: Result<(), &'static str>)
        requires
            old(self).mesh_wf(),
            old(self).is_item(i as int) ==> !old(self).covered().contains(i as int),
        ensures
            r is Err <==> !old(self).is_item(i as int),
            r is Err ==> *final(self) == *old(self),
            r is Ok ==> final(self).mesh_wf(),
            r is Ok ==> final(self).covered() == old(self).covered().push(i as int),
            r is Ok ==> final(self).same_tables(old(self)),
            r is Ok && old(self).fresh() ==> final(self).fresh(),
            final(self).problem() == old(self).problem(),
            final(self).names() == old(self).names(),
            final(self).chosen() == old(self).chosen(),
    {
        if i == 0 || i >= self.elements.len() {
            return Err("Can only cover items");
        }
        let ghost pr = self.problem();
        let ghost n = self.items as int;
        let ghost cs = self.covered@;
        let ghost t0 = course(pr, cs);
        let ghost hid0 = hidden(t0);
        let ghost last = pr.options.len() as int;
        let ghost c = i as int;
        proof {
            self.lemma_at(t0);
        }
        let col = &self.elements[i];
        match col {
            Link::Item(_) => {},
            _ => {
                return Err("Can only cover items");
            },
        };
        let ghost kk: int = 0;
        let ghost jj: int = 0;
        let mut p = col.d();
        proof {
            let m = self.elements@;
            lemma_course(pr, cs);
            pr.lemma_spacer_order(0, last);
            assert(column_ok(owners(m), ups(m), downs(m), counts(m), hid0, c));
            assert(downs(m)[c] == p);
            assert(col_steps(pr, hid0, c, 0) =~= Seq::<Step>::empty());
            assert(t0 + col_steps(pr, hid0, c, 0) =~= t0);
            if p == i {
                lemma_gap_skip(pr, m, hid0, c, c, m.len() as int, 0, last);
                kk = last;
            } else {
                assert(owners(m)[p as int] == c);
                kk = lemma_column_node(pr, m, c, p as int);
                jj = pos(pr.options[kk], c);
                lemma_gap_skip(pr, m, hid0, c, c, p as int, 0, kk);
            }
        }
        while p != i
            invariant
                self.same_frame(old(self)),
                pr == self.problem(),
                n == self.items,
                cs == self.covered@,
                stack_ok(pr, cs),
                t0 == course(pr, cs),
                hid0 == hidden(t0),
                last == pr.options.len(),
                c == i,
                1 <= c <= n,
                !cs.contains(c),
                0 <= kk <= last,
                self.at(t0 + col_steps(pr, hid0, c, kk)),
                p == i ==> kk == last,
                p != i ==> kk < last && pr.options[kk].contains(c) && jj == pos(pr.options[kk], c)
                    && pr.at(p as int, kk, jj) && !hid0.contains(p as int),
            decreases last - kk,
        {
            let ghost cur = t0 + col_steps(pr, hid0, c, kk);
            let ghost row = row_steps(pr, kk, jj);
            proof {
                self.lemma_at(cur);
                lemma_pos_in(pr.options[kk], c);
                lemma_whole_row(pr, cs, kk, jj);
                lemma_col_hidden(pr, hid0, c, kk);
                lemma_hidden_add(t0, col_steps(pr, hid0, c, kk));
                pr.lemma_spacer_step(kk);
                assert(fires(pr, hid0, c, kk));
                assert(col_steps(pr, hid0, c, kk + 1) == col_steps(pr, hid0, c, kk) + row);
                assert(cur + row =~= t0 + col_steps(pr, hid0, c, kk + 1));
            }
            self.hide_row(p, Ghost(cur), Ghost(kk), Ghost(jj))?;
            let ghost passed = p as int;
            proof {
                self.lemma_at(cur + row);
                pr.lemma_spacer_order(kk + 1, last);
            }
            p = self.elements[p].d();
            proof {
                let m = self.elements@;
                let cur2 = cur + row;
                let tops = owners(m);
                lemma_hidden_add(t0, col_steps(pr, hid0, c, kk + 1));
                assert(element_ok(m, pr, kk, jj));
                lemma_col_keeps(pr, m, hid0, c, kk + 1, passed);
                assert(tops[passed] == c);
                assert(node_ok(tops, ups(m), downs(m), hidden(cur2), passed));
                assert(downs(m)[passed] == p);
                pr.lemma_spacer_order(kk + 1, last);
                let hi = if p == i {
                    m.len() as int
                } else {
                    p as int
                };
                assert(gap(tops, hid0, c, passed, hi)) by {
                    assert forall|z: int|
                        passed < z < hi && 0 <= z < tops.len() && #[trigger] tops[z] == c implies hid0.contains(
                        z,
                    ) by {
                        lemma_col_keeps(pr, m, hid0, c, kk + 1, z);
                    }
                }
                if p == i {
                    lemma_gap_skip(pr, m, hid0, c, passed, hi, kk + 1, last);
                    kk = last;
                } else {
                    assert(tops[p as int] == c);
                    let k2 = lemma_column_node(pr, m, c, p as int);
                    let j2 = pos(pr.options[k2], c);
                    lemma_pos_in(pr.options[k2], c);
                    if k2 < kk {
                        pr.lemma_spacer_order(k2 + 1, kk);
                        pr.lemma_spacer_step(k2);
                    }
                    assert(k2 > kk);
                    pr.lemma_spacer_order(0, k2);
                    lemma_gap_skip(pr, m, hid0, c, passed, hi, kk + 1, k2);
                    lemma_col_keeps(pr, m, hid0, c, kk + 1, p as int);
                    kk = k2;
                    jj = j2;
                }
            }
        }

        // Unlink item
        let ghost cur = t0 + col_steps(pr, hid0, c, last);
        proof {
            lemma_hidden_add(t0, col_steps(pr, hid0, c, last));
            lemma_col_hidden(pr, hid0, c, last);
            lemma_course(pr, cs);
            assert(!unlinked(cur).contains(c));
        }
        self.unlink_item(i, Ghost(cur));
        self.covered = Ghost(cs.push(c));
        proof {
            let cs2 = cs.push(c);
            assert(cs2.drop_last() =~= cs);
            assert(cur.push(Step::Unlink(c)) =~= t0 + cover_steps(pr, hid0, c));
            assert(course(pr, cs2) == t0 + cover_steps(pr, hid0, c));
            assert(stack_ok(pr, cs2));
        }
        Ok(())
    }

    /// Takes the latest cover back; `i` is the item that was covered last.
    ///
    /// Covers are taken back in the reverse of the order in which they were
    /// made. Fails, and leaves the solver as it is, if `i` is no item of the
    /// problem.
    pub fn uncover(&mut self, i: Index) -> (r: Result<(), &'static str>)
        requires
            old(self).mesh_wf(),
            old(self).is_item(i as int) ==> old(self).covered().len() > 0 && old(self).covered().last()
                == i,
        ensures
            r is Err <==> !old(self).is_item(i as int),
            r is Err ==> *final(self) == *old(self),
            r is Ok ==> final(self).mesh_wf(),
            r is Ok ==> final(self).covered() == old(self).covered().drop_last(),
            r is Ok ==> final(self).same_tables(old(self)),
            r is Ok && old(self).fresh() ==> final(self).fresh(),
            final(self).problem() == old(self).problem(),
            final(self).names() == old(self).names(),
            final(self).chosen() == old(self).chosen(),
    {
        if i == 0 || i >= self.elements.len() {
            return Err("Can only uncover items");
        }
        let ghost pr = self.problem();
        let ghost n = self.items as int;
        let ghost cs1 = self.covered@;
        proof {
            self.lemma_at(course(pr, cs1));
        }
        match &self.elements[i] {
            Link::Item(_) => {},
            _ => {
                return Err("Can only uncover items");
            },
        };
        let ghost cs = cs1.drop_last();
        let ghost t0 = course(pr, cs);
        let ghost hid0 = hidden(t0);
        let ghost last = pr.options.len() as int;
        let ghost c = i as int;
        proof {
            assert(stack_ok(pr, cs)) by {
                assert forall|a: int| 0 <= a < cs.len() implies 1 <= #[trigger] cs[a] <= pr.items by {
                    assert(cs[a] == cs1[a]);
                }
            }
            assert(!cs.contains(c)) by {
                if cs.contains(c) {
                    let a = choose|a: int| 0 <= a < cs.len() && cs[a] == c;
                    assert(cs1[a] == cs1[cs1.len() - 1]);
                }
            }
            assert(course(pr, cs1) == t0 + cover_steps(pr, hid0, c));
            assert(t0 + cover_steps(pr, hid0, c) =~= (t0 + col_steps(pr, hid0, c, last)).push(
                Step::Unlink(c),
            ));
        }
        // Relink item
        self.relink_item(i, Ghost(t0 + col_steps(pr, hid0, c, last)));
        self.covered = Ghost(cs);

        let ghost kk: int = last;
        let ghost jj: int = 0;
        let mut p = self.elements[i].u();
        proof {
            let m = self.elements@;
            let tops = owners(m);
            let cur = t0 + col_steps(pr, hid0, c, last);
            self.lemma_at(cur);
            lemma_hidden_add(t0, col_steps(pr, hid0, c, last));
            pr.lemma_spacer_order(0, last);
            assert(column_ok(tops, ups(m), downs(m), counts(m), hidden(cur), c));
            assert(ups(m)[c] == p);
            let lo = if p == i {
                c
            } else {
                p as int
            };
            assert(gap(tops, hid0, c, lo, m.len() as int)) by {
                assert forall|z: int|
                    lo < z < m.len() && 0 <= z < tops.len() && #[trigger] tops[z] == c implies hid0.contains(
                    z,
                ) by {
                    lemma_col_keeps(pr, m, hid0, c, last, z);
                }
            }
            if p == i {
                lemma_gap_skip(pr, m, hid0, c, lo, m.len() as int, 0, last);
                assert(col_steps(pr, hid0, c, 0) =~= Seq::<Step>::empty());
                kk = 0;
            } else {
                assert(tops[p as int] == c);
                let k2 = lemma_column_node(pr, m, c, p as int);
                pr.lemma_spacer_step(k2);
                pr.lemma_spacer_order(k2 + 1, last);
                lemma_gap_skip(pr, m, hid0, c, lo, m.len() as int, k2 + 1, last);
                lemma_col_keeps(pr, m, hid0, c, last, p as int);
                kk = k2 + 1;
                jj = pos(pr.options[k2], c);
            }
        }
        while p != i
            invariant
                self.same_tables(old(self)),
                pr == self.problem(),
                n == self.items,
                cs == self.covered@,
                stack_ok(pr, cs),
                t0 == course(pr, cs),
                hid0 == hidden(t0),
                last == pr.options.len(),
                c == i,
                1 <= c <= n,
                !cs.contains(c),
                0 <= kk <= last,
                self.at(t0 + col_steps(pr, hid0, c, kk)),
                p == i ==> kk == 0,
                p != i ==> kk > 0 && pr.options[kk - 1].contains(c) && jj == pos(
                    pr.options[kk - 1],
                    c,
                ) && pr.at(p as int, kk - 1, jj) && !hid0.contains(p as int),
            decreases kk,
        {
            let ghost k1 = kk - 1;
            let ghost cur = t0 + col_steps(pr, hid0, c, k1);
            let ghost row = row_steps(pr, k1, jj);
            proof {
                lemma_pos_in(pr.options[k1], c);
                assert(fires(pr, hid0, c, k1));
                assert(col_steps(pr, hid0, c, kk) == col_steps(pr, hid0, c, k1) + row);
                assert(cur + row =~= t0 + col_steps(pr, hid0, c, kk));
            }
            self.unhide(p, Ghost(cur), Ghost(k1), Ghost(jj))?;
            let ghost passed = p as int;
            proof {
                self.lemma_at(cur);
                pr.lemma_spacer_step(k1);
                pr.lemma_spacer_order(k1 + 1, last);
            }
            p = self.elements[p].u();
            proof {
                let m = self.elements@;
                let tops = owners(m);
                lemma_hidden_add(t0, col_steps(pr, hid0, c, k1));
                assert(element_ok(m, pr, k1, jj));
                lemma_col_keeps(pr, m, hid0, c, k1, passed);
                assert(tops[passed] == c);
                assert(node_ok(tops, ups(m), downs(m), hidden(cur), passed));
                assert(ups(m)[passed] == p);
                pr.lemma_spacer_order(0, k1);
                let lo = if p == i {
                    c
                } else {
                    p as int
                };
                assert(gap(tops, hid0, c, lo, passed)) by {
                    assert forall|z: int|
                        lo < z < passed && 0 <= z < tops.len() && #[trigger] tops[z] == c implies hid0.contains(
                        z,
                    ) by {
                        lemma_col_keeps(pr, m, hid0, c, k1, z);
                    }
                }
                if p == i {
                    lemma_gap_skip(pr, m, hid0, c, lo, passed, 0, k1);
                    assert(col_steps(pr, hid0, c, 0) =~= Seq::<Step>::empty());
                    kk = 0;
                } else {
                    assert(tops[p as int] == c);
                    let k2 = lemma_column_node(pr, m, c, p as int);
                    let j2 = pos(pr.options[k2], c);
                    lemma_pos_in(pr.options[k2], c);
                    if k2 > k1 {
                        pr.lemma_spacer_order(k1 + 1, k2);
                        pr.lemma_spacer_step(k1);
                    }
                    assert(k2 < k1);
                    pr.lemma_spacer_step(k2);
                    lemma_gap_skip(pr, m, hid0, c, lo, passed, k2 + 1, k1);
                    lemma_col_keeps(pr, m, hid0, c, k1, p as int);
                    kk = k2 + 1;
                    jj = j2;
                }
            }
        }
        proof {
            assert(col_steps(pr, hid0, c, 0) =~= Seq::<Step>::empty());
            assert(t0 + col_steps(pr, hid0, c, 0) =~= t0);
        }
        Ok(())
    }

    /// Takes in a non-item node and steps rightwards along the arena until
    /// a spacer is found, upon which the index is returned
    pub fn spacer_for(&self, x: Index) -> (r: Index)
        requires
            self.mesh_wf(),
            self.problem().items < x < self.nodes().len(),
        ensures
            x <= r < self.nodes().len(),
            self.nodes()[r as int] is Spacer,
            forall|z: int| x <= z < r ==> (#[trigger] self.nodes()[z]) is OptionElement,
            forall|k: int, j: int| self.problem().at(x as int, k, j) ==> r == self.problem().spacer(k + 1),
    {
        let ghost pr = self.problem();
        let ghost m = self.elements@;
        let ghost last = pr.options.len() as int;
        let ghost k0: int = 0;
        let ghost j0: int = 0;
        proof {
            self.lemma_at(course(pr, self.covered@));
            pr.lemma_spacer_order(0, last);
            if x > pr.items + 1 {
                let (k, j) = pr.lemma_locate(x as int);
                k0 = k;
                j0 = j;
                pr.lemma_spacer_step(k);
                pr.lemma_spacer_order(k + 1, last);
            }
        }
        let mut p = x;
        loop
            invariant
                m == self.elements@,
                pr == self.problem(),
                rows_ok(m, pr),
                m.len() == pr.size(),
                last == pr.options.len(),
                pr.items < x <= p < m.len(),
                m.len() <= usize::MAX,
                forall|z: int| x <= z < p ==> (#[trigger] m[z]) is OptionElement,
                x == pr.items + 1 ==> p == x,
                x > pr.items + 1 ==> 0 <= k0 < last && 0 <= j0 <= pr.options[k0].len() && x
                    == pr.node(k0, j0) && p <= pr.spacer(k0 + 1) && pr.spacer(k0 + 1) == pr.spacer(
                    k0,
                ) + pr.options[k0].len() + 1 && pr.spacer(k0 + 1) < m.len(),
            decreases m.len() - p,
        {
            proof {
                if x == pr.items + 1 {
                    assert(spacer_ok(m, pr, 0));
                } else if p == pr.spacer(k0 + 1) {
                    assert(spacer_ok(m, pr, k0 + 1));
                } else {
                    assert(element_ok(m, pr, k0, p - pr.spacer(k0) - 1));
                }
            }
            match self.elements[p] {
                Link::Spacer(_) => {
                    proof {
                        assert forall|k: int, j: int| pr.at(x as int, k, j) implies p == pr.spacer(
                            k + 1,
                        ) by {
                            pr.lemma_spacer_step(k);
                            pr.lemma_spacer_order(0, k);
                            pr.lemma_node_unique(k, j, k0, j0);
                        }
                    }
                    return p;
                },
                Link::OptionElement(_) => {
                    p += 1;
                },
                Link::Item(_) => {
                    proof {
                        assert(false);
                    }
                    return p;
                },
            };
        }
    }

    /// Returns the solution at hand in a human-understandable form: the
    /// names of the options chosen at the levels of the search.
    pub fn output(&self) -> (r: Vec<String>)
        requires
            self.wf(),
        ensures
            texts(r@) == self.named(self.chosen()),
    {
        let ghost pr = self.problem();
        let ghost fr = self.frames@;
        let ghost last = pr.options.len() as int;
        proof {
            self.lemma_at(course(pr, self.covered@));
            let cs = match self.stage {
                Stage::X5 => self.covered@.drop_last(),
                _ => self.covered@,
            };
            lemma_picks(pr, cs, fr);
        }
        let mut to_return: Vec<String> = Vec::new();
        let mut j: usize = 0;
        while j < self.l
            invariant
                j <= self.l <= fr.len(),
                self.wf(),
                pr == self.problem(),
                fr == self.frames@,
                last == pr.options.len(),
                self.elements@.len() == pr.size(),
                forall|a: int|
                    0 <= a < fr.len() ==> 0 <= (#[trigger] picks(fr)[a]) < last
                        && pr.options[picks(fr)[a]].contains(fr[a].0),
                to_return@.len() == j,
                forall|a: int| 0 <= a < j ==> (#[trigger] to_return@[a])@ == self.names()[picks(fr)[a]],
            decreases self.l - j,
        {
            let x = self.sol_vec[j];
            let ghost k = fr[j as int].1;
            proof {
                assert(picks(fr)[j as int] == k);
                let o = pr.options[k];
                lemma_pos_in(o, fr[j as int].0);
                pr.lemma_spacer_step(k);
                pr.lemma_spacer_order(k + 1, last);
                pr.lemma_spacer_order(0, k);
                assert(pr.at(x as int, k, pos(o, fr[j as int].0)));
                assert(self.spacer_ids@.contains_key(pr.spacer(k + 1) as usize));
            }
            let s = self.spacer_for(x);
            let id = match self.spacer_ids.get(&s) {
                Some(id) => *id,
                None => {
                    proof {
                        assert(false);
                    }
                    0
                },
            };
            to_return.push(self.names[id].clone());
            j = j + 1;
        }
        proof {
            assert(texts(to_return@) =~= self.named(self.chosen()));
        }
        to_return
    }

    /// Stage X8 of Algorithm X
    /// Leave level l
    /// Terminate if l=0, otherwise l=l-1, go to X6
    fn x8(&mut self) -> (more: bool)
        requires
            old(self).wf(),
            old(self).stage is X8,
        ensures
            final(self).wf(),
            final(self).problem() == old(self).problem(),
            final(self).names() == old(self).names(),
            final(self).origin() == old(self).origin(),
            final(self).pending() == old(self).pending(),
            more <==> old(self).l > 0,
            more ==> *final(self) == (Solver {
                l: (old(self).l - 1) as usize,
                stage: Stage::X6,
                ..*old(self)
            }),
            more ==> final(self).toil() < old(self).toil(),
            !more ==> *final(self) == *old(self),
            !more ==> old(self).pending().len() == 0 && old(self).chosen().len() == 0,
            !more ==> old(self).covered() == old(self).origin(),
    {
        match self.l {
            0 => false,
            _ => {
                self.l -= 1;
                self.stage = Stage::X6;
                true
            },
        }
    }

    /// Stage X2 of Algorithm X
    /// If rlink(0) = 0, then all items are covered, so return current solution
    /// and also go to X8
    fn x2(&mut self) -> (r: Option<Vec<String>>)
        requires
            old(self).wf(),
            old(self).stage is X2,
        ensures
            final(self).wf(),
            final(self).problem() == old(self).problem(),
            final(self).names() == old(self).names(),
            final(self).origin() == old(self).origin(),
            r is Some <==> done(old(self).problem(), old(self).covered@) && old(self).yielding,
            r is Some ==> *final(self) == (Solver { yielding: false, ..*old(self) }),
            r is None && done(old(self).problem(), old(self).covered@) ==> *final(self) == (Solver {
                yielding: true,
                stage: Stage::X8,
                ..*old(self)
            }),
            !done(old(self).problem(), old(self).covered@) ==> *final(self) == (Solver {
                stage: Stage::X3,
                ..*old(self)
            }),
            r is Some ==> old(self).pending().len() > 0,
            r matches Some(v) ==> texts(v@) == old(self).named(old(self).pending()[0]),
            r is Some ==> in_range(old(self).pending()[0], old(self).problem().options.len()),
            r is Some ==> final(self).pending() == old(self).pending().drop_first(),
            r is Some ==> final(self).chosen() == old(self).pending()[0],
            r is None ==> final(self).pending() == old(self).pending(),
            r is None ==> final(self).toil() < old(self).toil(),
    {
        let ghost pr = self.problem();
        let ghost cs = self.covered@;
        let ghost fr = self.frames@;
        proof {
            self.lemma_at(course(pr, cs));
            lemma_course(pr, cs);
            let m = self.elements@;
            assert(rights(m)[0] == m[0].right());
            lemma_done(pr, cs, m[0].right());
        }
        if self.elements[0].r() == 0 || self.elements[0].r() >= self.optional {
            if self.yielding {
                self.yielding = false;
                proof {
                    assert(solutions(pr, cs) =~= seq![Seq::<int>::empty()]);
                    assert(picks(fr) + Seq::<int>::empty() =~= picks(fr));
                    assert(prefixed(picks(fr), solutions(pr, cs)) =~= seq![picks(fr)]);
                    assert(old(self).pending()[0] == picks(fr));
                    lemma_picks(pr, cs, fr);
                    assert(old(self).pending().drop_first() =~= tail(pr, cs, fr));
                    assert(self.chosen() =~= picks(fr));
                }
                return Some(self.output());
            } else {
                self.yielding = true;
                self.stage = Stage::X8;
                return None;
            }
        }
        self.stage = Stage::X3;
        None
    }

    /// The count of an item that is not covered is the number of options
    /// that can be chosen for it.
    proof fn lemma_width(&self, i: int)
        requires
            self.mesh_wf(),
            self.is_item(i),
            !self.covered@.contains(i),
        ensures
            self.elements@[i].count() == width(self.problem(), self.covered@, i),
    {
        let pr = self.problem();
        let cs = self.covered@;
        let m = self.elements@;
        self.lemma_at(course(pr, cs));
        lemma_count_choices(pr, m, cs, i, pr.options.len() as int);
        assert(column_ok(owners(m), ups(m), downs(m), counts(m), hidden(course(pr, cs)), i));
        assert(counts(m)[i] == m[i].count());
    }

    /// Stages X3 and X4 of algorithm X
    ///
    /// X3: Choose item `min_idx`, use MRV heuristic (i.e. smallest remaining value)
    ///
    /// X4: Cover item `min_idx`
    fn x3x4(&mut self) -> (r: Option<Vec<String>>)
        requires
            old(self).wf(),
            old(self).stage is X3,
        ensures
            r is None,
            final(self).wf(),
            final(self).problem() == old(self).problem(),
            final(self).names() == old(self).names(),
            final(self).origin() == old(self).origin(),
            final(self).pending() == old(self).pending(),
            final(self).toil() < old(self).toil(),
            final(self).stage is X5,
            final(self).l == old(self).l,
            final(self).yielding == old(self).yielding,
            final(self).frames == old(self).frames,
            final(self).same_setup(old(self)),
            is_branch_item(old(self).problem(), old(self).covered@, final(self).idx as int),
            final(self).covered@ == old(self).covered@.push(final(self).idx as int),
            final(self).sol_vec@ == old(self).sol_vec@.update(
                old(self).l as int,
                final(self).elements@[final(self).idx as int].down() as usize,
            ),
    {
        let ghost pr = self.problem();
        let ghost cs = self.covered@;
        let ghost fr = self.frames@;
        let ghost n = self.items as int;
        let ghost cov = cs.to_set();
        let ghost last = pr.options.len() as int;
        proof {
            self.lemma_at(course(pr, cs));
            lemma_course(pr, cs);
            let m = self.elements@;
            assert(rights(m)[0] == m[0].right());
            lemma_done(pr, cs, m[0].right());
            self.lemma_width(m[0].right());
            assert forall|i2: int| #[trigger] open_item(pr, cs, i2) implies i2 >= m[0].right() by {
                if i2 < m[0].right() {
                    assert(cov.contains(i2));
                }
            }
        }
        // X3
        // Walk along items and find minimum l
        let mut idx = self.elements[0].r();
        let mut min_idx = self.elements[0].r();
        let mut min_l = self.elements[idx].get_l();
        while idx != 0 && idx < self.optional
            invariant
                *self == *old(self),
                self.mesh_wf(),
                pr == self.problem(),
                cs == self.covered@,
                n == self.items,
                cov == cs.to_set(),
                pr.primary == self.optional - 1,
                pr.primary <= n,
                n < self.elements@.len(),
                horizontal_ok(self.elements@, n, cov),
                0 <= idx <= n,
                idx != 0 ==> !cs.contains(idx as int),
                open_item(pr, cs, min_idx as int),
                min_l == width(pr, cs, min_idx as int),
                idx != 0 ==> min_idx <= idx,
                forall|i2: int|
                    #[trigger] open_item(pr, cs, i2) && (idx != 0 ==> i2 < idx) ==> width(
                        pr,
                        cs,
                        min_idx as int,
                    ) <= width(pr, cs, i2) && (i2 < min_idx ==> width(pr, cs, min_idx as int) < width(
                        pr,
                        cs,
                        i2,
                    )),
            decreases
                    if idx == 0 {
                        0
                    } else {
                        n + 1 - idx
                    },
        {
            proof {
                self.lemma_width(idx as int);
                let m = self.elements@;
                assert(item_ok(lefts(m), rights(m), n, cov, idx as int));
                assert(rights(m)[idx as int] == m[idx as int].right());
            }
            let l = self.elements[idx].get_l();
            if l < min_l {
                min_l = l;
                min_idx = idx;
            }
            let ghost prev = idx as int;
            idx = self.elements[idx].r();
            proof {
                assert forall|i2: int|
                    #[trigger] open_item(pr, cs, i2) && (idx != 0 ==> i2 < idx) implies width(
                    pr,
                    cs,
                    min_idx as int,
                ) <= width(pr, cs, i2) && (i2 < min_idx ==> width(pr, cs, min_idx as int) < width(
                    pr,
                    cs,
                    i2,
                )) by {
                    if i2 > prev {
                        assert(cov.contains(i2));
                    }
                }
            }
        }

        // Now select the item which is covered by the minimum number of options
        self.idx = min_idx;
        proof {
            assert(is_branch_item(pr, cs, min_idx as int)) by {
                assert forall|i2: int| #[trigger] open_item(pr, cs, i2) implies width(
                    pr,
                    cs,
                    min_idx as int,
                ) <= width(pr, cs, i2) && (i2 < min_idx ==> width(pr, cs, min_idx as int) < width(
                    pr,
                    cs,
                    i2,
                )) by {}
            }
            lemma_branch_item(pr, cs, min_idx as int);
            lemma_room(pr, cs, min_idx as int);
            lemma_picks(pr, cs, fr);
        }

        // X4
        // Cover i
        self.cover(self.idx).unwrap();
        let ghost cs2 = cs.push(min_idx as int);
        proof {
            self.lemma_at(course(pr, cs2));
            let m = self.elements@;
            assert(column_ok(
                owners(m),
                ups(m),
                downs(m),
                counts(m),
                hidden(course(pr, cs2)),
                min_idx as int,
            ));
            assert(downs(m)[min_idx as int] == m[min_idx as int].down());
        }

        // Set x_l <- DLINK(i)
        let x_l = self.elements[self.idx].d();

        // Save x_l in current guesses
        self.sol_vec[self.l] = x_l;
        self.stage = Stage::X5;
        proof {
            let m = self.elements@;
            let k = lemma_next_candidate(pr, m, cs, min_idx as int, min_idx as int, 0, x_l as int);
            self.cand = Ghost(k);
            assert(cs2.drop_last() =~= cs);
            lemma_branch_skip(pr, cs, min_idx as int, 0, k);
            assert(self.trying());
            assert(self.search_wf());
        }
        None
    }

    /// Stages X5 and X7 of Algorithm X
    ///
    /// Try x_l
    ///
    /// If x_l = i, then we are out of options and execute X7: backtrack
    ///
    /// Otherwise, cover all other items in option x_l, increase level and go back to X2
    fn x5(&mut self) -> (r: Option<Vec<String>>)
        requires
            old(self).wf(),
            old(self).stage is X5,
        ensures
            r is None,
            final(self).wf(),
            final(self).problem() == old(self).problem(),
            final(self).names() == old(self).names(),
            final(self).origin() == old(self).origin(),
            final(self).pending() == old(self).pending(),
            final(self).toil() < old(self).toil(),
            final(self).same_setup(old(self)),
            final(self).idx == old(self).idx,
            final(self).sol_vec == old(self).sol_vec,
            final(self).yielding == old(self).yielding,
            old(self).sol_vec@[old(self).l as int] == old(self).idx ==> {
                &&& final(self).stage is X8
                &&& final(self).l == old(self).l
                &&& final(self).frames == old(self).frames
                &&& final(self).covered@ == old(self).covered@.drop_last()
            },
            old(self).sol_vec@[old(self).l as int] != old(self).idx ==> {
                &&& final(self).stage is X2
                &&& final(self).l == old(self).l + 1
                &&& final(self).frames@ == old(self).frames@.push(
                    (old(self).idx as int, old(self).cand@),
                )
                &&& final(self).covered@ == extend(
                    old(self).problem(),
                    old(self).covered@.drop_last(),
                    old(self).idx as int,
                    old(self).cand@,
                )
            },
    {
        let ghost pr = self.problem();
        let ghost cs = self.covered@;
        let ghost b = cs.drop_last();
        let ghost fr = self.frames@;
        let ghost n = self.items as int;
        let ghost last = pr.options.len() as int;
        let ghost k = self.cand@;
        let ghost i = self.idx as int;
        proof {
            self.lemma_at(course(pr, cs));
            pr.lemma_spacer_order(0, last);
            assert(cs =~= b.push(i));
            if k < last {
                pr.lemma_spacer_order(0, k);
            }
        }
        // Try xl
        let x_l = self.sol_vec[self.l];

        // If out of options (x_l reads downwards from self.idx, so have looped
        // back around), backtrack
        if x_l == self.idx {
            // X7
            // Backtrack: Uncover item (i)
            self.uncover(x_l).unwrap();
            self.stage = Stage::X8;
            return None;
        }
        let ghost o = pr.options[k];
        let ghost j = pos(o, i);
        let ghost len = o.len() as int;
        let ghost rot = rotate(o, j);
        let ghost w: int = 0;
        let ghost h: int = 0;
        proof {
            lemma_pos_in(o, i);
            lemma_rotate(pr, k, j);
            lemma_usable_linked(pr, b, i, k);
            pr.lemma_spacer_step(k);
            pr.lemma_spacer_order(k + 1, last);
            assert(cs =~= b + rot.take(1));
        }
        let mut p = x_l + 1;
        while p != x_l
            invariant
                self.same_tables(old(self)),
                self.mesh_wf(),
                pr == self.problem(),
                n == self.items,
                n == pr.items,
                pr.valid(),
                stack_ok(pr, b),
                usable(pr, b, i, k),
                fr == self.frames@,
                fr.len() == self.l,
                self.sol_vec@.len() == last + 1,
                self.l < self.sol_vec@.len(),
                self.sol_vec@[self.l as int] == x_l,
                o == pr.options[k],
                j == pos(o, i),
                len == o.len(),
                rot == rotate(o, j),
                rot.len() == len,
                pr.at(x_l as int, k, j),
                0 <= w <= len,
                p == if w <= len - j - 1 {
                    x_l + 1 + w
                } else {
                    x_l + w - len
                },
                h == if w <= len - j - 1 {
                    w
                } else {
                    w - 1
                },
                self.covered@ == b + rot.take(1 + h),
                pr.spacer(k + 1) == pr.spacer(k) + len + 1,
                pr.spacer(k + 1) < pr.size() <= usize::MAX,
                forall|h2: int| 0 <= h2 < len - 1 ==> rot[1 + h2] == o[#[trigger] turn(pr, k, j, h2)],
            decreases len - w,
        {
            let ghost m = self.elements@;
            proof {
                self.lemma_at(course(pr, self.covered@));
                if w == len - j - 1 {
                    assert(spacer_ok(m, pr, k + 1));
                } else {
                    let j2 = turn(pr, k, j, h);
                    assert(p == pr.node(k, j2));
                    assert(element_ok(m, pr, k, j2));
                    lemma_extend_ok(pr, b, i, k, 1 + h);
                    assert(rot[1 + h] == o[j2]);
                    assert(pr.option_ok(o));
                }
            }
            match &self.elements[p] {
                Link::Spacer(_) => {
                    // If a spacer, then hop up one link
                    p = self.elements[p].u();
                },
                op @ Link::OptionElement(_) => {
                    let j = op.top();
                    self.cover(j).unwrap();
                    proof {
                        assert(self.covered@ =~= b + rot.take(2 + h));
                        h = h + 1;
                    }
                },
                Link::Item(_) => {
                    proof {
                        assert(false);
                    }
                },
            };
            p += 1;
            proof {
                w = w + 1;
            }
        }

        proof {
            assert(rot.take(len) =~= rot);
            lemma_descend(pr, b, i, k, fr);
            lemma_picks(pr, extend(pr, b, i, k), fr.push((i, k)));
            assert(self.l < self.sol_vec.len());
        }
        self.l += 1;
        self.stage = Stage::X2;
        proof {
            let fr2 = fr.push((i, k));
            assert(fr2.drop_last() =~= fr);
            assert(fr2.last() == (i, k));
            self.frames = Ghost(fr2);
            assert forall|a: int| 0 <= a < fr2.len() implies (#[trigger] self.sol_vec@[a])
                == pr.node(fr2[a].1, pos(pr.options[fr2[a].1], fr2[a].0)) by {
                if a < fr.len() {
                    assert(fr2[a] == fr[a]);
                }
            }
            assert(self.search_wf());
        }
        None
    }

    /// Stage X6 of Algorithm X
    ///
    /// Try again
    ///
    /// Uncover items != i in option x_l, then set x_l = DLINK(x_l): this is
    /// how we move through all of the options
    fn x6(&mut self) -> (r: Option<Vec<String>>)
        requires
            old(self).wf(),
            old(self).stage is X6,
        ensures
            r is None,
            final(self).wf(),
            final(self).problem() == old(self).problem(),
            final(self).names() == old(self).names(),
            final(self).origin() == old(self).origin(),
            final(self).pending() == old(self).pending(),
            final(self).toil() < old(self).toil(),
            final(self).stage is X5,
            final(self).l == old(self).l,
            final(self).yielding == old(self).yielding,
            final(self).same_setup(old(self)),
            final(self).frames@ == old(self).frames@.drop_last(),
            final(self).idx == old(self).elements@[old(self).sol_vec@[old(self).l as int]
                as int].owner(),
            final(self).covered@ == below(
                old(self).problem(),
                old(self).covered@,
                old(self).frames@.last().1,
            ).push(final(self).idx as int),
            final(self).sol_vec@ == old(self).sol_vec@.update(
                old(self).l as int,
                final(self).elements@[old(self).sol_vec@[old(self).l as int]
                    as int].down() as usize,
            ),
    {
        let ghost pr = self.problem();
        let ghost cs = self.covered@;
        let ghost fr = self.frames@;
        let ghost n = self.items as int;
        let ghost last = pr.options.len() as int;
        let ghost f = fr.last();
        let ghost i = f.0;
        let ghost k = f.1;
        let ghost b = below(pr, cs, k);
        let ghost o = pr.options[k];
        let ghost j = pos(o, i);
        let ghost len = o.len() as int;
        let ghost rot = rotate(o, j);
        let ghost w: int = 0;
        let ghost h: int = 0;
        proof {
            self.lemma_at(course(pr, cs));
            lemma_picks(pr, cs, fr);
            assert(picks(fr)[fr.len() - 1] == k);
            assert(fr[fr.len() - 1] == f);
            pr.lemma_spacer_order(0, k);
            lemma_pos_in(o, i);
            lemma_rotate(pr, k, j);
            pr.lemma_spacer_step(k);
            pr.lemma_spacer_order(k + 1, last);
            assert(rot.take(len) =~= rot);
            assert(stack_ok(pr, b)) by {
                assert forall|a: int| 0 <= a < b.len() implies 1 <= #[trigger] b[a] <= pr.items by {
                    assert(b[a] == cs[a]);
                }
            }
        }
        let x_l = self.sol_vec[self.l];
        let mut p = x_l - 1;

        while p != x_l
            invariant
                self.same_tables(old(self)),
                self.mesh_wf(),
                pr == self.problem(),
                n == self.items,
                n == pr.items,
                pr.valid(),
                stack_ok(pr, b),
                usable(pr, b, i, k),
                o == pr.options[k],
                j == pos(o, i),
                len == o.len(),
                rot == rotate(o, j),
                rot.len() == len,
                pr.at(x_l as int, k, j),
                0 <= w <= len,
                p == if w <= j {
                    x_l - 1 - w
                } else {
                    x_l + len - w
                },
                h == if w <= j {
                    w
                } else {
                    w - 1
                },
                self.covered@ == b + rot.take(len - h),
                pr.spacer(k + 1) == pr.spacer(k) + len + 1,
                pr.spacer(k + 1) < pr.size() <= usize::MAX,
                pr.spacer(k) > n,
                forall|h2: int| 0 <= h2 < len - 1 ==> rot[1 + h2] == o[#[trigger] turn(pr, k, j, h2)],
            decreases len - w,
        {
            let ghost m = self.elements@;
            proof {
                self.lemma_at(course(pr, self.covered@));
                if w == j {
                    assert(spacer_ok(m, pr, k));
                } else {
                    let j2 = turn(pr, k, j, len - 2 - h);
                    assert(p == pr.node(k, j2));
                    assert(element_ok(m, pr, k, j2));
                    assert(rot[len - 1 - h] == o[j2]);
                    assert(pr.option_ok(o));
                    assert((b + rot.take(len - h)).last() == rot[len - 1 - h]);
                }
            }
            let j = self.elements[p].top();
            if j == 0 {
                p = self.elements[p].d();
            } else {
                self.uncover(j).unwrap();
                proof {
                    assert(self.covered@ =~= b + rot.take(len - h - 1));
                    h = h + 1;
                }
            }
            p -= 1;
            proof {
                w = w + 1;
            }
        }
        proof {
            self.lemma_at(course(pr, self.covered@));
            assert(element_ok(self.elements@, pr, k, j));
            assert(self.covered@ =~= b.push(i));
        }
        self.idx = self.elements[x_l].top();
        let next = self.elements[x_l].d();
        self.sol_vec[self.l] = next;

        self.stage = Stage::X5;
        proof {
            let m = self.elements@;
            let cs2 = self.covered@;
            let rest = fr.drop_last();
            assert(cs2.drop_last() =~= b);
            lemma_usable_linked(pr, b, i, k);
            let hid = hidden(course(pr, cs2));
            assert(owners(m)[x_l as int] == i);
            assert(node_ok(owners(m), ups(m), downs(m), hid, x_l as int));
            assert(downs(m)[x_l as int] == next);
            let k2 = lemma_next_candidate(pr, m, b, i, x_l as int, k + 1, next as int);
            self.cand = Ghost(k2);
            self.frames = Ghost(rest);
            lemma_branch_skip(pr, b, i, k + 1, k2);
            assert forall|a: int| 0 <= a < rest.len() implies (#[trigger] self.sol_vec@[a])
                == pr.node(rest[a].1, pos(pr.options[rest[a].1], rest[a].0)) by {
                assert(rest[a] == fr[a]);
                assert(self.sol_vec@[a] == old(self).sol_vec@[a]);
            }
            assert(self.trying());
            assert(self.search_wf());
        }
        None
    }

    /// Implements algorithm X as a finite state machine: returns the next
    /// solution, as the names of its options in the order in which they were
    /// chosen, or `None` when there is none left. Once all solutions have been
    /// found, the covered items are again those that were covered before the
    /// search began.
    pub fn solve(&mut self) -> (r: Option<Vec<String>>)
        requires
            old(self).wf(),
        ensures
            final(self).wf(),
            final(self).mesh_wf(),
            final(self).problem() == old(self).problem(),
            final(self).names() == old(self).names(),
            final(self).origin() == old(self).origin(),
            r is Some <==> old(self).pending().len() > 0,
            r matches Some(v) ==> texts(v@) == old(self).named(old(self).pending()[0]),
            r is Some ==> in_range(old(self).pending()[0], old(self).problem().options.len()),
            r is Some ==> final(self).pending() == old(self).pending().drop_first(),
            r is Some ==> final(self).chosen() == old(self).pending()[0],
            r is None ==> final(self).pending().len() == 0,
            r is None ==> final(self).chosen().len() == 0,
            r is None ==> final(self).covered() == final(self).origin(),
            r is Some ==> final(self).at_solution() && final(self).depth() == final(self).chosen().len(),
            r is None ==> final(self).exhausted() && final(self).depth() == 0,
            final(self).levels() == old(self).levels(),
    {
        // Follows stages of algorithm description in Fasc 5c, Knuth

        // The only ways to break this loop are to yield a solution via X2 or to
        // have exhausted all solutions via X8
        loop
            invariant
                self.wf(),
                self.problem() == old(self).problem(),
                self.names() == old(self).names(),
                self.origin() == old(self).origin(),
                self.pending() == old(self).pending(),
                self.levels() == old(self).levels(),
            decreases self.toil(),
        {
            match self.stage {
                Stage::X2 => {
                    if let Some(z) = self.x2() {
                        return Some(z);
                    }
                },
                Stage::X3 => {
                    self.x3x4();
                },
                Stage::X5 => {
                    self.x5();
                },
                Stage::X6 => {
                    self.x6();
                },
                Stage::X8 => match self.x8() {
                    true => {},
                    false => {
                        return None;
                    },
                },
            };
        }
    }

    /// Produces the next solution, or `None` when no more solutions remain.
    pub fn next(&mut self) -> (r: Option<Vec<String>>)
        requires
            old(self).wf(),
        ensures
            final(self).wf(),
            final(self).mesh_wf(),
            final(self).problem() == old(self).problem(),
            final(self).names() == old(self).names(),
            final(self).origin() == old(self).origin(),
            r is Some <==> old(self).pending().len() > 0,
            r matches Some(v) ==> texts(v@) == old(self).named(old(self).pending()[0]),
            r is Some ==> in_range(old(self).pending()[0], old(self).problem().options.len()),
            r is Some ==> final(self).pending() == old(self).pending().drop_first(),
            r is Some ==> final(self).chosen() == old(self).pending()[0],
            r is None ==> final(self).pending().len() == 0,
            r is None ==> final(self).chosen().len() == 0,
            r is None ==> final(self).covered() == final(self).origin(),
            r is Some ==> final(self).at_solution() && final(self).depth() == final(self).chosen().len(),
            r is None ==> final(self).exhausted() && final(self).depth() == 0,
            final(self).levels() == old(self).levels(),
    {
        self.solve()
    }

    /// Runs the search to its end and returns the number of solutions that
    /// were still to come.
    pub fn count(self) -> (n: usize)
        requires
            self.wf(),
            self.pending().len() <= usize::MAX,
        ensures
            n == self.pending().len(),
    {
        let mut it = self;
        let ghost all = it.pending().len();
        let mut n: usize = 0;
        loop
            invariant
                it.wf(),
                all <= usize::MAX,
                n + it.pending().len() == all,
            ensures
                n == all,
            decreases it.pending().len(),
        {
            match it.next() {
                Some(_) => {
                    n += 1;
                },
                None => {
                    break ;
                },
            }
        }
        n
    }

    /// Selects the first option with the name `name`: covers its items, in
    /// their order, so that every solution found afterwards is one that goes
    /// with this option. The option itself is not named in those solutions.
    ///
    /// Fails, and leaves the solver as it is, if no option goes by the name.
    /// None of the items of the option may be covered already.
    pub fn select(&mut self, name: &str) -> (r: Result<(), &'static str>)
        requires
            old(self).mesh_wf(),
            forall|k: int|
                is_first(old(self).names(), name@, k) ==> disjoint(
                    old(self).problem().options[k],
                    old(self).covered(),
                ),
        ensures
            r is Err <==> !old(self).names().contains(name@),
            r is Err ==> *final(self) == *old(self),
            r is Ok ==> final(self).mesh_wf(),
            r is Ok ==> exists|k: int|
                is_first(old(self).names(), name@, k) && final(self).covered() == old(self).covered()
                    + old(self).problem().options[k],
            r is Ok ==> final(self).same_tables(old(self)),
            r is Ok && old(self).fresh() ==> final(self).fresh(),
            final(self).problem() == old(self).problem(),
            final(self).names() == old(self).names(),
            final(self).chosen() == old(self).chosen(),
    {
        let ghost pr = self.problem();
        let ghost cs = self.covered@;
        let ghost n = self.items as int;
        let ghost last = pr.options.len() as int;
        proof {
            self.lemma_at(course(pr, cs));
            pr.lemma_spacer_order(0, last);
        }
        // First get the spacer position of the option by firstly finding which
        // option it was
        let target = name.to_owned();
        let mut id: usize = 0;
        let mut found = false;
        while id < self.names.len() && !found
            invariant
                *self == *old(self),
                target@ == name@,
                id <= self.names@.len(),
                forall|k2: int|
                    0 <= k2 < id - (if found {
                        1int
                    } else {
                        0int
                    }) ==> self.names()[k2] != name@,
                found ==> id >= 1 && self.names()[id - 1] == name@,
            decreases self.names@.len() - id + (if found { 0int } else { 1int }),
        {
            if self.names[id] == target {
                found = true;
            }
            id += 1;
        }
        if !found {
            proof {
                if self.names().contains(name@) {
                    let a = choose|a: int| 0 <= a < self.names().len() && self.names()[a] == name@;
                }
            }
            return Err("Invalid option specified");
        }
        let id = id - 1;
        let ghost k = id as int;
        let ghost o = pr.options[k];
        let ghost len = o.len() as int;
        proof {
            assert(is_first(self.names(), name@, k));
            assert(self.names().contains(name@));
            assert(pr.option_ok(o));
        }
        // Now find the spacer id by going this many links down the chain
        // Start at root spacer node
        let mut spacer_id = self.items + 1;
        let mut step: usize = 0;
        while step < id
            invariant
                *self == *old(self),
                pr == self.problem(),
                n == self.items,
                last == pr.options.len(),
                k == id,
                k < last,
                step <= id,
                spacer_id == pr.spacer(step as int),
                rows_ok(self.elements@, pr),
                self.elements@.len() == pr.size(),
            decreases id - step,
        {
            proof {
                assert(spacer_ok(self.elements@, pr, step as int));
                pr.lemma_spacer_order(step as int, last);
            }
            spacer_id = self.elements[spacer_id].d();
            step += 1;
        }

        // Now have the spacer node: cycle around and cover everything until
        // we are at the next spacer
        proof {
            pr.lemma_spacer_step(k);
            pr.lemma_spacer_order(k + 1, last);
            assert(cs + o.take(0) =~= cs);
        }
        let mut p = spacer_id + 1;
        let ghost h: int = 0;
        loop
            invariant
                self.same_tables(old(self)),
                self.mesh_wf(),
                pr == self.problem(),
                n == self.items,
                n == pr.items,
                pr.valid(),
                stack_ok(pr, cs),
                last == pr.options.len(),
                0 <= k < last,
                o == pr.options[k],
                len == o.len(),
                disjoint(o, cs),
                pr.option_ok(o),
                0 <= h <= len,
                p == pr.spacer(k) + 1 + h,
                self.covered@ == cs + o.take(h),
                pr.spacer(k + 1) == pr.spacer(k) + len + 1,
                pr.spacer(k + 1) < pr.size() <= usize::MAX,
            ensures
                self.same_tables(old(self)),
                self.mesh_wf(),
                self.covered@ == cs + o,
            decreases len - h,
        {
            proof {
                self.lemma_at(course(pr, self.covered@));
                let m = self.elements@;
                if h == len {
                    assert(spacer_ok(m, pr, k + 1));
                    assert(o.take(len) =~= o);
                } else {
                    assert(p == pr.node(k, h));
                    assert(element_ok(m, pr, k, h));
                    assert(o.contains(o[0]));
                    crate::course::lemma_pos(o, 0);
                    assert(rotate(o, 0) =~= o);
                    lemma_extend_ok(pr, cs, o[0], k, h);
                }
            }
            match self.elements[p] {
                Link::OptionElement(_) => {
                    self.cover(self.elements[p].top()).unwrap();
                    p += 1;
                    proof {
                        assert(self.covered@ =~= cs + o.take(h + 1));
                        h = h + 1;
                    }
                },
                Link::Spacer(_) => {
                    break ;
                },
                Link::Item(_) => {
                    break ;
                },
            };
        }

        Ok(())
    }

    /// What the mesh of a solver in order is: the mesh of the problem with
    /// nothing covered, taken through the steps of covering the covered
    /// items; with the rows of the problem in their places, every column a
    /// ring through its item and the option elements that are linked, and
    /// the header and the items that are not covered a ring.
    pub proof fn lemma_mesh(&self)
        requires
            self.mesh_wf(),
        ensures
            self.problem().valid(),
            stack_ok(self.problem(), self.covered()),
            is_base(base(self.problem()), self.problem()),
            self.nodes() == replay(
                base(self.problem()),
                course(self.problem(), self.covered()),
            ),
            self.nodes().len() == self.problem().size(),
            rows_ok(self.nodes(), self.problem()),
            links_ok(
                self.nodes(),
                self.problem().items as int,
                hidden(course(self.problem(), self.covered())),
                self.covered().to_set(),
            ),
    {
        self.lemma_at(course(self.problem(), self.covered@));
        lemma_course(self.problem(), self.covered@);
    }

    /// The count of an item is the number of option elements that are
    /// reached by walking down from the item, and all of them belong to the
    /// item.
    pub proof fn lemma_lengths(&self, i: int) -> (col: Seq<int>)
        requires
            self.mesh_wf(),
            self.is_item(i),
        ensures
            walks(self.nodes(), i, col),
            self.nodes()[i].count() == col.len(),
            forall|j: int|
                0 <= j < col.len() ==> (#[trigger] self.nodes()[col[j]]) is OptionElement
                    && self.nodes()[col[j]].owner() == i,
            !self.covered().contains(i) ==> col.len() == width(self.problem(), self.covered(), i),
    {
        if !self.covered@.contains(i) {
            self.lemma_width(i);
        }
        let pr = self.problem();
        let m = self.elements@;
        let hid = hidden(course(pr, self.covered@));
        self.lemma_at(course(pr, self.covered@));
        let tops = owners(m);
        let col = column(tops, hid, i, m.len() as int);
        lemma_walk(tops, ups(m), downs(m), counts(m), self.items as int, hid, i);
        crate::mesh::lemma_column(tops, hid, i, m.len() as int);
        assert(counts(m)[i] == m[i].count());
        assert(downs(m)[i] == m[i].down());
        assert forall|j: int| 0 <= j < col.len() implies 0 <= #[trigger] col[j] < m.len() && col[j]
            != i && m[col[j]] is OptionElement && m[col[j]].owner() == i && downs(m)[col[j]]
            == m[col[j]].down() by {
            assert(linked(tops, hid, i, col[j]));
            let _ = m[col[j]];
        }
        col
    }

    /// Once a problem is built, with its options added and nothing covered,
    /// the count of every item is the number of option elements that are
    /// reached by walking down from the item, all of them belong to the
    /// item, and they are as many as the options that hold the item.
    pub proof fn lemma_lengths_built(&self, i: int) -> (col: Seq<int>)
        requires
            self.fresh(),
            self.covered().len() == 0,
            self.is_item(i),
        ensures
            walks(self.nodes(), i, col),
            self.nodes()[i].count() == col.len(),
            forall|j: int|
                0 <= j < col.len() ==> (#[trigger] self.nodes()[col[j]]) is OptionElement
                    && self.nodes()[col[j]].owner() == i,
            col.len() == holders(self.problem(), i, self.problem().options.len() as int),
    {
        self.lemma_fresh();
        let col = self.lemma_lengths(i);
        assert(self.covered@ =~= Seq::<int>::empty());
        self.lemma_width(i);
        lemma_choices_holders(self.problem(), i, self.problem().options.len() as int);
        col
    }

    /// Covering an item and uncovering it again leaves every node of the
    /// mesh as it was: whatever solver comes out of the cover, and whatever
    /// solver comes out of the uncover after it, the last has the nodes of
    /// the first.
    pub proof fn lemma_cover_uncover(before: Solver, between: Solver, after: Solver, i: int)
        requires
            before.mesh_wf(),
            between.mesh_wf(),
            between.problem() == before.problem(),
            between.covered() == before.covered().push(i),
            after.mesh_wf(),
            after.problem() == between.problem(),
            after.covered() == between.covered().drop_last(),
        ensures
            after.nodes() == before.nodes(),
    {
        assert(before.covered@.push(i).drop_last() =~= before.covered@);
    }

    /// At any time, the solutions to come are the rest of the solutions of
    /// the problem with the items covered that were covered before the search
    /// began.
    pub proof fn lemma_rest(&self)
        requires
            self.wf(),
        ensures
            stack_ok(self.problem(), self.origin()),
            is_rest(solutions(self.problem(), self.origin()), self.pending()),
    {
        let p = self.problem();
        let cs = self.covered@;
        let fr = self.frames@;
        self.lemma_at(course(p, cs));
        match self.stage {
            Stage::X5 => {
                let b = cs.drop_last();
                assert(cs =~= b.push(self.idx as int));
                assert(stack_ok(p, b)) by {
                    assert forall|a: int| 0 <= a < b.len() implies 1 <= #[trigger] b[a]
                        <= p.items by {
                        assert(b[a] == cs[a]);
                    }
                }
                assert(cs[cs.len() - 1] == self.idx);
                lemma_frames_rest(p, b, fr);
                lemma_trying_rest(p, b, self.idx as int, self.cand@, fr);
            },
            _ => {
                lemma_frames_rest(p, cs, fr);
            },
        }
    }

    /// Before the search has begun, every solution to come is an exact cover
    /// of what is not covered, by options that each hold a primary item, and
    /// no two of the solutions to come have the same options.
    pub proof fn lemma_pending(&self)
        requires
            self.fresh(),
        ensures
            self.pending() == solutions(self.problem(), self.covered()),
            all_exact(self.problem(), self.covered(), self.pending()),
            all_differ(self.pending()),
    {
        self.lemma_fresh();
        self.lemma_mesh();
        lemma_solutions(self.problem(), self.covered@);
    }

    /// The options of a solver in order name items of the problem, none of
    /// them twice, and the numbers of these items fit the machine's integers.
    pub proof fn lemma_option_in_range(&self, k: int)
        requires
            self.wf(),
            0 <= k < self.problem().options.len(),
        ensures
            self.problem().option_ok(self.problem().options[k]),
            self.problem().items <= usize::MAX,
    {
        self.lemma_at(course(self.problem(), self.covered@));
    }
}

impl Solver {
    /// Adds the lines of the options to the text: each item of an option
    /// that is not covered comes to stand below its place in the first line.
    fn display_rows(&self, out: &mut String, linked_items: &HashMap<Index, usize>)
        requires
            self.mesh_wf(),
            places(linked_items@, self.covered@, self.items as int),
        ensures
            final(out)@ == old(out)@ + seq!['\n'] + shown_rows(
                self.problem(),
                self.covered@,
                self.problem().options.len() as int,
            ),
    {
        let ghost pr = self.problem();
        let ghost cs = self.covered@;
        let ghost n = self.items as int;
        let ghost last = pr.options.len() as int;
        let ghost m = self.elements@;
        let ghost head = out@;
        proof {
            self.lemma_at(course(pr, cs));
            reveal_strlit("\n");
            assert("\n"@ =~= seq!['\n']);
            pr.lemma_spacer_order(0, last);
        }
        let mut last_col: usize = 1;
        let ghost k: int = 0;
        let ghost j: int = 0;
        let mut p = 1 + self.items;
        while p < self.elements.len()
            invariant
                m == self.elements@,
                pr == self.problem(),
                n == self.items,
                n == pr.items,
                last == pr.options.len(),
                pr.valid(),
                rows_ok(m, pr),
                m.len() == pr.size(),
                m.len() <= usize::MAX,
                n + 1 <= p <= m.len(),
                0 <= k <= last,
                p == n + 1 ==> k == 0 && j == 0 && out@ == head,
                p > n + 1 ==> out@ == head + seq!['\n'] + shown_rows(pr, cs, k) + shown_row(
                    cs,
                    pr.options[k],
                    j,
                ).text && last_col == shown_row(cs, pr.options[k], j).place,
                p > n + 1 && k < last ==> 0 <= j <= pr.options[k].len() && p == pr.node(k, j),
                p > n + 1 && k == last ==> j == 0 && p == m.len(),
                last_col <= n + 1,
                places(linked_items@, cs, n),
                "\n"@ == seq!['\n'],
            decreases m.len() - p,
        {
            proof {
                if p == n + 1 {
                    assert(spacer_ok(m, pr, 0));
                } else {
                    pr.lemma_spacer_step(k);
                    pr.lemma_spacer_order(k + 1, last);
                    if j == pr.options[k].len() {
                        assert(spacer_ok(m, pr, k + 1));
                    } else {
                        assert(element_ok(m, pr, k, j));
                        assert(pr.option_ok(pr.options[k]));
                    }
                }
            }
            match self.elements[p] {
                Link::Item(_) => {},
                Link::Spacer(_) => {
                    out.append("\n");
                    last_col = 0;
                    proof {
                        if p == n + 1 {
                            assert(shown_rows(pr, cs, 0) =~= Seq::<char>::empty());
                            assert(shown_row(cs, pr.options[0], 0).text =~= Seq::<char>::empty());
                            assert(out@ =~= head + seq!['\n'] + shown_rows(pr, cs, 0) + shown_row(
                                cs,
                                pr.options[0],
                                0,
                            ).text);
                        } else {
                            assert(shown_row(cs, pr.options[k + 1], 0).text =~= Seq::<char>::empty());
                            assert(shown_rows(pr, cs, k + 1) == shown_rows(pr, cs, k) + shown_row(
                                cs,
                                pr.options[k],
                                j,
                            ).text + seq!['\n']);
                            assert(out@ =~= head + seq!['\n'] + shown_rows(pr, cs, k + 1) + shown_row(
                                cs,
                                pr.options[k + 1],
                                0,
                            ).text);
                            k = k + 1;
                            j = 0;
                        }
                        if k < last {
                            pr.lemma_spacer_step(k);
                        }
                    }
                },
                Link::OptionElement(_) => {
                    let t = self.elements[p].top();
                    let ghost pen = shown_row(cs, pr.options[k], j);
                    let ghost next = shown_row(cs, pr.options[k], j + 1);
                    proof {
                        assert(t == pr.options[k][j]);
                        assert(linked_items@.contains_key(t) <==> !cs.contains(t as int));
                        lemma_open_count(cs, t - 1);
                    }
                    match linked_items.get(&t) {
                        Some(cur) => {
                            let cur_col = *cur;
                            proof {
                                assert(cur_col == open_count(cs, t - 1));
                            }
                            let del: u128 = if 1 + cur_col >= last_col {
                                2 * ((1 + cur_col - last_col) as u128)
                            } else {
                                0
                            };
                            let d = decimal(t);
                            push_padded(out, d.as_str(), del);
                            last_col = cur_col + 1;
                            proof {
                                assert(del == field(cur_col as int, pen.place));
                                assert(out@ =~= head + seq!['\n'] + shown_rows(pr, cs, k) + next.text);
                            }
                        },
                        None => {
                            proof {
                                assert(next == pen);
                            }
                        },
                    }
                    proof {
                        j = j + 1;
                    }
                },
            };
            p += 1;
        }
        proof {
            if k < last {
                pr.lemma_spacer_step(k);
                pr.lemma_spacer_order(k + 1, last);
            }
            assert(shown_row(cs, pr.options[k], 0).text =~= Seq::<char>::empty());
            assert(out@ =~= head + seq!['\n'] + shown_rows(pr, cs, last));
        }
    }

    /// Shows the problem as a text: in the first line the items that are not
    /// covered, then one line for each option, with each of its items that is
    /// not covered below the place of the item in the first line.
    pub fn display(&self) -> (r: String)
        requires
            self.mesh_wf(),
        ensures
            r@ == shown(self.problem(), self.covered()),
    {
        let ghost pr = self.problem();
        let ghost cs = self.covered@;
        let ghost n = self.items as int;
        let ghost cov = cs.to_set();
        let ghost m = self.elements@;
        proof {
            self.lemma_at(course(pr, cs));
            lemma_course(pr, cs);
            assert(rights(m)[0] == m[0].right());
            reveal_strlit(" ");
            assert(" "@ =~= seq![' ']);
        }
        let mut out = String::new();
        let mut linked_items: HashMap<Index, usize> = HashMap::new();
        let mut col_num: usize = 0;

        out.append(" ");
        // First print only the linked items, and find their column numbers
        let mut index = self.elements[0].r();
        let ghost seen: int = 0;
        proof {
            let r = index as int;
            let b = if r == 0 {
                n
            } else {
                r - 1
            };
            assert forall|z: int| 0 < z <= b implies cs.contains(z) by {
                assert(cov.contains(z));
            }
            lemma_shown_gap(cs, 0, b);
            seen = b;
            assert(out@ =~= seq![' '] + shown_items(cs, seen));
            assert(places(linked_items@, cs, seen)) by {
                assert forall|i: usize| 1 <= i <= seen implies cs.contains(i as int) by {}
            }
        }
        while index != 0
            invariant
                m == self.elements@,
                n == self.items,
                cov == cs.to_set(),
                static_ok(m, n),
                horizontal_ok(m, n, cov),
                0 <= index <= n,
                0 <= seen <= n,
                index != 0 ==> seen == index - 1 && !cs.contains(index as int),
                index == 0 ==> seen == n,
                col_num == open_count(cs, seen),
                col_num <= seen,
                out@ == seq![' '] + shown_items(cs, seen),
                places(linked_items@, cs, seen),
                " "@ == seq![' '],
            decreases n - seen,
        {
            proof {
                assert(item_ok(lefts(m), rights(m), n, cov, index as int));
                assert(rights(m)[index as int] == m[index as int].right());
            }
            let ghost table = linked_items@;
            linked_items.insert(index, col_num);
            col_num += 1;
            let d = decimal(index);
            out.append(d.as_str());
            out.append(" ");
            let ghost here = index;
            index = self.elements[index].r();
            proof {
                let r = index as int;
                let b = if r == 0 {
                    n
                } else {
                    r - 1
                };
                assert forall|z: int| here < z <= b implies cs.contains(z) by {
                    assert(cov.contains(z));
                }
                lemma_shown_gap(cs, here as int, b);
                lemma_places_step(table, cs, here, b);
                seen = b;
                assert(out@ =~= seq![' '] + shown_items(cs, seen));
            }
        }
        self.display_rows(&mut out, &linked_items);
        proof {
            assert(out@ =~= shown(pr, cs));
        }
        out
    }
}

impl Clone for Solver {
    /// A copy of the solver: it holds the same problem in the same state,
    /// and goes its own way from there.
    fn clone(&self) -> (r: Self)
        ensures
            r.nodes() == self.nodes(),
            r.problem() == self.problem(),
            r.names() == self.names(),
            r.covered() == self.covered(),
            r.chosen() == self.chosen(),
            r.pending() == self.pending(),
            r.mesh_wf() == self.mesh_wf(),
            r.wf() == self.wf(),
            r.fresh() == self.fresh(),
    {
        let r = Solver {
            elements: self.elements.clone(),
            items: self.items,
            l: self.l,
            sol_vec: self.sol_vec.clone(),
            yielding: self.yielding,
            idx: self.idx,
            names: self.names.clone(),
            spacer_ids: self.spacer_ids.clone(),
            stage: self.stage,
            optional: self.optional,
            options: Ghost(self.options@),
            covered: Ghost(self.covered@),
            frames: Ghost(self.frames@),
            cand: Ghost(self.cand@),
        };
        proof {
            assert(r.elements@ =~= self.elements@);
            assert(r.sol_vec@ =~= self.sol_vec@);
            assert(r.names@ =~= self.names@);
            assert(r.names() =~= self.names());
            assert(r.stage == self.stage);
        }
        r
    }
}

} // verus!
