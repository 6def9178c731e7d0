//! The exact cover problem as a mathematical object, and where its parts
//! stand in the arena.

use vstd::prelude::*;

verus! {

/// An exact cover problem: items `1..=items`, of which `1..=primary` must be
/// covered exactly once and the others at most once, and the options, each
/// the sequence of the items it covers.
pub struct Problem {
    pub primary: nat,
    pub items: nat,
    pub options: Seq<Seq<int>>,
}

impl Problem {
    /// An option names items of the problem, none of them twice.
    pub open spec fn option_ok(self, o: Seq<int>) -> bool {
        &&& o.no_duplicates()
        &&& forall|j: int| 0 <= j < o.len() ==> 1 <= #[trigger] o[j] <= self.items
    }

    /// The problem is well formed.
    pub open spec fn valid(self) -> bool {
        &&& self.primary <= self.items
        &&& forall|k: int| 0 <= k < self.options.len() ==> self.option_ok(#[trigger] self.options[k])
    }

    /// The same problem with one more option.
    pub open spec fn with_option(self, o: Seq<int>) -> Problem {
        Problem { options: self.options.push(o), ..self }
    }

    /// Where the spacer stands that closes option `k - 1`; spacer 0 is the
    /// root spacer, right behind the items.
    pub open spec fn spacer(self, k: int) -> int
        decreases k,
    {
        if k <= 0 {
            self.items as int + 1
        } else {
            self.spacer(k - 1) + self.options[k - 1].len() + 1
        }
    }

    /// Where the element of option `k` for its `j`-th item stands.
    pub open spec fn node(self, k: int, j: int) -> int {
        self.spacer(k) + 1 + j
    }

    /// The number of nodes in the arena.
    pub open spec fn size(self) -> int {
        self.spacer(self.options.len() as int) + 1
    }

    /// `z` is the place of the `j`-th element of option `k`.
    pub open spec fn at(self, z: int, k: int, j: int) -> bool {
        0 <= k < self.options.len() && 0 <= j < self.options[k].len() && z == self.node(k, j)
    }

    /// Later spacers stand further back, each behind the elements of its option.
    pub proof fn lemma_spacer_step(self, k: int)
        requires
            0 <= k < self.options.len(),
        ensures
            self.spacer(k + 1) == self.spacer(k) + self.options[k].len() + 1,
            self.spacer(k) > self.items,
    {
        self.lemma_spacer_order(0, k);
    }

    /// The spacers stand behind the items, in the order of their numbers,
    /// with room for the elements of the options between them.
    pub proof fn lemma_spacer_order(self, a: int, b: int)
        requires
            0 <= a <= b,
        ensures
            self.items < self.spacer(a) <= self.spacer(b),
            a < b ==> self.spacer(a) < self.spacer(b),
            a < b && b <= self.options.len() ==> self.spacer(a) + self.options[a].len() < self.spacer(
                b,
            ),
        decreases b,
    {
        if a < b {
            self.lemma_spacer_order(a, b - 1);
        } else {
            if a > 0 {
                self.lemma_spacer_order(0, a - 1);
            }
        }
    }

    /// Every place behind the root spacer is a spacer or an element of an option.
    pub proof fn lemma_locate(self, z: int) -> (r: (int, int))
        requires
            self.items + 1 < z < self.size(),
        ensures
            0 <= r.0 < self.options.len(),
            self.at(z, r.0, r.1) || (r.1 == self.options[r.0].len() && z == self.spacer(r.0 + 1)),
    {
        self.locate_below(z, self.options.len() as int)
    }

    /// Every place behind the root spacer and not behind spacer `b` is a
    /// spacer or an element of one of the first `b` options.
    pub proof fn locate_below(self, z: int, b: int) -> (r: (int, int))
        requires
            self.items + 1 < z <= self.spacer(b),
            0 <= b <= self.options.len(),
        ensures
            0 <= r.0 < b,
            self.at(z, r.0, r.1) || (r.1 == self.options[r.0].len() && z == self.spacer(r.0 + 1)),
        decreases b,
    {
        if z > self.spacer(b - 1) {
            (b - 1, z - self.spacer(b - 1) - 1)
        } else {
            self.locate_below(z, b - 1)
        }
    }

    /// Two different places are not the same node.
    pub proof fn lemma_node_unique(self, k1: int, j1: int, k2: int, j2: int)
        requires
            0 <= k1 < self.options.len(),
            0 <= k2 < self.options.len(),
            0 <= j1 <= self.options[k1].len(),
            0 <= j2 <= self.options[k2].len(),
            self.node(k1, j1) == self.node(k2, j2),
        ensures
            k1 == k2,
            j1 == j2,
    {
        if k1 < k2 {
            self.lemma_spacer_order(k1 + 1, k2);
            self.lemma_spacer_step(k1);
        } else if k2 < k1 {
            self.lemma_spacer_order(k2 + 1, k1);
            self.lemma_spacer_step(k2);
        }
    }

    /// One more option moves no spacer that was there.
    pub proof fn lemma_spacer_with_option(self, o: Seq<int>, k: int)
        requires
            0 <= k <= self.options.len(),
        ensures
            self.with_option(o).spacer(k) == self.spacer(k),
        decreases k,
    {
        if k > 0 {
            self.lemma_spacer_with_option(o, k - 1);
        }
    }
}

} // verus!
