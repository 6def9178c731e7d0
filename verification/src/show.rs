//! How a problem is shown as a text: first the items that are not covered,
//! then one line for each option, with each item of the option that is not
//! covered below its place in the first line.

use vstd::prelude::*;
use vstd::string::{StringExecFns, StrSliceExecFns};
use crate::label::digits;
use crate::problem::Problem;

verus! {

/// A run of `k` blanks.
pub open spec fn blanks(k: int) -> Seq<char> {
    Seq::new(
        if k > 0 {
            k as nat
        } else {
            0
        },
        |i: int| ' ',
    )
}

/// The text set to the right in a field of `w` characters; a text that is
/// longer than the field stays as it is.
pub open spec fn padded(t: Seq<char>, w: int) -> Seq<char> {
    blanks(w - t.len()) + t
}

/// The number of items up to `b` that are not covered.
pub open spec fn open_count(cs: Seq<int>, b: int) -> int
    decreases b,
{
    if b <= 0 {
        0
    } else {
        open_count(cs, b - 1) + if cs.contains(b) {
            0int
        } else {
            1int
        }
    }
}

/// The items up to `b` that are not covered, each followed by a blank.
pub open spec fn shown_items(cs: Seq<int>, b: int) -> Seq<char>
    decreases b,
{
    if b <= 0 {
        Seq::empty()
    } else if cs.contains(b) {
        shown_items(cs, b - 1)
    } else {
        shown_items(cs, b - 1) + digits(b as nat) + seq![' ']
    }
}

/// A line as far as it is written, and the place in the first line up to
/// which it reaches.
pub struct Pen {
    pub text: Seq<char>,
    pub place: int,
}

/// The width of the field for an item that stands at place `c` of the first
/// line, behind a line that reaches up to `place`.
pub open spec fn field(c: int, place: int) -> int {
    if 1 + c >= place {
        2 * (1 + c - place)
    } else {
        0
    }
}

/// The line of an option after the first `j` of its items.
pub open spec fn shown_row(cs: Seq<int>, o: Seq<int>, j: int) -> Pen
    decreases j,
{
    if j <= 0 {
        Pen { text: Seq::empty(), place: 0 }
    } else {
        let pen = shown_row(cs, o, j - 1);
        let t = o[j - 1];
        if cs.contains(t) {
            pen
        } else {
            let c = open_count(cs, t - 1);
            Pen { text: pen.text + padded(digits(t as nat), field(c, pen.place)), place: c + 1 }
        }
    }
}

/// The lines of the first `k` options.
pub open spec fn shown_rows(p: Problem, cs: Seq<int>, k: int) -> Seq<char>
    decreases k,
{
    if k <= 0 {
        Seq::empty()
    } else {
        shown_rows(p, cs, k - 1) + shown_row(cs, p.options[k - 1], p.options[k - 1].len() as int).text
            + seq!['\n']
    }
}

/// The problem as a text, with the items of `cs` covered.
pub open spec fn shown(p: Problem, cs: Seq<int>) -> Seq<char> {
    seq![' '] + shown_items(cs, p.items as int) + seq!['\n'] + shown_rows(
        p,
        cs,
        p.options.len() as int,
    )
}

/// Where all items are covered, nothing is shown and nothing is counted.
pub proof fn lemma_shown_gap(cs: Seq<int>, a: int, b: int)
    requires
        0 <= a <= b,
        forall|z: int| a < z <= b ==> cs.contains(z),
    ensures
        shown_items(cs, b) == shown_items(cs, a),
        open_count(cs, b) == open_count(cs, a),
    decreases b - a,
{
    if a < b {
        lemma_shown_gap(cs, a, b - 1);
    }
}

/// Adds a text to another, set to the right in a field of `w` characters.
pub fn push_padded(out: &mut String, t: &str, w: u128)
    ensures
        final(out)@ == old(out)@ + padded(t@, w as int),
{
    let len = t.unicode_len() as u128;
    proof {
        reveal_strlit(" ");
        assert(" "@ =~= seq![' ']);
        assert(out@ + blanks(0) =~= out@);
    }
    let mut i: u128 = len;
    while i < w
        invariant
            i <= w || i == len,
            len == t@.len(),
            i >= len,
            out@ == old(out)@ + blanks(i - len),
            " "@ == seq![' '],
        decreases w - i,
    {
        out.append(" ");
        i += 1;
        proof {
            assert(out@ =~= old(out)@ + blanks(i - len));
        }
    }
    out.append(t);
    proof {
        assert(blanks(i - len) =~= blanks(w - len));
        assert(out@ =~= old(out)@ + padded(t@, w as int));
    }
}

/// The table gives every item up to `b` that is not covered its place in
/// the first line, and holds nothing else.
pub open spec fn places(table: Map<usize, usize>, cs: Seq<int>, b: int) -> bool {
    &&& forall|i: usize|
        #[trigger] table.contains_key(i) <==> 1 <= i <= b && !cs.contains(i as int)
    &&& forall|i: usize| #[trigger] table.contains_key(i) ==> table[i] == open_count(cs, i - 1)
}

/// One more item in the table, and the covered items behind it passed over.
pub proof fn lemma_places_step(table: Map<usize, usize>, cs: Seq<int>, here: usize, b: int)
    requires
        1 <= here <= b,
        places(table, cs, here - 1),
        !cs.contains(here as int),
        forall|z: int| here < z <= b ==> cs.contains(z),
        open_count(cs, here - 1) <= usize::MAX,
    ensures
        places(table.insert(here, open_count(cs, here - 1) as usize), cs, b),
{
    let t2 = table.insert(here, open_count(cs, here - 1) as usize);
    lemma_open_count(cs, here - 1);
    assert forall|i: usize| #[trigger] t2.contains_key(i) <==> 1 <= i <= b && !cs.contains(
        i as int,
    ) by {
        if i != here {
            assert(t2.contains_key(i) == table.contains_key(i));
        }
    }
    assert forall|i: usize| #[trigger] t2.contains_key(i) implies t2[i] == open_count(
        cs,
        i - 1,
    ) by {
        if i != here {
            assert(table.contains_key(i));
        }
    }
}

/// There are no more items that are not covered than there are items.
pub proof fn lemma_open_count(cs: Seq<int>, b: int)
    requires
        0 <= b,
    ensures
        0 <= open_count(cs, b) <= b,
    decreases b,
{
    if b > 0 {
        lemma_open_count(cs, b - 1);
    }
}

} // verus!
