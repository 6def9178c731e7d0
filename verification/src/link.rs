//! The node records of the link mesh.
//!
//! All nodes live in one arena and name each other by index. Three kinds of
//! node share the arena: items (the header among them), the spacers that
//! separate options, and the option elements, one per (option, item) pair.

use vstd::prelude::*;

verus! {

/// Position of a node in the arena.
pub type Index = usize;

/// One occurrence of an item in an option.
#[derive(Clone, Copy, Debug)]
pub struct OptionElement {
    pub ulink: Index,
    pub dlink: Index,
    pub top: Index,
}

/// Separator between two options; the spacers form a ring of their own.
#[derive(Clone, Copy, Debug)]
pub struct Spacer {
    pub ulink: Index,
    pub dlink: Index,
}

/// An item, or the header of the item list.
#[derive(Clone, Copy, Debug)]
pub struct Item {
    pub ulink: Index,
    pub dlink: Index,
    pub rlink: Index,
    pub llink: Index,
    pub l: usize,
}

/// A node of the mesh.
#[derive(Clone, Copy, Debug)]
pub enum Link {
    Spacer(Spacer),
    Item(Item),
    OptionElement(OptionElement),
}

impl Link {
    /// The node above, in the column (or in the ring of spacers).
    pub open spec fn up(self) -> int {
        match self {
            Link::Spacer(x) => x.ulink as int,
            Link::OptionElement(x) => x.ulink as int,
            Link::Item(x) => x.ulink as int,
        }
    }

    /// The node below.
    pub open spec fn down(self) -> int {
        match self {
            Link::Spacer(x) => x.dlink as int,
            Link::OptionElement(x) => x.dlink as int,
            Link::Item(x) => x.dlink as int,
        }
    }

    /// The item to the right; 0 for a node that is no item.
    pub open spec fn right(self) -> int {
        match self {
            Link::Item(x) => x.rlink as int,
            _ => 0,
        }
    }

    /// The item to the left; 0 for a node that is no item.
    pub open spec fn left(self) -> int {
        match self {
            Link::Item(x) => x.llink as int,
            _ => 0,
        }
    }

    /// The item that an option element belongs to; 0 for any other node.
    pub open spec fn owner(self) -> int {
        match self {
            Link::OptionElement(x) => x.top as int,
            _ => 0,
        }
    }

    /// The number of option elements linked below an item; 0 for any other node.
    pub open spec fn count(self) -> int {
        match self {
            Link::Item(x) => x.l as int,
            _ => 0,
        }
    }

    /// The same node with another upward link.
    pub open spec fn with_up(self, u: int) -> Link {
        match self {
            Link::Spacer(x) => Link::Spacer(Spacer { ulink: u as usize, ..x }),
            Link::OptionElement(x) => Link::OptionElement(OptionElement { ulink: u as usize, ..x }),
            Link::Item(x) => Link::Item(Item { ulink: u as usize, ..x }),
        }
    }

    /// The same node with another downward link.
    pub open spec fn with_down(self, d: int) -> Link {
        match self {
            Link::Spacer(x) => Link::Spacer(Spacer { dlink: d as usize, ..x }),
            Link::OptionElement(x) => Link::OptionElement(OptionElement { dlink: d as usize, ..x }),
            Link::Item(x) => Link::Item(Item { dlink: d as usize, ..x }),
        }
    }

    /// The same node with another link to the right; only items have one.
    pub open spec fn with_right(self, r: int) -> Link {
        match self {
            Link::Item(x) => Link::Item(Item { rlink: r as usize, ..x }),
            _ => self,
        }
    }

    /// The same node with another link to the left; only items have one.
    pub open spec fn with_left(self, l: int) -> Link {
        match self {
            Link::Item(x) => Link::Item(Item { llink: l as usize, ..x }),
            _ => self,
        }
    }

    /// The same node with another count; only items have one.
    pub open spec fn with_count(self, c: int) -> Link {
        match self {
            Link::Item(x) => Link::Item(Item { l: c as usize, ..x }),
            _ => self,
        }
    }

    /// The upward link.
    pub fn u(&self) -> (r: Index)
        ensures
            r == self.up(),
    {
        match self {
            Link::Spacer(x) => x.ulink,
            Link::OptionElement(x) => x.ulink,
            Link::Item(x) => x.ulink,
        }
    }

    /// The downward link.
    pub fn d(&self) -> (r: Index)
        ensures
            r == self.down(),
    {
        match self {
            Link::Spacer(x) => x.dlink,
            Link::OptionElement(x) => x.dlink,
            Link::Item(x) => x.dlink,
        }
    }

    /// The link to the right; 0 for a node that is no item.
    pub fn r(&self) -> (r: Index)
        ensures
            r == self.right(),
    {
        match self {
            Link::Spacer(_) => 0,
            Link::OptionElement(_) => 0,
            Link::Item(x) => x.rlink,
        }
    }

    /// The link to the left; 0 for a node that is no item.
    pub fn l(&self) -> (r: Index)
        ensures
            r == self.left(),
    {
        match self {
            Link::Spacer(_) => 0,
            Link::OptionElement(_) => 0,
            Link::Item(x) => x.llink,
        }
    }

    /// Sets the upward link.
    pub fn set_u(&mut self, u: Index)
        ensures
            *final(self) == old(self).with_up(u as int),
    {
        match self {
            Link::Spacer(x) => {
                x.ulink = u;
            },
            Link::OptionElement(x) => {
                x.ulink = u;
            },
            Link::Item(x) => {
                x.ulink = u;
            },
        }
    }

    /// Sets the downward link.
    pub fn set_d(&mut self, d: Index)
        ensures
            *final(self) == old(self).with_down(d as int),
    {
        match self {
            Link::Spacer(x) => {
                x.dlink = d;
            },
            Link::OptionElement(x) => {
                x.dlink = d;
            },
            Link::Item(x) => {
                x.dlink = d;
            },
        }
    }

    /// Sets the link to the right of an item; leaves any other node as it is.
    pub fn set_r(&mut self, r: Index)
        ensures
            *final(self) == old(self).with_right(r as int),
    {
        match self {
            Link::Spacer(_) => {},
            Link::OptionElement(_) => {},
            Link::Item(x) => {
                x.rlink = r;
            },
        }
    }

    /// Sets the link to the left of an item; leaves any other node as it is.
    pub fn set_l(&mut self, l: Index)
        ensures
            *final(self) == old(self).with_left(l as int),
    {
        match self {
            Link::Spacer(_) => {},
            Link::OptionElement(_) => {},
            Link::Item(x) => {
                x.llink = l;
            },
        }
    }

    /// The item that an option element belongs to; 0 for any other node.
    pub fn top(&self) -> (r: Index)
        ensures
            r == self.owner(),
    {
        match self {
            Link::Spacer(_) => 0,
            Link::OptionElement(x) => x.top,
            Link::Item(_) => 0,
        }
    }

    /// Counts one more option element below an item; leaves any other node
    /// as it is.
    pub fn inc_l(&mut self)
        requires
            old(self).count() < usize::MAX,
        ensures
            *final(self) == old(self).with_count(old(self).count() + 1),
    {
        match self {
            Link::Spacer(_) => {},
            Link::OptionElement(_) => {},
            Link::Item(x) => {
                x.l = x.l + 1;
            },
        }
    }

    /// Counts one option element less below an item; leaves any other node
    /// as it is.
    pub fn dec_l(&mut self)
        requires
            *old(self) is Item ==> old(self).count() > 0,
        ensures
            *final(self) == old(self).with_count(old(self).count() - 1),
    {
        match self {
            Link::Spacer(_) => {},
            Link::OptionElement(_) => {},
            Link::Item(x) => {
                x.l = x.l - 1;
            },
        }
    }

    /// The number of option elements linked below an item; 0 for any other
    /// node.
    pub fn get_l(&self) -> (r: usize)
        ensures
            r == self.count(),
    {
        match self {
            Link::Spacer(_) => 0,
            Link::OptionElement(_) => 0,
            Link::Item(x) => x.l,
        }
    }
}

} // verus!
