//! The nodes of the octree: what region of points a node stands for, the
//! compressed form, and reading and writing one point below a node.

use vstd::prelude::*;
use vstd::pervasive::unreached;
use crate::index::Index;
use crate::index::lemma_same_cell_step;
use crate::index::lemma_same_cell_zero;

verus! {

/// A node of the tree. At height `h` it covers a cube of side `2^h`.
#[derive(Debug, PartialEq, Eq)]
pub enum Node {
    /// No point of the cube is set.
    Empty,
    /// Every point of the cube is set.
    Full,
    /// The cube is split at the midpoint of each axis. The child for the
    /// octant with bits `(x, y, z)` has the number `4z + 2y + x`.
    Branch(Box<[Node; 8]>),
}

impl Node {
    /// The node that gives every point of its cube the same `value`.
    pub open spec fn terminal(value: bool) -> Node {
        if value {
            Node::Full
        } else {
            Node::Empty
        }
    }

    /// Whether the eight children are all the terminal of `value`.
    pub open spec fn uniform(children: [Node; 8], value: bool) -> bool {
        forall|i: int| 0 <= i < 8 ==> #[trigger] children[i] == Node::terminal(value)
    }

    /// The compressed form of a node at height `h`: branches occur only
    /// above height 0, and no branch, here or below, has eight children
    /// that are the same terminal.
    pub open spec fn canonical(self, h: nat) -> bool
        decreases h,
    {
        match self {
            Node::Branch(children) => {
                &&& h > 0
                &&& forall|i: int| 0 <= i < 8 ==> (#[trigger] children[i]).canonical((h - 1) as nat)
                &&& !Node::uniform(*children, false)
                &&& !Node::uniform(*children, true)
            },
            _ => true,
        }
    }

    /// Whether the point `p` is set, for a node at height `h` whose cube
    /// holds `p`. Only the `h` lowest bits of each coordinate are read.
    pub open spec fn contains(self, h: nat, p: Index) -> bool
        decreases h,
    {
        match self {
            Node::Empty => false,
            Node::Full => true,
            Node::Branch(children) => h > 0 && children[p.spec_octant((h - 1) as nat) as int].contains(
                (h - 1) as nat,
                p,
            ),
        }
    }

    /// Whether this node is the terminal of `value`.
    pub fn holds(&self, value: bool) -> (b: bool)
        ensures
            b == (*self == Node::terminal(value)),
    {
        match self {
            Node::Empty => !value,
            Node::Full => value,
            Node::Branch(_) => false,
        }
    }

    /// A branch whose eight children are all the terminal of `value`: it
    /// stands for the same points as that terminal.
    fn split(value: bool) -> (node: Node)
        ensures
            node matches Node::Branch(children) && Node::uniform(*children, value),
    {
        Node::Branch(
            Box::new(
                [
                    Node::from(value),
                    Node::from(value),
                    Node::from(value),
                    Node::from(value),
                    Node::from(value),
                    Node::from(value),
                    Node::from(value),
                    Node::from(value),
                ],
            ),
        )
    }

    /// Reads the point `idx` below a node at height `h`, descending from
    /// the node until a terminal is met.
    pub fn get(&self, h: u32, idx: &Index) -> (b: bool)
        requires
            self.canonical(h as nat),
        ensures
            b == self.contains(h as nat, *idx),
    {
        let mut node: &Node = self;
        let mut level: u32 = h;
        loop
            invariant
                level <= h,
                node.canonical(level as nat),
                node.contains(level as nat, *idx) == self.contains(h as nat, *idx),
            decreases level,
        {
            match node {
                Node::Empty => {
                    return false;
                },
                Node::Full => {
                    return true;
                },
                Node::Branch(children) => {
                    level = level - 1;
                    node = &children[idx.octant(level)];
                },
            }
        }
    }

    /// Replaces a branch whose eight children are all the terminal of
    /// `value` by that terminal, and says whether it did. Anything else is
    /// left as it is.
    pub fn compress(&mut self, value: bool) -> (merged: bool)
        ensures
            merged == (*old(self) matches Node::Branch(children) && Node::uniform(
                *children,
                value,
            )),
            merged ==> *final(self) == Node::terminal(value),
            !merged ==> *final(self) == *old(self),
    {
        let merged = match &*self {
            Node::Branch(children) => all_hold(children, value),
            _ => false,
        };
        if merged {
            *self = Node::from(value);
        }
        merged
    }

    /// Writes `value` at the point `idx` below a node at height `h`, and
    /// says whether the point had the other value before.
    ///
    /// A terminal that already has `value` is left alone. A terminal with
    /// the other value is the point itself at height 0 and is overwritten;
    /// above height 0 it is first split into eight children of its own
    /// value. Then the child that holds `idx` is written, and on the way
    /// back up each branch whose children have all become the terminal of
    /// `value` is merged into that terminal, up to the first branch that
    /// is not: the node is left in its compressed form.
    pub fn set(&mut self, h: u32, idx: &Index, value: bool) -> (changed: bool)
        requires
            old(self).canonical(h as nat),
            h <= 32,
        ensures
            final(self).canonical(h as nat),
            changed == (old(self).contains(h as nat, *idx) != value),
            !changed ==> *final(self) == *old(self),
            forall|p: Index|
                p.same_cell(*idx, h as nat) ==> #[trigger] final(self).contains(h as nat, p) == (if p
                    == *idx {
                    value
                } else {
                    old(self).contains(h as nat, p)
                }),
        decreases h,
    {
        if self.holds(value) {
            return false;
        }
        if h == 0 {
            *self = Node::from(value);
            proof {
                assert forall|p: Index| p.same_cell(*idx, 0) implies p == *idx by {
                    lemma_same_cell_zero(p, *idx);
                }
            }
            return true;
        }
        let level: u32 = h - 1;
        let o = idx.octant(level);
        if self.holds(!value) {
            *self = Node::split(!value);
            assert forall|p: Index| #[trigger]
                self.contains(h as nat, p) == old(self).contains(h as nat, p) by {
                lemma_octant_bound(p, level as nat);
                lemma_terminal_contains(!value, level as nat, p);
                lemma_terminal_contains(!value, h as nat, p);
            }
        }
        let ghost before = *self;
        let (changed, settled) = match self {
            Node::Branch(children) => {
                let changed = children[o].set(level, idx, value);
                (changed, children[o].holds(value))
            },
            // A terminal was returned from, overwritten or split above.
            _ => unreached(),
        };
        if changed {
            proof {
                lemma_set_in_branch(before, *self, h as nat, *idx, value);
            }
            let ghost written = *self;
            // The walk back up stops at the first branch that is not
            // merged: above a child that is still a branch nothing can
            // have become uniform.
            let merged = settled && self.compress(value);
            proof {
                assert forall|p: Index| p.same_cell(*idx, h as nat) implies #[trigger] self.contains(
                    h as nat,
                    p,
                ) == (if p == *idx {
                    value
                } else {
                    old(self).contains(h as nat, p)
                }) by {
                    assert(before.contains(h as nat, p) == old(self).contains(h as nat, p));
                    if merged {
                        lemma_terminal_contains(value, h as nat, p);
                    }
                }
            }
        } else {
            proof {
                lemma_terminal_contains(!value, level as nat, *idx);
                assert(*self->Branch_0 =~= *before->Branch_0);
            }
        }
        changed
    }
}

/// A terminal gives every point its value, at any height.
pub proof fn lemma_terminal_contains(value: bool, h: nat, p: Index)
    ensures
        Node::terminal(value).contains(h, p) == value,
        Node::terminal(value).canonical(h),
{
}

/// The number of an octant is below 8.
pub proof fn lemma_octant_bound(p: Index, level: nat)
    ensures
        p.spec_octant(level) < 8,
{
    crate::index::lemma_axis_step(p.x as nat, p.x as nat, level);
    crate::index::lemma_axis_step(p.y as nat, p.y as nat, level);
    crate::index::lemma_axis_step(p.z as nat, p.z as nat, level);
}

/// What a branch at height `h` stands for after `value` was written at
/// `idx` in the child that holds `idx`: `before` is the branch as it was,
/// `after` the branch with that one child replaced.
proof fn lemma_set_in_branch(before: Node, after: Node, h: nat, idx: Index, value: bool)
    requires
        h > 0,
        before matches Node::Branch(c0) && after matches Node::Branch(c1) && {
            let o = idx.spec_octant((h - 1) as nat) as int;
            &&& forall|i: int| 0 <= i < 8 && i != o ==> c1[i] == c0[i]
            &&& forall|i: int| 0 <= i < 8 ==> (#[trigger] c0[i]).canonical((h - 1) as nat)
            &&& c1[o].canonical((h - 1) as nat)
            &&& forall|p: Index|
                p.same_cell(idx, (h - 1) as nat) ==> #[trigger] c1[o].contains((h - 1) as nat, p)
                    == (if p == idx {
                    value
                } else {
                    c0[o].contains((h - 1) as nat, p)
                })
        },
    ensures
        forall|p: Index|
            p.same_cell(idx, h) ==> #[trigger] after.contains(h, p) == (if p == idx {
                value
            } else {
                before.contains(h, p)
            }),
        after matches Node::Branch(c1) && !Node::uniform(*c1, !value) && forall|i: int|
            0 <= i < 8 ==> (#[trigger] c1[i]).canonical((h - 1) as nat),
        after matches Node::Branch(c1) && Node::uniform(*c1, value) ==> forall|p: Index|
            p.same_cell(idx, h) && p != idx ==> #[trigger] before.contains(h, p) == value,
{
    let level = (h - 1) as nat;
    let o = idx.spec_octant(level) as int;
    let c0 = *before->Branch_0;
    let c1 = *after->Branch_0;
    lemma_octant_bound(idx, level);
    assert(idx.same_cell(idx, level));
    lemma_terminal_contains(!value, level, idx);
    assert(c1[o] != Node::terminal(!value));
    assert forall|i: int| 0 <= i < 8 implies (#[trigger] c1[i]).canonical(level) by {
        if i != o {
            assert(c1[i] == c0[i]);
        }
    }
    assert forall|p: Index| p.same_cell(idx, h) implies #[trigger] after.contains(h, p) == (if p
        == idx {
        value
    } else {
        before.contains(h, p)
    }) by {
        lemma_same_cell_step(p, idx, level);
        lemma_octant_bound(p, level);
        let i = p.spec_octant(level) as int;
        if i == o {
            assert(c1[o].contains(level, p) == (if p == idx {
                value
            } else {
                c0[o].contains(level, p)
            }));
        } else {
            assert(c1[i] == c0[i]);
        }
    }
    if Node::uniform(c1, value) {
        assert forall|p: Index| p.same_cell(idx, h) && p != idx implies #[trigger] before.contains(
            h,
            p,
        ) == value by {
            lemma_octant_bound(p, level);
            let i = p.spec_octant(level) as int;
            assert(c1[i] == Node::terminal(value));
            lemma_terminal_contains(value, level, p);
            assert(after.contains(h, p) == value);
        }
    }
}

impl From<bool> for Node {
    fn from(value: bool) -> (node: Self) {
        if value {
            Node::Full
        } else {
            Node::Empty
        }
    }
}

impl vstd::std_specs::convert::FromSpecImpl<bool> for Node {
    open spec fn obeys_from_spec() -> bool {
        true
    }

    open spec fn from_spec(value: bool) -> Self {
        Node::terminal(value)
    }
}

/// Whether the eight children are all the terminal of `value`.
fn all_hold(children: &[Node; 8], value: bool) -> (b: bool)
    ensures
        b == Node::uniform(*children, value),
{
    let mut i: usize = 0;
    while i < 8
        invariant
            i <= 8,
            forall|j: int| 0 <= j < i ==> #[trigger] children[j] == Node::terminal(value),
        decreases 8 - i,
    {
        if !children[i].holds(value) {
            return false;
        }
        i = i + 1;
    }
    true
}

} // verus!
