//! The compressed form is unique: two compressed nodes that stand for the
//! same points are the same tree, and a node of a compressed tree is a
//! terminal exactly where the points of its cube all have one value.

use vstd::prelude::*;
use vstd::arithmetic::power2::pow2;
use vstd::arithmetic::power2::lemma_pow2_pos;
use vstd::arithmetic::power2::lemma_pow2_unfold;
use vstd::arithmetic::power2::lemma_pow2_adds;
use vstd::arithmetic::power2::lemma2_to64;
use vstd::arithmetic::div_mod::lemma_fundamental_div_mod;
use vstd::arithmetic::div_mod::lemma_fundamental_div_mod_converse;
use crate::index::bit_at;
use crate::index::Index;
use crate::index::lemma_same_cell_step;
use crate::node::Node;
use crate::node::lemma_terminal_contains;

verus! {

/// On one axis: the coordinate in the cube of side `2^(level + 1)` around
/// `v` that is the first of its half, the lower half for `b == 0` and the
/// upper half for `b == 1`.
pub open spec fn with_bit(v: nat, level: nat, b: nat) -> nat {
    (v / pow2(level + 1)) * pow2(level + 1) + b * pow2(level)
}

/// The first point of octant `i` of the cube of side `2^(level + 1)`
/// around `c`.
pub open spec fn octant_corner(c: Index, level: nat, i: int) -> Index {
    Index {
        x: with_bit(c.x as nat, level, (i % 2) as nat) as u32,
        y: with_bit(c.y as nat, level, ((i / 2) % 2) as nat) as u32,
        z: with_bit(c.z as nat, level, (i / 4) as nat) as u32,
    }
}

/// `with_bit(v, level, b)` is a coordinate, lies in the same cube of side
/// `2^(level + 1)` as `v`, and has the bit `b` at `level`.
pub proof fn lemma_with_bit(v: nat, level: nat, b: nat)
    requires
        v <= u32::MAX,
        level < 32,
        b < 2,
    ensures
        with_bit(v, level, b) <= u32::MAX,
        with_bit(v, level, b) / pow2(level + 1) == v / pow2(level + 1),
        bit_at(with_bit(v, level, b), level) == b,
{
    let p = pow2(level) as int;
    let pp = pow2(level + 1) as int;
    let m = pow2((31 - level) as nat) as int;
    lemma_pow2_pos(level);
    lemma_pow2_pos((31 - level) as nat);
    lemma_pow2_unfold(level + 1);
    assert(pp == 2 * p);
    lemma_pow2_adds((31 - level) as nat, level + 1);
    lemma2_to64();
    assert(m * pp == 0x1_0000_0000) by {
        assert((31 - level) as nat + (level + 1) == 32);
    }
    let q = v as int / pp;
    let r = with_bit(v, level, b) as int;
    lemma_fundamental_div_mod(v as int, pp);
    assert(r == q * pp + b * p);
    assert(0 <= b * p < pp) by (nonlinear_arith)
        requires
            b < 2,
            p > 0,
            pp == 2 * p,
    ;
    lemma_fundamental_div_mod_converse(r, pp, q, b * p);
    assert(r == (2 * q + b) * p) by (nonlinear_arith)
        requires
            r == q * pp + b * p,
            pp == 2 * p,
    ;
    lemma_fundamental_div_mod_converse(r, p, 2 * q + b, 0);
    assert(q < m) by (nonlinear_arith)
        requires
            v == pp * q + v as int % pp,
            0 <= v as int % pp,
            v < m * pp,
            pp > 0,
    ;
    assert(r < 0x1_0000_0000) by (nonlinear_arith)
        requires
            r == q * pp + b * p,
            b * p < pp,
            q + 1 <= m,
            m * pp == 0x1_0000_0000,
            pp > 0,
    ;
}

/// The corner of octant `i` lies in the cube around `c`, in octant `i`.
pub proof fn lemma_octant_corner(c: Index, level: nat, i: int)
    requires
        level < 32,
        0 <= i < 8,
    ensures
        octant_corner(c, level, i).same_cell(c, level + 1),
        octant_corner(c, level, i).spec_octant(level) == i,
{
    lemma_with_bit(c.x as nat, level, (i % 2) as nat);
    lemma_with_bit(c.y as nat, level, ((i / 2) % 2) as nat);
    lemma_with_bit(c.z as nat, level, (i / 4) as nat);
}

/// A compressed node that gives every point of its cube the same value is
/// the terminal of that value.
pub proof fn lemma_constant_is_terminal(node: Node, h: nat, c: Index, value: bool)
    requires
        h <= 32,
        node.canonical(h),
        forall|p: Index| p.same_cell(c, h) ==> #[trigger] node.contains(h, p) == value,
    ensures
        node == Node::terminal(value),
    decreases h,
{
    match node {
        Node::Branch(children) => {
            let level = (h - 1) as nat;
            assert forall|i: int| 0 <= i < 8 implies #[trigger] children[i] == Node::terminal(
                value,
            ) by {
                let corner = octant_corner(c, level, i);
                lemma_octant_corner(c, level, i);
                assert forall|p: Index| p.same_cell(corner, level) implies #[trigger] children[i].contains(
                    level,
                    p,
                ) == value by {
                    lemma_same_cell_step(p, corner, level);
                    assert(p.same_cell(c, h));
                    assert(node.contains(h, p) == value);
                }
                lemma_constant_is_terminal(children[i], level, corner, value);
            }
            assert(Node::uniform(*children, value));
        },
        _ => {
            assert(c.same_cell(c, h));
            assert(node.contains(h, c) == value);
        },
    }
}

/// Two compressed nodes at the same height that agree on every point of
/// their cube are equal.
pub proof fn lemma_canonical_unique(a: Node, b: Node, h: nat, c: Index)
    requires
        h <= 32,
        a.canonical(h),
        b.canonical(h),
        forall|p: Index| p.same_cell(c, h) ==> #[trigger] a.contains(h, p) == b.contains(h, p),
    ensures
        a == b,
    decreases h,
{
    if !(a is Branch) {
        let value = a is Full;
        assert(a == Node::terminal(value));
        assert forall|p: Index| p.same_cell(c, h) implies #[trigger] b.contains(h, p) == value by {
            lemma_terminal_contains(value, h, p);
            assert(a.contains(h, p) == value);
        }
        lemma_constant_is_terminal(b, h, c, value);
    } else if !(b is Branch) {
        let value = b is Full;
        assert(b == Node::terminal(value));
        assert forall|p: Index| p.same_cell(c, h) implies #[trigger] a.contains(h, p) == value by {
            lemma_terminal_contains(value, h, p);
            assert(b.contains(h, p) == value);
        }
        lemma_constant_is_terminal(a, h, c, value);
    } else {
        let level = (h - 1) as nat;
        let ca = *a->Branch_0;
        let cb = *b->Branch_0;
        assert forall|i: int| 0 <= i < 8 implies ca[i] == cb[i] by {
            let corner = octant_corner(c, level, i);
            lemma_octant_corner(c, level, i);
            assert forall|p: Index| p.same_cell(corner, level) implies #[trigger] ca[i].contains(
                level,
                p,
            ) == cb[i].contains(level, p) by {
                lemma_same_cell_step(p, corner, level);
                assert(p.same_cell(c, h));
                assert(a.contains(h, p) == b.contains(h, p));
            }
            lemma_canonical_unique(ca[i], cb[i], level, corner);
        }
        assert(ca =~= cb);
    }
}

/// Two points that share a cube share every larger cube of the grid.
pub proof fn lemma_same_cell_coarser(a: Index, b: Index, fine: nat, coarse: nat)
    requires
        fine <= coarse,
        a.same_cell(b, fine),
    ensures
        a.same_cell(b, coarse),
    decreases coarse - fine,
{
    if fine < coarse {
        lemma_same_cell_step(a, b, fine);
        lemma_same_cell_coarser(a, b, fine + 1, coarse);
    }
}

impl Node {
    /// The node met at `level` on the way down from this node, at height
    /// `h`, towards the point `p`; a terminal met above `level` ends the
    /// way down and is the node met.
    pub open spec fn node_at(self, h: nat, level: nat, p: Index) -> Node
        decreases h,
    {
        if h > level && self is Branch {
            (*self->Branch_0)[p.spec_octant((h - 1) as nat) as int].node_at(
                (h - 1) as nat,
                level,
                p,
            )
        } else {
            self
        }
    }
}

/// In a compressed tree, the points of a cube of the grid all have one
/// value exactly when the node met at the cube's level is the terminal of
/// that value: every cube that can be one node is one node, whatever the
/// writes that led there.
pub proof fn lemma_uniform_cube_is_one_node(
    node: Node,
    h: nat,
    level: nat,
    c: Index,
    value: bool,
)
    requires
        level <= h <= 32,
        node.canonical(h),
    ensures
        node.node_at(h, level, c) == Node::terminal(value) <==> (forall|p: Index|
            p.same_cell(c, level) ==> #[trigger] node.contains(h, p) == value),
    decreases h,
{
    let uniform = forall|p: Index| p.same_cell(c, level) ==> #[trigger] node.contains(h, p) == value;
    match node {
        Node::Branch(children) => {
            if h == level {
                if uniform {
                    lemma_constant_is_terminal(node, h, c, value);
                }
            } else {
                let below = (h - 1) as nat;
                let child = children[c.spec_octant(below) as int];
                crate::node::lemma_octant_bound(c, below);
                lemma_uniform_cube_is_one_node(child, below, level, c, value);
                assert forall|p: Index| p.same_cell(c, level) implies #[trigger] node.contains(h, p)
                    == child.contains(below, p) by {
                    lemma_same_cell_coarser(p, c, level, below);
                    lemma_same_cell_step(p, c, below);
                }
                if node.node_at(h, level, c) == Node::terminal(value) {
                    assert forall|p: Index| p.same_cell(c, level) implies #[trigger] node.contains(
                        h,
                        p,
                    ) == value by {
                        assert(child.contains(below, p) == value);
                    }
                }
                if uniform {
                    assert forall|p: Index| p.same_cell(c, level) implies #[trigger] child.contains(
                        below,
                        p,
                    ) == value by {
                        assert(node.contains(h, p) == value);
                    }
                }
            }
        },
        _ => {
            assert(c.same_cell(c, level));
            if uniform {
                assert(node.contains(h, c) == value);
            }
        },
    }
}

} // verus!
