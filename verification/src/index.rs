//! Coordinates of a point in the cube, and how a coordinate addresses the
//! octants of the tree: one bit per axis and per level.

use vstd::prelude::*;
use vstd::arithmetic::power2::pow2;
use vstd::arithmetic::power2::lemma_pow2_pos;
use vstd::arithmetic::div_mod::lemma_fundamental_div_mod;
use vstd::bits::lemma_u32_shr_is_div;
use vstd::bits::lemma_u32_shl_is_mul;

verus! {

/// The binary digit of `v` at position `level` (position 0 is the lowest).
pub open spec fn bit_at(v: nat, level: nat) -> nat {
    (v / pow2(level)) % 2
}

/// `v` rounded down to a multiple of `2^level`.
pub open spec fn align_down(v: nat, level: nat) -> nat {
    (v / pow2(level)) * pow2(level)
}

/// A point of the cube.
#[derive(Debug, Clone, Copy, PartialEq, Eq, Structural, PartialOrd, Ord, Hash)]
pub struct Index {
    pub x: u32,
    pub y: u32,
    pub z: u32,
}

/// Names the node that owns a point at a given level: the corner of the
/// node's cube with the smallest coordinates, and the level.
#[derive(Debug, Clone, Copy, PartialEq, Eq, Structural, PartialOrd, Ord, Hash)]
pub struct BranchIndex {
    pub base: Index,
    pub height: u32,
}

impl Index {
    /// The number of the octant that holds this point among the eight
    /// children of a node whose children are at `level`: the bit of `z`,
    /// then of `y`, then of `x`, as a three-digit binary number.
    pub open spec fn spec_octant(self, level: nat) -> nat {
        4 * bit_at(self.z as nat, level) + 2 * bit_at(self.y as nat, level) + bit_at(
            self.x as nat,
            level,
        )
    }

    /// Whether this point and `other` lie in the same cube of side
    /// `2^level` of the grid aligned to that side.
    pub open spec fn same_cell(self, other: Index, level: nat) -> bool {
        &&& self.x as nat / pow2(level) == other.x as nat / pow2(level)
        &&& self.y as nat / pow2(level) == other.y as nat / pow2(level)
        &&& self.z as nat / pow2(level) == other.z as nat / pow2(level)
    }

    /// The point with the given coordinates.
    pub fn new(x: u32, y: u32, z: u32) -> (idx: Self)
        ensures
            idx == (Index { x, y, z }),
    {
        Self { x, y, z }
    }

    /// The octant bits of this point at `height`, as `(x, y, z)`: for each
    /// axis the bit of the coordinate at position `height`, which is 0 from
    /// position 32 on.
    pub fn bit(&self, height: u32) -> (bits: (usize, usize, usize))
        ensures
            bits.0 == bit_at(self.x as nat, height as nat),
            bits.1 == bit_at(self.y as nat, height as nat),
            bits.2 == bit_at(self.z as nat, height as nat),
    {
        (axis_bit(self.x, height), axis_bit(self.y, height), axis_bit(self.z, height))
    }

    /// The number of the child, among the eight of a node, that holds this
    /// point when the children are at `level`.
    pub fn octant(&self, level: u32) -> (o: usize)
        ensures
            o == self.spec_octant(level as nat),
            o < 8,
    {
        let (x, y, z) = self.bit(level);
        4 * z + 2 * y + x
    }

    /// The key of the node that owns this point at `height`: each
    /// coordinate rounded down to a multiple of `2^height`, which leaves 0
    /// from height 32 on.
    pub fn branch_at(&self, height: u32) -> (key: BranchIndex)
        ensures
            key.height == height,
            key.base.x == align_down(self.x as nat, height as nat),
            key.base.y == align_down(self.y as nat, height as nat),
            key.base.z == align_down(self.z as nat, height as nat),
    {
        let mask = aligning_mask(height);
        BranchIndex {
            base: Index { x: self.x & mask, y: self.y & mask, z: self.z & mask },
            height,
        }
    }
}

impl BranchIndex {
    /// The key of the root of a tree of the given height.
    pub fn root(height: u32) -> (key: Self)
        ensures
            key == (BranchIndex { base: Index { x: 0, y: 0, z: 0 }, height }),
    {
        Self { base: Index { x: 0, y: 0, z: 0 }, height }
    }
}

impl Default for Index {
    fn default() -> (idx: Self)
        ensures
            idx == (Index { x: 0, y: 0, z: 0 }),
    {
        Index { x: 0, y: 0, z: 0 }
    }
}

impl Default for BranchIndex {
    fn default() -> (key: Self)
        ensures
            key == (BranchIndex { base: Index { x: 0, y: 0, z: 0 }, height: 0 }),
    {
        BranchIndex { base: Index { x: 0, y: 0, z: 0 }, height: 0 }
    }
}

impl From<(u32, u32, u32)> for Index {
    fn from(t: (u32, u32, u32)) -> (idx: Self) {
        Index { x: t.0, y: t.1, z: t.2 }
    }
}

impl vstd::std_specs::convert::FromSpecImpl<(u32, u32, u32)> for Index {
    open spec fn obeys_from_spec() -> bool {
        true
    }

    open spec fn from_spec(t: (u32, u32, u32)) -> Self {
        Index { x: t.0, y: t.1, z: t.2 }
    }
}

impl From<[u32; 3]> for Index {
    fn from(a: [u32; 3]) -> (idx: Self) {
        Index { x: a[0], y: a[1], z: a[2] }
    }
}

impl vstd::std_specs::convert::FromSpecImpl<[u32; 3]> for Index {
    open spec fn obeys_from_spec() -> bool {
        true
    }

    open spec fn from_spec(a: [u32; 3]) -> Self {
        Index { x: a[0], y: a[1], z: a[2] }
    }
}

/// The bit of one coordinate at `level`.
fn axis_bit(v: u32, level: u32) -> (b: usize)
    ensures
        b == bit_at(v as nat, level as nat),
        b < 2,
{
    if level >= 32 {
        proof {
            lemma_above_every_coordinate(level as nat);
            lemma_small_quotient(v as nat, level as nat);
        }
        return 0;
    }
    let shifted: u32 = v >> level;
    let low: u32 = shifted & 1;
    proof {
        lemma_u32_shr_is_div(v, level);
        assert(shifted & 1 == shifted % 2) by (bit_vector);
    }
    low as usize
}

/// The mask that clears the `level` lowest bits of a coordinate, and so
/// rounds it down to a multiple of `2^level`.
fn aligning_mask(level: u32) -> (mask: u32)
    ensures
        forall|v: u32| #[trigger] (v & mask) == align_down(v as nat, level as nat),
{
    if level >= 32 {
        assert forall|v: u32| #[trigger] (v & 0u32) == align_down(v as nat, level as nat) by {
            assert(v & 0u32 == 0u32) by (bit_vector);
            lemma_above_every_coordinate(level as nat);
            lemma_small_quotient(v as nat, level as nat);
        }
        return 0;
    }
    proof {
        vstd::bits::lemma_u32_pow2_no_overflow(level as nat);
        lemma_u32_shl_is_mul(1u32, level);
    }
    let mask: u32 = !((1u32 << level) - 1);
    assert forall|v: u32| #[trigger] (v & mask) == align_down(v as nat, level as nat) by {
        lemma_mask_aligns(v, level);
    }
    mask
}

/// From level 32 on, `2^level` is above every coordinate.
proof fn lemma_above_every_coordinate(level: nat)
    requires
        level >= 32,
    ensures
        pow2(level) > u32::MAX,
{
    vstd::arithmetic::power2::lemma2_to64();
    if level > 32 {
        vstd::arithmetic::power2::lemma_pow2_strictly_increases(32, level);
    }
}

/// Clearing the `level` lowest bits of `v` with a mask rounds `v` down to a
/// multiple of `2^level`.
proof fn lemma_mask_aligns(v: u32, level: u32)
    requires
        level < 32,
    ensures
        v & !(((1u32 << level) - 1) as u32) == align_down(v as nat, level as nat),
{
    let p = pow2(level as nat);
    lemma_pow2_pos(level as nat);
    assert(v &!(((1u32 << level) - 1) as u32) == (v >> level) << level) by (bit_vector)
        requires
            level < 32,
    ;
    lemma_u32_shr_is_div(v, level);
    let q: u32 = v >> level;
    lemma_fundamental_div_mod(v as int, p as int);
    assert(q * p <= v) by (nonlinear_arith)
        requires
            v == p * (v as int / p as int) + v as int % p as int,
            q == v as int / p as int,
            v as int % p as int >= 0,
            p > 0,
    ;
    lemma_u32_shl_is_mul(q, level);
}

/// Rounding down to a multiple of `2^level` gives the first coordinate of
/// the cube of side `2^level` that holds `v`, and gives the same for two
/// coordinates exactly when one such cube holds both: the key of a node
/// names the node's cube.
pub proof fn lemma_align_down(v: nat, w: nat, level: nat)
    ensures
        align_down(v, level) % pow2(level) == 0,
        align_down(v, level) <= v < align_down(v, level) + pow2(level),
        align_down(v, level) == align_down(w, level) <==> v / pow2(level) == w / pow2(level),
{
    let p = pow2(level) as int;
    lemma_pow2_pos(level);
    lemma_fundamental_div_mod(v as int, p);
    vstd::arithmetic::mul::lemma_mul_is_commutative(p, v as int / p);
    vstd::arithmetic::div_mod::lemma_mod_multiples_basic(v as int / p, p);
    if align_down(v, level) == align_down(w, level) {
        vstd::arithmetic::div_mod::lemma_div_multiples_vanish(v as int / p, p);
        vstd::arithmetic::div_mod::lemma_div_multiples_vanish(w as int / p, p);
    }
}

/// Two points share a cube of side `2^level` exactly when they share the
/// cube of side `2^(level + 1)` and fall in the same octant of it.
pub proof fn lemma_same_cell_step(a: Index, b: Index, level: nat)
    ensures
        a.same_cell(b, level) <==> a.same_cell(b, level + 1) && a.spec_octant(level)
            == b.spec_octant(level),
{
    lemma_axis_step(a.x as nat, b.x as nat, level);
    lemma_axis_step(a.y as nat, b.y as nat, level);
    lemma_axis_step(a.z as nat, b.z as nat, level);
}

/// On one axis: the quotients by `2^level` agree exactly when the quotients
/// by `2^(level + 1)` and the bits at `level` agree.
pub proof fn lemma_axis_step(a: nat, b: nat, level: nat)
    ensures
        a / pow2(level) == b / pow2(level) <==> a / pow2(level + 1) == b / pow2(level + 1)
            && bit_at(a, level) == bit_at(b, level),
        bit_at(a, level) < 2,
{
    let p = pow2(level);
    lemma_pow2_pos(level);
    vstd::arithmetic::power2::lemma_pow2_unfold(level + 1);
    assert(pow2(level + 1) == p * 2) by {
        assert((level + 1 - 1) as nat == level);
    }
    vstd::arithmetic::div_mod::lemma_div_denominator(a as int, p as int, 2);
    vstd::arithmetic::div_mod::lemma_div_denominator(b as int, p as int, 2);
    let qa = a / p;
    let qb = b / p;
    assert(qa == 2 * (qa / 2) + qa % 2);
    assert(qb == 2 * (qb / 2) + qb % 2);
}

/// A cube of side 1 holds one point: sharing it means being equal.
pub proof fn lemma_same_cell_zero(a: Index, b: Index)
    ensures
        a.same_cell(b, 0) <==> a == b,
{
    vstd::arithmetic::power2::lemma2_to64();
}

/// A coordinate below `2^level` has quotient 0 by `2^level`.
pub proof fn lemma_small_quotient(v: nat, level: nat)
    requires
        v < pow2(level),
    ensures
        v / pow2(level) == 0,
{
    vstd::arithmetic::div_mod::lemma_basic_div(v as int, pow2(level) as int);
}

} // verus!
