//! The bitmap: a root node and a fixed height, read and written one point
//! at a time.

use vstd::prelude::*;
use vstd::arithmetic::power2::pow2;
use vstd::arithmetic::power2::lemma2_to64;
use vstd::bits::lemma_u32_pow2_no_overflow;
use vstd::bits::lemma_u32_shl_is_mul;
use crate::canonical::lemma_canonical_unique;
use crate::canonical::lemma_constant_is_terminal;
use crate::index::Index;
use crate::index::lemma_small_quotient;
use crate::node::Node;

verus! {

/// Why an operation on the bitmap was refused.
#[derive(Debug, Clone, Copy, PartialEq, Eq, Structural)]
pub enum OctreeError {
    /// A coordinate of the index is not below the width of the bitmap.
    IndexOutOfRange,
}

/// A three-dimensional bitmap, implemented as an octree.
///
/// The bitmap stands for a set of points of the cube `[0, width)^3`, its
/// view. The height, and with it the width, is fixed when the bitmap is
/// made.
#[derive(Debug)]
pub struct OctreeBitmap {
    root: Node,
    height: u32,
}

/// The set `points` after `value` was written at `idx`.
pub open spec fn written(points: Set<Index>, idx: Index, value: bool) -> Set<Index> {
    if value {
        points.insert(idx)
    } else {
        points.remove(idx)
    }
}

impl View for OctreeBitmap {
    type V = Set<Index>;

    /// The points of the cube that are set.
    open spec fn view(&self) -> Set<Index> {
        Set::new(|p: Index| self.in_range(p) && self.spec_root().contains(self.spec_height(), p))
    }
}

impl OctreeBitmap {
    /// The number of levels below the root.
    pub closed spec fn spec_height(&self) -> nat {
        self.height as nat
    }

    /// The root node.
    pub closed spec fn spec_root(&self) -> Node {
        self.root
    }

    /// The side of the cube: `2^height`.
    pub open spec fn spec_width(&self) -> nat {
        pow2(self.spec_height())
    }

    /// Whether every coordinate of `p` is below the width.
    pub open spec fn in_range(&self, p: Index) -> bool {
        &&& p.x < self.spec_width()
        &&& p.y < self.spec_width()
        &&& p.z < self.spec_width()
    }

    /// The invariant of the bitmap: the width fits in a `u32`, and the tree
    /// is in its compressed form, in which no branch has eight children
    /// that are the same terminal.
    pub open spec fn wf(&self) -> bool {
        &&& self.spec_height() < 32
        &&& self.spec_root().canonical(self.spec_height())
    }

    /// Creates a new, empty bitmap.
    ///
    /// The indexes allowed in the set are limited to a certain range,
    /// specified by the `width` parameter; the values of indexes on each
    /// dimension must be within the range `0..width`. The bitmap's own width
    /// is the least power of two that is not below `width`: its height is
    /// the least `h` with `width <= 2^h`. No power of two that a `u32`
    /// holds is above `2^31`, which bounds `width`.
    pub fn new(width: u32) -> (tree: Self)
        requires
            width <= 0x8000_0000,
        ensures
            tree.wf(),
            tree@ == Set::<Index>::empty(),
            tree.spec_root() == Node::Empty,
            tree.spec_width() >= width,
            tree.spec_height() > 0 ==> pow2((tree.spec_height() - 1) as nat) < width,
            width <= 1 ==> tree.spec_height() == 0,
    {
        let mut height: u32 = 0;
        proof {
            lemma2_to64();
        }
        while height < 31 && (1u32 << height) < width
            invariant
                height <= 31,
                width <= 0x8000_0000,
                height > 0 ==> pow2((height - 1) as nat) < width,
            decreases 31 - height,
        {
            proof {
                lemma_u32_pow2_no_overflow(height as nat);
                lemma_u32_shl_is_mul(1u32, height);
            }
            height = height + 1;
        }
        proof {
            lemma2_to64();
            if height < 31 {
                lemma_u32_pow2_no_overflow(height as nat);
                lemma_u32_shl_is_mul(1u32, height);
            }
        }
        let tree = OctreeBitmap { root: Node::Empty, height };
        assert(tree@ =~= Set::<Index>::empty());
        tree
    }

    /// Clears the map.
    ///
    /// After this is called, `get` will return `false` for all indexes.
    pub fn clear(&mut self)
        requires
            old(self).wf(),
        ensures
            final(self).wf(),
            final(self).spec_height() == old(self).spec_height(),
            final(self).spec_root() == Node::Empty,
            final(self)@ == Set::<Index>::empty(),
            forall|p: Index| !final(self)@.contains(p),
    {
        self.root = Node::Empty;
        assert(self@ =~= Set::<Index>::empty());
    }

    /// The width of the map. Index values in each dimension must be within
    /// the range `0..map.width()`.
    ///
    /// It is a power of two, and not below the width the map was made for.
    pub fn width(&self) -> (w: u32)
        requires
            self.wf(),
        ensures
            w == self.spec_width(),
            w == pow2(self.spec_height()),
    {
        proof {
            lemma_u32_pow2_no_overflow(self.height as nat);
            lemma_u32_shl_is_mul(1u32, self.height);
        }
        1u32 << self.height
    }

    /// The number of levels below the root.
    pub fn height(&self) -> (h: u32)
        ensures
            h == self.spec_height(),
    {
        self.height
    }

    /// The root node of the tree.
    pub fn root(&self) -> (node: &Node)
        ensures
            *node == self.spec_root(),
    {
        &self.root
    }

    /// Whether `idx` is a point of the cube.
    pub fn covers(&self, idx: &Index) -> (b: bool)
        requires
            self.wf(),
        ensures
            b == self.in_range(*idx),
    {
        let w = self.width();
        idx.x < w && idx.y < w && idx.z < w
    }

    /// Get the current value of the bit at the given index.
    pub fn get(&self, idx: &Index) -> (b: bool)
        requires
            self.wf(),
            self.in_range(*idx),
        ensures
            b == self@.contains(*idx),
    {
        self.root.get(self.height, idx)
    }

    /// Whether the point at the given index is set: the same as `get`.
    pub fn contains(&self, idx: &Index) -> (b: bool)
        requires
            self.wf(),
            self.in_range(*idx),
        ensures
            b == self@.contains(*idx),
    {
        self.get(idx)
    }

    /// Get the current value of the bit at the given index, or an error if
    /// the index is outside the cube.
    pub fn try_get(&self, idx: &Index) -> (r: Result<bool, OctreeError>)
        requires
            self.wf(),
        ensures
            self.in_range(*idx) ==> r == Ok::<bool, OctreeError>(self@.contains(*idx)),
            !self.in_range(*idx) ==> r == Err::<bool, OctreeError>(OctreeError::IndexOutOfRange),
    {
        if self.covers(idx) {
            Ok(self.get(idx))
        } else {
            Err(OctreeError::IndexOutOfRange)
        }
    }

    /// Set the value at the given index, and say whether the value there
    /// changed. The tree is left in its compressed form.
    pub fn set(&mut self, idx: &Index, value: bool) -> (changed: bool)
        requires
            old(self).wf(),
            old(self).in_range(*idx),
        ensures
            final(self).wf(),
            final(self).spec_height() == old(self).spec_height(),
            final(self)@ == written(old(self)@, *idx, value),
            changed == (old(self)@.contains(*idx) != value),
            !changed ==> *final(self) == *old(self),
    {
        let changed = self.root.set(self.height, idx, value);
        proof {
            let h = self.height as nat;
            assert forall|p: Index| self.in_range(p) implies p.same_cell(*idx, h) by {
                lemma_small_quotient(p.x as nat, h);
                lemma_small_quotient(p.y as nat, h);
                lemma_small_quotient(p.z as nat, h);
                lemma_small_quotient(idx.x as nat, h);
                lemma_small_quotient(idx.y as nat, h);
                lemma_small_quotient(idx.z as nat, h);
            }
            assert(self@ =~= written(old(self)@, *idx, value));
        }
        changed
    }

    /// Sets the point at the given index, and says whether it was unset.
    pub fn insert(&mut self, idx: &Index) -> (changed: bool)
        requires
            old(self).wf(),
            old(self).in_range(*idx),
        ensures
            final(self).wf(),
            final(self).spec_height() == old(self).spec_height(),
            final(self)@ == old(self)@.insert(*idx),
            changed == !old(self)@.contains(*idx),
            !changed ==> *final(self) == *old(self),
    {
        self.set(idx, true)
    }

    /// Unsets the point at the given index, and says whether it was set.
    pub fn remove(&mut self, idx: &Index) -> (changed: bool)
        requires
            old(self).wf(),
            old(self).in_range(*idx),
        ensures
            final(self).wf(),
            final(self).spec_height() == old(self).spec_height(),
            final(self)@ == old(self)@.remove(*idx),
            changed == old(self)@.contains(*idx),
            !changed ==> *final(self) == *old(self),
    {
        self.set(idx, false)
    }

    /// Set the value at the given index and say whether it changed, or
    /// leave the bitmap as it is and give an error if the index is outside
    /// the cube.
    pub fn try_set(&mut self, idx: &Index, value: bool) -> (r: Result<bool, OctreeError>)
        requires
            old(self).wf(),
        ensures
            final(self).wf(),
            final(self).spec_height() == old(self).spec_height(),
            old(self).in_range(*idx) ==> r == Ok::<bool, OctreeError>(
                old(self)@.contains(*idx) != value,
            ) && final(self)@ == written(old(self)@, *idx, value),
            !old(self).in_range(*idx) ==> r == Err::<bool, OctreeError>(
                OctreeError::IndexOutOfRange,
            ) && *final(self) == *old(self),
    {
        if self.covers(idx) {
            Ok(self.set(idx, value))
        } else {
            Err(OctreeError::IndexOutOfRange)
        }
    }

    /// The points of the cube are those that share the root's cube with
    /// the origin.
    pub proof fn lemma_in_range_is_root_cell(&self, p: Index)
        ensures
            self.in_range(p) <==> p.same_cell(Index { x: 0, y: 0, z: 0 }, self.spec_height()),
    {
        let h = self.spec_height();
        vstd::arithmetic::power2::lemma_pow2_pos(h);
        lemma_quotient_zero(0, h);
        lemma_quotient_zero(p.x as nat, h);
        lemma_quotient_zero(p.y as nat, h);
        lemma_quotient_zero(p.z as nat, h);
    }

    /// The tree is determined by the points that are set: two bitmaps of
    /// the same height that hold the same points are the same tree, node
    /// for node.
    pub proof fn lemma_view_determines_tree(&self, other: &OctreeBitmap)
        requires
            self.wf(),
            other.wf(),
            self.spec_height() == other.spec_height(),
            self@ == other@,
        ensures
            *self == *other,
    {
        let h = self.spec_height();
        let origin = Index { x: 0, y: 0, z: 0 };
        assert forall|p: Index| p.same_cell(origin, h) implies #[trigger] self.root.contains(h, p)
            == other.root.contains(h, p) by {
            self.lemma_in_range_is_root_cell(p);
            other.lemma_in_range_is_root_cell(p);
            assert(self@.contains(p) == self.root.contains(h, p));
            assert(other@.contains(p) == other.root.contains(h, p));
        }
        lemma_canonical_unique(self.root, other.root, h, origin);
    }

    /// A bitmap with no point set is a single `Empty` node.
    pub proof fn lemma_no_point_is_one_node(&self)
        requires
            self.wf(),
            forall|p: Index| !self@.contains(p),
        ensures
            self.spec_root() == Node::Empty,
    {
        let h = self.spec_height();
        let origin = Index { x: 0, y: 0, z: 0 };
        assert forall|p: Index| p.same_cell(origin, h) implies #[trigger] self.root.contains(h, p)
            == false by {
            self.lemma_in_range_is_root_cell(p);
            assert(!self@.contains(p));
        }
        lemma_constant_is_terminal(self.root, h, origin, false);
    }

    /// A bitmap with every point of the cube set is a single `Full` node.
    pub proof fn lemma_every_point_is_one_node(&self)
        requires
            self.wf(),
            forall|p: Index| self.in_range(p) ==> self@.contains(p),
        ensures
            self.spec_root() == Node::Full,
    {
        let h = self.spec_height();
        let origin = Index { x: 0, y: 0, z: 0 };
        assert forall|p: Index| p.same_cell(origin, h) implies #[trigger] self.root.contains(h, p)
            == true by {
            self.lemma_in_range_is_root_cell(p);
            assert(self@.contains(p));
        }
        lemma_constant_is_terminal(self.root, h, origin, true);
    }

    /// A bitmap of height 0 has one point, and its root is a terminal,
    /// never a branch.
    pub proof fn lemma_height_zero_is_terminal(&self)
        requires
            self.wf(),
            self.spec_height() == 0,
        ensures
            self.spec_width() == 1,
            !(self.spec_root() is Branch),
            forall|p: Index| self.in_range(p) <==> p == (Index { x: 0, y: 0, z: 0 }),
    {
        lemma2_to64();
    }
}

/// A coordinate is below `2^level` exactly when its quotient by `2^level`
/// is 0.
proof fn lemma_quotient_zero(v: nat, level: nat)
    ensures
        v < pow2(level) <==> v / pow2(level) == 0,
{
    vstd::arithmetic::power2::lemma_pow2_pos(level);
    vstd::arithmetic::div_mod::lemma_fundamental_div_mod(v as int, pow2(level) as int);
    if v < pow2(level) {
        lemma_small_quotient(v, level);
    }
}

} // verus!
