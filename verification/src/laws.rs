//! What reading gives back after any number of writes, stated over the set
//! of points that a bitmap stands for.

use vstd::prelude::*;
use crate::bitmap::written;
use crate::index::Index;

verus! {

/// The set `points` after the writes `ops` were made in order, each a
/// point and the value written there.
pub open spec fn written_all(points: Set<Index>, ops: Seq<(Index, bool)>) -> Set<Index>
    decreases ops.len(),
{
    if ops.len() == 0 {
        points
    } else {
        written(written_all(points, ops.drop_last()), ops.last().0, ops.last().1)
    }
}

/// The value that the latest of the writes `ops` at the point `p` wrote, if
/// any of them was at `p`.
pub open spec fn last_write(ops: Seq<(Index, bool)>, p: Index) -> Option<bool>
    decreases ops.len(),
{
    if ops.len() == 0 {
        None
    } else if ops.last().0 == p {
        Some(ops.last().1)
    } else {
        last_write(ops.drop_last(), p)
    }
}

/// After one write, the point written has the value written, and every
/// other point has the value it had.
pub proof fn lemma_write_then_read(points: Set<Index>, idx: Index, value: bool, p: Index)
    ensures
        written(points, idx, value).contains(p) == (if p == idx {
            value
        } else {
            points.contains(p)
        }),
{
}

/// After any sequence of writes, a point has the value of the latest write
/// at that point, and the value it had at the start if there was none:
/// writes at other points do not touch it.
pub proof fn lemma_round_trip(points: Set<Index>, ops: Seq<(Index, bool)>, p: Index)
    ensures
        written_all(points, ops).contains(p) == (match last_write(ops, p) {
            Some(value) => value,
            None => points.contains(p),
        }),
    decreases ops.len(),
{
    if ops.len() > 0 {
        lemma_round_trip(points, ops.drop_last(), p);
    }
}

/// Writing the same value at the same point a second time changes no
/// point, and the point already has the value, so that the second write
/// reports no change.
pub proof fn lemma_second_write_is_idle(points: Set<Index>, idx: Index, value: bool)
    ensures
        written(points, idx, value).contains(idx) == value,
        written(written(points, idx, value), idx, value) == written(points, idx, value),
{
    assert(written(written(points, idx, value), idx, value) =~= written(points, idx, value));
}

} // verus!
