use vstd::prelude::*;
use crate::axis::Dir;

verus! {

/// Where a node lies relative to a query coordinate.
#[derive(Clone, Copy, Debug, PartialEq, Eq, Structural)]
pub enum Side {
    /// The node lies below the query.
    Below,
    /// The node lies at the query.
    At,
    /// The node lies above the query.
    Above,
}

/// A query that lies outside the span of an axis's interior nodes.
#[derive(Clone, Copy, Debug, PartialEq, Eq, Structural)]
pub struct DomainError {
    pub axis: Dir,
}

/// `side` answers `s` for node `m`.
pub open spec fn answers<F: Fn(usize) -> Side>(side: F, m: usize, s: Side) -> bool {
    side.ensures((m,), s)
}

/// Finds the cell of an axis of `n` nodes (ghost nodes included) that holds
/// a query, where `side(m)` tells where node `m` lies relative to the query.
///
/// The query must lie within the interior nodes `1 ..= n - 3`. The result is
/// the last interior node `m` that is not above the query; unless `m` is the
/// last interior node, node `m + 1` is above it. Along strictly increasing
/// nodes this is the cell `[node m, node m + 1)` that holds the query. Takes
/// a number of steps logarithmic in `n`.
pub fn locate_cell<F: Fn(usize) -> Side>(axis: Dir, n: usize, side: &F) -> (r: Result<usize, DomainError>)
    requires
        n >= 5,
        forall|m: usize| m < n ==> side.requires((m,)),
        forall|m: usize, s1: Side, s2: Side|
            answers(*side, m, s1) && answers(*side, m, s2) ==> s1 == s2,
    ensures
        r is Err <==> answers(*side, 1, Side::Above) || answers(*side, (n - 3) as usize, Side::Below),
        r matches Err(e) ==> e.axis == axis,
        r matches Ok(m) ==> {
            &&& 1 <= m <= n - 3
            &&& answers(*side, m, Side::Below) || answers(*side, m, Side::At)
            &&& m < n - 3 ==> answers(*side, (m + 1) as usize, Side::Above)
        },
{
    let first = side(1);
    let last = side(n - 3);
    if first == Side::Above || last == Side::Below {
        return Err(DomainError { axis });
    }
    proof {
        assert(answers(*side, 1, first));
        assert(answers(*side, (n - 3) as usize, last));
    }
    if last == Side::At {
        return Ok(n - 3);
    }
    let mut lo: usize = 1;
    let mut hi: usize = n - 3;
    while hi - lo > 1
        invariant
            n >= 5,
            forall|m: usize| m < n ==> side.requires((m,)),
            1 <= lo < hi <= n - 3,
            answers(*side, lo, Side::Below) || answers(*side, lo, Side::At),
            answers(*side, hi, Side::Above),
            !answers(*side, 1, Side::Above),
            !answers(*side, (n - 3) as usize, Side::Below),
        decreases hi - lo,
    {
        let mid = lo + (hi - lo) / 2;
        if side(mid) == Side::Above {
            hi = mid;
        } else {
            lo = mid;
        }
    }
    Ok(lo)
}

} // verus!
