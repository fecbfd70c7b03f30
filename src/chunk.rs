use vstd::prelude::*;

verus! {

/// How many chunks a propagation step aims to split the patches into.
pub const NUM_CHUNKS: usize = 32;

/// The length of each chunk but the last: `n / num_chunks`, and at least one.
pub open spec fn chunk_size(n: int, num_chunks: int) -> int {
    if n / num_chunks == 0 {
        1
    } else {
        n / num_chunks
    }
}

/// `r` splits `[0, n)` into consecutive non-empty ranges `(lo, hi)` of
/// `size` patches each, the last one possibly shorter.
pub open spec fn splits(r: Seq<(usize, usize)>, n: int, size: int) -> bool {
    &&& (r.len() == 0) == (n == 0)
    &&& r.len() > 0 ==> r[0].0 == 0 && r.last().1 == n
    &&& forall|k: int| 0 <= k < r.len() - 1 ==> (#[trigger] r[k]).1 == r[k + 1].0
    &&& forall|k: int| 0 <= k < r.len() ==> (#[trigger] r[k]).0 < r[k].1 && r[k].1 <= n
    &&& forall|k: int| 0 <= k < r.len() - 1 ==> (#[trigger] r[k]).1 - r[k].0 == size
    &&& r.len() > 0 ==> r.last().1 - r.last().0 <= size
}

/// Splits the patch range `[0, n)` into chunks of `chunk_size(n, num_chunks)`
/// patches, the last one possibly shorter.
pub fn chunk_ranges(n: usize, num_chunks: usize) -> (r: Vec<(usize, usize)>)
    requires
        num_chunks > 0,
    ensures
        splits(r@, n as int, chunk_size(n as int, num_chunks as int)),
{
    let size: usize = if n / num_chunks == 0 {
        1
    } else {
        n / num_chunks
    };
    let mut r: Vec<(usize, usize)> = Vec::new();
    let mut lo: usize = 0;
    while lo < n
        invariant
            size == chunk_size(n as int, num_chunks as int),
            size >= 1,
            lo <= n,
            r@.len() == 0 ==> lo == 0,
            r@.len() > 0 ==> r@[0].0 == 0 && r@.last().1 == lo,
            forall|k: int| 0 <= k < r@.len() - 1 ==> (#[trigger] r@[k]).1 == r@[k + 1].0,
            forall|k: int| 0 <= k < r@.len() ==> (#[trigger] r@[k]).0 < r@[k].1,
            forall|k: int|
                0 <= k < r@.len() ==> (#[trigger] r@[k]).1 - r@[k].0 == size || r@[k].1 == n,
            forall|k: int|
                0 <= k < r@.len() ==> (#[trigger] r@[k]).1 - r@[k].0 <= size && r@[k].1 <= n,
        decreases n - lo,
    {
        let hi: usize = if n - lo > size {
            lo + size
        } else {
            n
        };
        let ghost before = r@;
        r.push((lo, hi));
        assert forall|k: int| 0 <= k < r@.len() - 1 implies (#[trigger] r@[k]).1 == r@[k + 1].0 by {
            if k < before.len() - 1 {
                assert(r@[k] == before[k] && r@[k + 1] == before[k + 1]);
            }
        }
        lo = hi;
    }
    assert forall|k: int| 0 <= k < r@.len() - 1 implies (#[trigger] r@[k]).1 - r@[k].0 == size by {
        assert(r@[k].1 == r@[k + 1].0);
        assert(r@[k + 1].0 < r@[k + 1].1);
    }
    r
}

} // verus!
