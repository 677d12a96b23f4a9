//! Binary search over an ascending vector of offsets.

use vstd::prelude::*;

verus! {

/// Looks `x` up in the ascending `v`: `Ok` with an index that holds `x`
/// where `v` holds it, else `Err` with the index at which `x` would be
/// inserted to keep `v` ascending.
pub fn binary_search(v: &Vec<usize>, x: usize) -> (r: Result<usize, usize>)
    requires
        forall|i: int, j: int| 0 <= i <= j < v.len() ==> v[i] <= v[j],
    ensures
        match r {
            Ok(i) => i < v.len() && v[i as int] == x,
            Err(i) => {
                &&& i <= v.len()
                &&& forall|j: int| 0 <= j < i ==> v[j] < x
                &&& forall|j: int| i <= j < v.len() ==> v[j] > x
            },
        },
        r is Ok <==> v@.contains(x),
{
    let mut lo: usize = 0;
    let mut hi: usize = v.len();
    while lo < hi
        invariant
            lo <= hi <= v.len(),
            forall|i: int, j: int| 0 <= i <= j < v.len() ==> v[i] <= v[j],
            forall|j: int| 0 <= j < lo ==> v[j] < x,
            forall|j: int| hi <= j < v.len() ==> v[j] > x,
        decreases hi - lo,
    {
        let mid = lo + (hi - lo) / 2;
        if v[mid] < x {
            lo = mid + 1;
        } else if v[mid] > x {
            hi = mid;
        } else {
            assert(v@.contains(x)) by {
                assert(v@[mid as int] == x);
            }
            return Ok(mid);
        }
    }
    assert(!v@.contains(x)) by {
        if v@.contains(x) {
            let k = choose|k: int| 0 <= k < v@.len() && v@[k] == x;
            assert(v[k] == x);
        }
    }
    Err(lo)
}

} // verus!
