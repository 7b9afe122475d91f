//! Draw-pool generation: a set of `count` mutually distinct random values in
//! an inclusive bound, produced with a cryptographically strong source of
//! randomness and consumed by the game as a stack.

use vstd::prelude::*;
use rand::Rng;
use crate::GameError;

verus! {

/// Relies on rand's `Rng::gen_range`, called on `OsRng` (the operating
/// system's random number generator): for the inclusive range `lo..=hi` it
/// returns a value inside that range, and panics only on an empty range,
/// which the precondition rules out. Nothing is assumed about which value
/// comes back.
#[verifier::external_body]
fn random_in_range(lo: u32, hi: u32) -> (r: u32)
    requires
        lo <= hi,
    ensures
        lo <= r <= hi,
{
    rand::rngs::OsRng.gen_range(lo..=hi)
}

/// Whether `x` occurs in `v`.
fn contains_val(v: &Vec<u32>, x: u32) -> (r: bool)
    ensures
        r == v@.contains(x),
{
    let mut i: usize = 0;
    while i < v.len()
        invariant
            i <= v@.len(),
            forall|k: int| 0 <= k < i ==> v@[k] != x,
        decreases v@.len() - i,
    {
        if v[i] == x {
            return true;
        }
        i += 1;
    }
    assert(!v@.contains(x));
    false
}

/// Produce `count` mutually distinct random values in `[lo, hi]`, or report
/// that the bounds cannot supply that many distinct values. Each loop turn
/// draws one fresh value, so generation always terminates.
pub fn create_pool(count: usize, lo: u32, hi: u32) -> (r: Result<Vec<u32>, GameError>)
    ensures
        r is Ok <==> lo <= hi && count as int <= hi - lo + 1,
        r is Err ==> r.unwrap_err() == GameError::UnsatisfiableBounds,
        r is Ok ==> ({
            let p = r.unwrap();
            &&& p@.len() == count
            &&& forall|i: int| 0 <= i < p@.len() ==> lo <= #[trigger] p@[i] <= hi
            &&& forall|i: int, j: int| 0 <= i < j < p@.len() ==> p@[i] != p@[j]
        }),
{
    if lo > hi {
        return Err(GameError::UnsatisfiableBounds);
    }
    if count == 0 {
        return Ok(Vec::new());
    }
    let range: u64 = (hi - lo) as u64 + 1;
    if count as u64 > range {
        return Err(GameError::UnsatisfiableBounds);
    }
    // Partial sampling in the style of Floyd: the candidate bound grows by
    // one each turn, so every turn adds exactly one value never seen before.
    let start: u32 = hi - ((count - 1) as u32);
    let mut pool: Vec<u32> = Vec::new();
    let mut k: usize = 0;
    while k < count
        invariant
            lo <= start <= hi,
            start as int == hi - (count - 1),
            count as int <= hi - lo + 1,
            k <= count,
            pool@.len() == k,
            forall|i: int| 0 <= i < k ==> lo <= #[trigger] pool@[i] <= hi,
            forall|i: int| 0 <= i < k ==> #[trigger] pool@[i] < start + k,
            forall|i: int, j: int| 0 <= i < j < k ==> pool@[i] != pool@[j],
        decreases count - k,
    {
        let j: u32 = start + (k as u32);
        let t = random_in_range(lo, j);
        if contains_val(&pool, t) {
            pool.push(j);
        } else {
            pool.push(t);
        }
        k += 1;
    }
    Ok(pool)
}

} // verus!
