//! The decisions of the spatial monitor that need no geometry.
use vstd::prelude::*;

verus! {

/// The truth of a quantified formula from the truth of its body under each
/// tuple of bound annotations: an existential holds when some tuple makes the
/// body true; a universal holds when there is at least one tuple and every
/// tuple makes the body true (no tuple at all makes it false).
pub fn quantify(existential: bool, results: &Vec<bool>) -> (r: bool)
    ensures
        existential ==> (r <==> exists|i: int| 0 <= i < results@.len() && #[trigger] results@[i]),
        !existential ==> (r <==> results@.len() > 0 && forall|i: int|
            0 <= i < results@.len() ==> #[trigger] results@[i]),
{
    let mut any = false;
    let mut all = true;
    let mut i: usize = 0;
    while i < results.len()
        invariant
            i <= results@.len(),
            any <==> exists|k: int| 0 <= k < i && #[trigger] results@[k],
            all <==> forall|k: int| 0 <= k < i ==> #[trigger] results@[k],
        decreases results@.len() - i,
    {
        if results[i] {
            any = true;
        } else {
            all = false;
        }
        i = i + 1;
    }
    if existential {
        any
    } else {
        results.len() > 0 && all
    }
}

} // verus!
