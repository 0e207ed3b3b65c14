//! The nearest hit of a ray in an ordered collection of surfaces.
use vstd::prelude::*;

verus! {

/// The last hit in `found`, if there is one.
pub open spec fn latest<H>(found: Seq<Option<H>>) -> Option<H>
    decreases found.len(),
{
    if found.len() == 0 {
        None
    } else if found.last() is Some {
        found.last()
    } else {
        latest(found.drop_last())
    }
}

/// `found[i]` is what `hit` reported for `surfaces[i]` when shown the latest hit
/// among the surfaces before it.
pub open spec fn is_scan<S, H, F: Fn(&S, &Option<H>) -> Option<H>>(
    hit: F,
    surfaces: Seq<S>,
    found: Seq<Option<H>>,
) -> bool {
    &&& found.len() == surfaces.len()
    &&& forall|i: int|
        0 <= i < found.len() ==> #[trigger] hit.ensures((&surfaces[i], &latest(found.take(i))), found[i])
}

/// The nearest hit among `surfaces`, scanned in order. `hit(surface, nearest)`
/// intersects one surface, where `nearest` is the nearest hit found so far; it
/// reports a hit only when it lies closer than `nearest`, so that a later surface
/// never replaces a hit by a farther one. The result is the last hit reported.
pub fn nearest_hit<S, H, F: Fn(&S, &Option<H>) -> Option<H>>(surfaces: &Vec<S>, hit: &F) -> (r:
    Option<H>)
    requires
        forall|s: &S, n: &Option<H>| hit.requires((s, n)),
    ensures
        exists|found: Seq<Option<H>>| #[trigger] is_scan(*hit, surfaces@, found) && r == latest(found),
{
    let mut nearest: Option<H> = None;
    let ghost mut found: Seq<Option<H>> = Seq::empty();
    let n = surfaces.len();
    let mut i: usize = 0;
    while i < n
        invariant
            forall|s: &S, q: &Option<H>| hit.requires((s, q)),
            n == surfaces@.len(),
            i <= n,
            is_scan(*hit, surfaces@.take(i as int), found),
            nearest == latest(found),
        decreases n - i,
    {
        let h = hit(&surfaces[i], &nearest);
        proof {
            let old_found = found;
            found = found.push(h);
            assert(found.take(i as int) =~= old_found);
            assert(found.drop_last() =~= old_found);
            assert forall|k: int| 0 <= k < i implies #[trigger] found.take(k) =~= old_found.take(k) by {}
        }
        match h {
            Some(x) => {
                nearest = Some(x);
            },
            None => {},
        }
        i = i + 1;
    }
    proof {
        assert(surfaces@.take(n as int) =~= surfaces@);
    }
    nearest
}

} // verus!
