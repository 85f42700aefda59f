//! Deduplicator: collapses near-duplicate sample points.
//!
//! Two points are considered equal when both coordinate differences are
//! strictly below a fixed tolerance ([`EPS`], `10^-10` user units); this
//! deliberately approximate relation absorbs the round-off that repeated
//! curve evaluation leaves on shared end points.  The filter keeps a point
//! exactly when it is not near any point kept before it, so the output is in
//! first-occurrence order, every kept point is an input point, no two kept
//! points are near each other, and every input point is near some kept point.

use vstd::prelude::*;
use crate::canonical::Pt;
use crate::sample::{SAMPLE_MAX, pts_bounded};

verus! {

/// The tolerance under which two coordinates count as equal: `10^-10` user
/// units in fixed point.
pub const EPS: i128 = 100;

/// Tolerance-based point equality: both coordinate differences are strictly
/// below [`EPS`].
pub open spec fn pts_close(a: Pt, b: Pt) -> bool {
    &&& -EPS < a.x - b.x < EPS
    &&& -EPS < a.y - b.y < EPS
}

/// `p` is near some point of `s`.
pub open spec fn close_to_some(p: Pt, s: Seq<Pt>) -> bool {
    exists|j: int| 0 <= j < s.len() && pts_close(p, #[trigger] s[j])
}

/// No two distinct points of `s` are near each other.
pub open spec fn pairwise_far(s: Seq<Pt>) -> bool {
    forall|j: int, k: int|
        0 <= j < s.len() && 0 <= k < s.len() && j != k ==> !pts_close(
            #[trigger] s[j],
            #[trigger] s[k],
        )
}

/// The first-occurrence filter from position `i` on, keeping `acc`: a point
/// is kept exactly when it is not near any point kept before it.
pub open spec fn dedup_from(s: Seq<Pt>, i: int, acc: Seq<Pt>) -> Seq<Pt>
    decreases s.len() - i,
{
    if i < 0 || i >= s.len() {
        acc
    } else if close_to_some(s[i], acc) {
        dedup_from(s, i + 1, acc)
    } else {
        dedup_from(s, i + 1, acc.push(s[i]))
    }
}

/// The distinct points of `s` under tolerance-based equality, in
/// first-occurrence order.
pub open spec fn spec_dedup(s: Seq<Pt>) -> Seq<Pt> {
    dedup_from(s, 0, Seq::empty())
}

/// What the filter guarantees: it extends `acc` by input points only, keeps
/// the kept points pairwise distant, and leaves every scanned point near
/// some kept point.
pub proof fn lemma_dedup_from(s: Seq<Pt>, i: int, acc: Seq<Pt>)
    requires
        0 <= i <= s.len(),
        pairwise_far(acc),
    ensures
        ({
            let out = dedup_from(s, i, acc);
            &&& pairwise_far(out)
            &&& out.len() >= acc.len()
            &&& out.take(acc.len() as int) == acc
            &&& (forall|j: int|
                acc.len() <= j < out.len() ==> exists|k: int|
                    i <= k < s.len() && #[trigger] out[j] == s[k])
            &&& (forall|k: int| i <= k < s.len() ==> close_to_some(#[trigger] s[k], out))
        }),
    decreases s.len() - i,
{
    if i >= s.len() {
        assert(dedup_from(s, i, acc).take(acc.len() as int) =~= acc);
    } else if close_to_some(s[i], acc) {
        lemma_dedup_from(s, i + 1, acc);
        let out = dedup_from(s, i, acc);
        let w = choose|j: int| 0 <= j < acc.len() && pts_close(s[i], #[trigger] acc[j]);
        assert(out.take(acc.len() as int) == acc);
        assert(out[w] == acc[w]);
        assert(close_to_some(s[i], out));
    } else {
        let acc2 = acc.push(s[i]);
        assert(pairwise_far(acc2)) by {
            assert(forall|j: int| 0 <= j < acc.len() ==> !pts_close(s[i], #[trigger] acc[j]));
            assert(forall|j: int| 0 <= j < acc.len() ==> acc2[j] == acc[j]);
            assert(acc2[acc.len() as int] == s[i]);
        }
        lemma_dedup_from(s, i + 1, acc2);
        let out = dedup_from(s, i, acc);
        assert(out.take(acc2.len() as int) == acc2);
        assert(out.take(acc.len() as int) =~= acc) by {
            assert(forall|j: int|
                0 <= j < acc.len() ==> out.take(acc2.len() as int)[j] == #[trigger] out.take(
                    acc.len() as int,
                )[j]);
        }
        assert(out[acc.len() as int] == acc2[acc.len() as int]);
        assert(close_to_some(s[i], out)) by {
            assert(pts_close(s[i], out[acc.len() as int]));
        }
        assert(forall|j: int|
            acc.len() <= j < out.len() ==> exists|k: int|
                i <= k < s.len() && #[trigger] out[j] == s[k]) by {
            assert(out[acc.len() as int] == s[i]);
            assert(forall|j: int|
                acc2.len() <= j < out.len() ==> exists|k: int|
                    i + 1 <= k < s.len() && #[trigger] out[j] == s[k]);
        }
    }
}

/// The deduplicated sequence: input points only, pairwise distant, and every
/// input point is near one of them.
pub proof fn lemma_dedup_sound(s: Seq<Pt>)
    ensures
        pairwise_far(spec_dedup(s)),
        forall|j: int|
            0 <= j < spec_dedup(s).len() ==> exists|k: int|
                0 <= k < s.len() && #[trigger] spec_dedup(s)[j] == s[k],
        forall|k: int| 0 <= k < s.len() ==> close_to_some(#[trigger] s[k], spec_dedup(s)),
{
    lemma_dedup_from(s, 0, Seq::empty());
}

/// A sequence that is already pairwise distant passes the filter unchanged.
pub proof fn lemma_dedup_far_identity(s: Seq<Pt>, i: int)
    requires
        pairwise_far(s),
        0 <= i <= s.len(),
    ensures
        dedup_from(s, i, s.take(i)) == s,
    decreases s.len() - i,
{
    if i == s.len() {
        assert(s.take(i) =~= s);
    } else {
        assert(!close_to_some(s[i], s.take(i))) by {
            if close_to_some(s[i], s.take(i)) {
                let j = choose|j: int|
                    0 <= j < i && pts_close(s[i], #[trigger] s.take(i)[j]);
                assert(pts_close(s[i], s[j]));
            }
        }
        assert(s.take(i).push(s[i]) =~= s.take(i + 1));
        lemma_dedup_far_identity(s, i + 1);
    }
}

/// Deduplication is idempotent: running the filter on its own output returns
/// that output unchanged.
pub proof fn lemma_dedup_idempotent(s: Seq<Pt>)
    ensures
        spec_dedup(spec_dedup(s)) == spec_dedup(s),
{
    lemma_dedup_sound(s);
    let out = spec_dedup(s);
    assert(out.take(0) =~= Seq::<Pt>::empty());
    lemma_dedup_far_identity(out, 0);
}

/// Whether two points are equal under the tolerance.
fn close_pt(a: Pt, b: Pt) -> (r: bool)
    requires
        -SAMPLE_MAX <= a.x <= SAMPLE_MAX,
        -SAMPLE_MAX <= a.y <= SAMPLE_MAX,
        -SAMPLE_MAX <= b.x <= SAMPLE_MAX,
        -SAMPLE_MAX <= b.y <= SAMPLE_MAX,
    ensures
        r == pts_close(a, b),
{
    let dx: i128 = a.x - b.x;
    let dy: i128 = a.y - b.y;
    -EPS < dx && dx < EPS && -EPS < dy && dy < EPS
}

/// Whether `p` is near any point already kept.
fn close_to_any(p: Pt, kept: &Vec<Pt>) -> (r: bool)
    requires
        -SAMPLE_MAX <= p.x <= SAMPLE_MAX,
        -SAMPLE_MAX <= p.y <= SAMPLE_MAX,
        pts_bounded(kept@),
    ensures
        r == close_to_some(p, kept@),
{
    let n: usize = kept.len();
    let mut j: usize = 0;
    while j < n
        invariant
            j <= n,
            n == kept@.len(),
            pts_bounded(kept@),
            -SAMPLE_MAX <= p.x <= SAMPLE_MAX,
            -SAMPLE_MAX <= p.y <= SAMPLE_MAX,
            forall|k: int| 0 <= k < j ==> !pts_close(p, #[trigger] kept@[k]),
        decreases n - j,
    {
        if close_pt(p, kept[j]) {
            return true;
        }
        j = j + 1;
    }
    false
}

/// Remove near-duplicate points: keep each point that is not within the
/// tolerance of an already kept point, in first-occurrence order.
pub fn dedup_points(pts: &Vec<Pt>) -> (r: Vec<Pt>)
    requires
        pts_bounded(pts@),
    ensures
        r@ == spec_dedup(pts@),
        pts_bounded(r@),
{
    let n: usize = pts.len();
    let mut out: Vec<Pt> = Vec::new();
    let mut i: usize = 0;
    while i < n
        invariant
            i <= n,
            n == pts@.len(),
            pts_bounded(pts@),
            pts_bounded(out@),
            spec_dedup(pts@) == dedup_from(pts@, i as int, out@),
        decreases n - i,
    {
        let p: Pt = pts[i];
        if !close_to_any(p, &out) {
            let ghost before = out@;
            out.push(p);
            proof {
                assert(out@ =~= before.push(pts@[i as int]));
                assert(pts_bounded(out@)) by {
                    assert(forall|k: int| 0 <= k < before.len() ==> out@[k] == #[trigger] before[k]);
                    assert(out@[before.len() as int] == p);
                }
            }
        }
        i = i + 1;
    }
    out
}

} // verus!
