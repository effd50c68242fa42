//! Post-processing of detector output: greedy suppression of overlapping
//! candidates, one candidate at a time, and the names of the vehicle
//! classes.
use vstd::prelude::*;

verus! {

/// Candidate `i` overlaps the earlier candidate `j` beyond the suppression
/// limit: row `i` of the overlap table has an entry `j` and it is set.
/// Entries missing from a row count as no overlap.
pub open spec fn overlaps_at(ov: Seq<Vec<bool>>, i: int, j: int) -> bool {
    0 <= j < ov[i]@.len() && ov[i]@[j]
}

/// Candidate `i` overlaps one of the candidates in `kept`.
pub open spec fn overlaps_kept(ov: Seq<Vec<bool>>, kept: Seq<usize>, i: int) -> bool {
    exists|t: int| 0 <= t < kept.len() && #[trigger] overlaps_at(ov, i, kept[t] as int)
}

/// Greedy suppression over the first `n` candidates, taken in order (best
/// score first): a candidate is kept unless it overlaps one already kept.
pub open spec fn nms_kept(ov: Seq<Vec<bool>>, n: nat) -> Seq<usize>
    decreases n,
{
    if n == 0 {
        Seq::empty()
    } else {
        let k = nms_kept(ov, (n - 1) as nat);
        if overlaps_kept(ov, k, n - 1) {
            k
        } else {
            k.push((n - 1) as usize)
        }
    }
}

/// One step of greedy non-maximum suppression. Candidates are taken in
/// order (highest confidence first); `kept` holds the numbers of those kept
/// so far, and `overlaps[t]` says whether `candidate` overlaps the kept
/// candidate `kept[t]` too much. The comparisons may stop at the first
/// overlap found, so `overlaps` may be shorter than `kept`. The candidate
/// is kept, and appended to `kept`, exactly when no comparison found an
/// overlap.
pub fn suppress_candidate(kept: &mut Vec<usize>, candidate: usize, overlaps: &Vec<bool>) -> (keep: bool)
    ensures
        keep == !overlaps@.contains(true),
        final(kept)@ == if keep {
            old(kept)@.push(candidate)
        } else {
            old(kept)@
        },
{
    let n = overlaps.len();
    let mut t: usize = 0;
    while t < n
        invariant
            n == overlaps@.len(),
            t <= n,
            forall|u: int| 0 <= u < t ==> !#[trigger] overlaps@[u],
        decreases n - t,
    {
        if overlaps[t] {
            return false;
        }
        t = t + 1;
    }
    kept.push(candidate);
    true
}

/// Taking the candidates one by one with `suppress_candidate` computes the
/// greedy suppression: if `kept` is the greedy result over the first `i`
/// candidates and candidate `i` was compared, in order, against kept
/// candidates until the first overlap (or against all of them), then the
/// step gives the greedy result over the first `i + 1` candidates.
pub proof fn law_candidate_step_is_greedy(
    ov: Seq<Vec<bool>>,
    i: usize,
    kept: Seq<usize>,
    overlaps: Seq<bool>,
)
    requires
        kept == nms_kept(ov, i as nat),
        overlaps.len() <= kept.len(),
        forall|t: int|
            0 <= t < overlaps.len() ==> #[trigger] overlaps[t] == overlaps_at(ov, i as int, kept[t] as int),
        overlaps.len() < kept.len() ==> overlaps.contains(true),
    ensures
        (if !overlaps.contains(true) {
            kept.push(i)
        } else {
            kept
        }) == nms_kept(ov, (i + 1) as nat),
{
    if overlaps.contains(true) {
        let t = choose|t: int| 0 <= t < overlaps.len() && overlaps[t] == true;
        assert(overlaps_at(ov, i as int, kept[t] as int));
    } else {
        assert forall|t: int| 0 <= t < kept.len() implies !#[trigger] overlaps_at(
            ov,
            i as int,
            kept[t] as int,
        ) by {
            assert(overlaps[t] == overlaps_at(ov, i as int, kept[t] as int));
            if overlaps[t] {
                assert(overlaps.contains(true));
            }
        }
    }
}

/// What the greedy suppression keeps: increasing candidate numbers below
/// `n`; no kept candidate overlaps an earlier kept one; and every candidate
/// that was dropped overlaps an earlier kept one.
pub proof fn law_suppression_is_greedy(ov: Seq<Vec<bool>>, n: usize)
    ensures
        forall|a: int, b: int|
            0 <= a < b < nms_kept(ov, n as nat).len() ==> nms_kept(ov, n as nat)[a] < nms_kept(ov, n as nat)[b],
        forall|a: int| 0 <= a < nms_kept(ov, n as nat).len() ==> nms_kept(ov, n as nat)[a] < n,
        forall|a: int, b: int|
            0 <= a < b < nms_kept(ov, n as nat).len() ==> !overlaps_at(
                ov,
                nms_kept(ov, n as nat)[b] as int,
                nms_kept(ov, n as nat)[a] as int,
            ),
        forall|i: usize|
            i < n && !#[trigger] nms_kept(ov, n as nat).contains(i) ==> exists|a: int|
                0 <= a < nms_kept(ov, n as nat).len() && nms_kept(ov, n as nat)[a] < i && overlaps_at(
                    ov,
                    i as int,
                    nms_kept(ov, n as nat)[a] as int,
                ),
    decreases n,
{
    if n > 0 {
        law_suppression_is_greedy(ov, (n - 1) as usize);
        let k = nms_kept(ov, (n - 1) as nat);
        let kn = nms_kept(ov, n as nat);
        if overlaps_kept(ov, k, n - 1) {
            assert forall|i: usize|
                i < n && !#[trigger] kn.contains(i) implies exists|a: int|
                    0 <= a < kn.len() && kn[a] < i && overlaps_at(ov, i as int, kn[a] as int) by {
                if i == n - 1 {
                    let t = choose|t: int|
                        0 <= t < k.len() && #[trigger] overlaps_at(ov, i as int, k[t] as int);
                    assert(kn[t] < i);
                }
            }
        } else {
            assert forall|i: usize|
                i < n && !#[trigger] kn.contains(i) implies exists|a: int|
                    0 <= a < kn.len() && kn[a] < i && overlaps_at(ov, i as int, kn[a] as int) by {
                assert(i != n - 1) by {
                    assert(kn[k.len() as int] == (n - 1) as usize);
                }
                assert(!k.contains(i)) by {
                    if k.contains(i) {
                        let t = choose|t: int| 0 <= t < k.len() && k[t] == i;
                        assert(kn[t] == i);
                    }
                }
                let a = choose|a: int|
                    0 <= a < k.len() && k[a] < i && overlaps_at(ov, i as int, k[a] as int);
                assert(kn[a] == k[a]);
            }
            assert forall|a: int, b: int|
                0 <= a < b < kn.len() implies !overlaps_at(ov, kn[b] as int, kn[a] as int) by {
                if b == k.len() {
                    assert(kn[a] == k[a]);
                    if overlaps_at(ov, kn[b] as int, kn[a] as int) {
                        assert(overlaps_at(ov, n - 1, k[a] as int));
                        assert(overlaps_kept(ov, k, n - 1));
                    }
                }
            }
        }
    }
}

/// The name of a COCO vehicle class: 2 car, 3 motorcycle, 5 bus, 7 truck,
/// and "vehicle" for any other class.
pub open spec fn vehicle_label_of(class_id: usize) -> Seq<char> {
    if class_id == 2 {
        "car"@
    } else if class_id == 3 {
        "motorcycle"@
    } else if class_id == 5 {
        "bus"@
    } else if class_id == 7 {
        "truck"@
    } else {
        "vehicle"@
    }
}

/// The label reported for a detected vehicle of class `class_id`.
pub fn vehicle_label(class_id: usize) -> (label: &'static str)
    ensures
        label@ == vehicle_label_of(class_id),
{
    if class_id == 2 {
        "car"
    } else if class_id == 3 {
        "motorcycle"
    } else if class_id == 5 {
        "bus"
    } else if class_id == 7 {
        "truck"
    } else {
        "vehicle"
    }
}

} // verus!
