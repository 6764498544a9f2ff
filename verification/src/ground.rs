use rand::Rng;
use vstd::prelude::*;

verus! {

/// The number of `true` flags among the first `n`.
pub open spec fn flags_set(flags: Seq<bool>, n: int) -> nat
    decreases n,
{
    if n <= 0 {
        0
    } else {
        flags_set(flags, n - 1) + if flags[n - 1] {
            1nat
        } else {
            0nat
        }
    }
}

/// The points among the first `n` whose flag is not set, in order.
pub open spec fn unflagged_points<T>(points: Seq<T>, flags: Seq<bool>, n: int) -> Seq<T>
    decreases n,
{
    if n <= 0 {
        Seq::empty()
    } else {
        let earlier = unflagged_points(points, flags, n - 1);
        if flags[n - 1] {
            earlier
        } else {
            earlier.push(points[n - 1])
        }
    }
}

/// Counts the points classified as ground (inliers of the fitted plane).
pub fn count_inliers(flags: &[bool]) -> (count: i32)
    requires
        flags.len() <= i32::MAX,
    ensures
        count == flags_set(flags@, flags.len() as int),
{
    let mut count: i32 = 0;
    let mut k: usize = 0;
    while k < flags.len()
        invariant
            flags.len() <= i32::MAX,
            k <= flags.len(),
            count == flags_set(flags@, k as int),
            count <= k,
        decreases flags.len() - k,
    {
        if flags[k] {
            count = count + 1;
        }
        k = k + 1;
    }
    count
}

/// Every point is either flagged or kept.
pub proof fn lemma_flagged_plus_unflagged<T>(points: Seq<T>, flags: Seq<bool>, n: int)
    requires
        0 <= n,
    ensures
        flags_set(flags, n) + unflagged_points(points, flags, n).len() == n,
    decreases n,
{
    if n > 0 {
        lemma_flagged_plus_unflagged(points, flags, n - 1);
    }
}

/// Counting set flags is counting the `true` entries: among the first `n`
/// flags, `flags_set` is the number of those that are `true`.
pub proof fn lemma_flags_set_counts_true(flags: Seq<bool>, n: int)
    requires
        0 <= n <= flags.len(),
    ensures
        flags_set(flags, n) == flags.subrange(0, n).filter(|b: bool| b).len(),
    decreases n,
{
    reveal(Seq::filter);
    if n > 0 {
        lemma_flags_set_counts_true(flags, n - 1);
        assert(flags.subrange(0, n).drop_last() =~= flags.subrange(0, n - 1));
    }
}

/// The kept points are exactly the points whose flag is not set, in their
/// order: among the first `n` indices, keep those `k` with `!flags[k]`, and
/// take `points[k]` for each.
pub proof fn lemma_unflagged_points_are_kept_in_order<T>(points: Seq<T>, flags: Seq<bool>, n: int)
    requires
        0 <= n <= flags.len(),
        n <= points.len(),
    ensures
        unflagged_points(points, flags, n) == Seq::new(n as nat, |k: int| k).filter(
            |k: int| !flags[k],
        ).map_values(|k: int| points[k]),
    decreases n,
{
    reveal(Seq::filter);
    if n > 0 {
        lemma_unflagged_points_are_kept_in_order(points, flags, n - 1);
        let all = Seq::new(n as nat, |k: int| k);
        let before = Seq::new((n - 1) as nat, |k: int| k);
        assert(all.drop_last() =~= before);
        assert(all.last() == n - 1);
        let kept = before.filter(|k: int| !flags[k]);
        if !flags[n - 1] {
            assert(kept.push(n - 1).map_values(|k: int| points[k]) =~= kept.map_values(
                |k: int| points[k],
            ).push(points[n - 1]));
        }
    }
}

/// Removes the ground points from a scan. The result has `inlier_num` rows: the
/// points not classified as ground, in order, followed by `zero` rows.
pub fn filter_pcd_ground<T: Copy>(points: &[T], inliers: &[bool], inlier_num: i32, zero: T) -> (kept: Vec<T>)
    requires
        inliers.len() >= points.len(),
        0 <= inlier_num,
        unflagged_points(points@, inliers@, points.len() as int).len() <= inlier_num,
    ensures
        kept.len() == inlier_num,
        forall|k: int|
            0 <= k < unflagged_points(points@, inliers@, points.len() as int).len() ==> kept@[k]
                == unflagged_points(points@, inliers@, points.len() as int)[k],
        forall|k: int|
            unflagged_points(points@, inliers@, points.len() as int).len() <= k < inlier_num
                ==> kept@[k] == zero,
{
    let mut kept: Vec<T> = Vec::new();
    let mut row_idx: usize = 0;
    while row_idx < points.len()
        invariant
            inliers.len() >= points.len(),
            row_idx <= points.len(),
            kept@ == unflagged_points(points@, inliers@, row_idx as int),
        decreases points.len() - row_idx,
    {
        if !inliers[row_idx] {
            kept.push(points[row_idx]);
        }
        row_idx = row_idx + 1;
    }
    let size: usize = inlier_num as usize;
    let ghost unflagged = kept@;
    while kept.len() < size
        invariant
            unflagged.len() <= kept.len() <= size,
            size == inlier_num,
            forall|k: int| 0 <= k < unflagged.len() ==> kept@[k] == unflagged[k],
            forall|k: int| unflagged.len() <= k < kept.len() ==> kept@[k] == zero,
        decreases size - kept.len(),
    {
        kept.push(zero);
    }
    kept
}

/// The best plane fit seen so far: the epoch whose fit had the most inliers
/// (the first such epoch) and that count; no epoch before any fit beat zero.
#[derive(Clone, Copy, Debug)]
pub struct BestFit {
    pub epoch: Option<usize>,
    pub max_inliers: i32,
}

/// The best fit after a fit of `epoch` with `inliers` inliers has been seen: it
/// replaces the best one only when it has strictly more inliers.
pub open spec fn best_after(best: BestFit, epoch: usize, inliers: i32) -> BestFit {
    if inliers > best.max_inliers {
        BestFit { epoch: Some(epoch), max_inliers: inliers }
    } else {
        best
    }
}

/// The best fit after epochs `0..counts.len()` had the given inlier counts.
pub open spec fn best_of(counts: Seq<i32>) -> BestFit
    decreases counts.len(),
{
    if counts.len() == 0 {
        BestFit { epoch: None, max_inliers: 0 }
    } else {
        best_after(
            best_of(counts.drop_last()),
            (counts.len() - 1) as usize,
            counts.last(),
        )
    }
}

impl BestFit {
    /// No fit seen yet.
    pub fn new() -> (best: BestFit)
        ensures
            best == best_of(Seq::empty()),
    {
        BestFit { epoch: None, max_inliers: 0 }
    }

    /// Records the fit of `epoch`; returns whether it became the best one.
    pub fn offer(&mut self, epoch: usize, inliers: i32) -> (improved: bool)
        ensures
            improved == (inliers > old(self).max_inliers),
            *final(self) == best_after(*old(self), epoch, inliers),
    {
        if inliers > self.max_inliers {
            self.epoch = Some(epoch);
            self.max_inliers = inliers;
            true
        } else {
            false
        }
    }
}

/// The kept fit is the first one with the most inliers: its count is at least
/// zero and at least every epoch's count, it is the count of the kept epoch,
/// and every earlier epoch had fewer inliers. No epoch is kept exactly when no
/// fit had more than zero inliers.
pub proof fn lemma_best_is_first_maximum(counts: Seq<i32>)
    requires
        counts.len() <= usize::MAX,
    ensures
        best_of(counts).max_inliers >= 0,
        best_of(counts).epoch is None <==> best_of(counts).max_inliers == 0,
        forall|k: int| 0 <= k < counts.len() ==> counts[k] <= best_of(counts).max_inliers,
        best_of(counts).epoch is None <==> forall|k: int| 0 <= k < counts.len() ==> counts[k] <= 0,
        best_of(counts).epoch is Some ==> {
            let e = best_of(counts).epoch->0 as int;
            &&& 0 <= e < counts.len()
            &&& counts[e] == best_of(counts).max_inliers
            &&& forall|k: int| 0 <= k < e ==> counts[k] < best_of(counts).max_inliers
        },
    decreases counts.len(),
{
    if counts.len() > 0 {
        let init = counts.drop_last();
        lemma_best_is_first_maximum(init);
        assert forall|k: int| 0 <= k < init.len() implies counts[k] == init[k] by {}
        let prev = best_of(init);
        if counts.last() > prev.max_inliers {
            assert(best_of(counts) == BestFit {
                epoch: Some((counts.len() - 1) as usize),
                max_inliers: counts.last(),
            });
            assert forall|k: int| 0 <= k < counts.len() - 1 implies counts[k] < counts.last() by {
                assert(counts[k] == init[k]);
            }
        } else {
            assert(best_of(counts) == prev);
            if prev.epoch is Some {
                let e = prev.epoch->0 as int;
                assert(counts[e] == init[e]);
                assert forall|k: int| 0 <= k < e implies counts[k] < prev.max_inliers by {
                    assert(counts[k] == init[k]);
                }
            }
            if prev.epoch is None {
                assert forall|k: int| 0 <= k < counts.len() implies counts[k] <= 0 by {
                    if k < init.len() {
                        assert(counts[k] == init[k]);
                    }
                }
            }
        }
    }
}

/// Draws an index uniformly from `low..high` with `rand::thread_rng().gen_range`.
/// The contract states only that the index lies in the range; the value drawn
/// is chance.
#[verifier::external_body]
fn random_index(low: usize, high: usize) -> (index: usize)
    requires
        low < high,
    ensures
        low <= index < high,
{
    rand::thread_rng().gen_range(low, high)
}

/// Draws `n` random indices in `min..max` (none when `n` is not positive).
pub fn sample_ids(n: i32, min: usize, max: usize) -> (ids: Vec<usize>)
    requires
        n > 0 ==> min < max,
    ensures
        ids.len() == if n > 0 { n as int } else { 0 },
        forall|k: int| 0 <= k < ids.len() ==> min <= #[trigger] ids@[k] < max,
{
    let mut ids: Vec<usize> = Vec::new();
    let mut i: i32 = 0;
    while i < n
        invariant
            n > 0 ==> min < max,
            0 <= i,
            n > 0 ==> i <= n,
            n <= 0 ==> i == 0,
            ids.len() == i,
            forall|k: int| 0 <= k < ids.len() ==> min <= #[trigger] ids@[k] < max,
        decreases n - i,
    {
        ids.push(random_index(min, max));
        i = i + 1;
    }
    ids
}

/// The rows of `points` at three indices, in order.
pub fn rows_at<T: Copy>(points: &[[T; 3]], ids: &[usize]) -> (rows: [[T; 3]; 3])
    requires
        ids.len() == 3,
        forall|r: int| 0 <= r < 3 ==> #[trigger] ids@[r] < points.len(),
    ensures
        forall|r: int| 0 <= r < 3 ==> #[trigger] rows@[r] == points@[ids@[r] as int],
{
    assert(ids@[0] < points.len() && ids@[1] < points.len() && ids@[2] < points.len());
    let rows: [[T; 3]; 3] = [points[ids[0]], points[ids[1]], points[ids[2]]];
    assert(rows@[0] == points@[ids@[0] as int]);
    assert(rows@[1] == points@[ids@[1] as int]);
    assert(rows@[2] == points@[ids@[2] as int]);
    rows
}

/// Picks three points of a scan at random (repetitions allowed): three indices
/// are drawn, each on its own, and the rows at those indices are returned
/// together with the indices.
pub fn sample_3_points<T: Copy>(points: &[[T; 3]]) -> (drawn: ([[T; 3]; 3], Vec<usize>))
    requires
        points.len() > 0,
    ensures
        drawn.1.len() == 3,
        forall|r: int|
            0 <= r < 3 ==> #[trigger] drawn.1@[r] < points.len() && drawn.0@[r] == points@[drawn.1@[
                r
            ] as int],
{
    let ids = sample_ids(3, 0, points.len());
    let sample = rows_at(points, ids.as_slice());
    (sample, ids)
}

} // verus!
