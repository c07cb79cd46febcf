//! The clustering engine: iterative centroid refinement.
//!
//! Given color samples and an initial centroid set, the engine alternates
//! two passes until the centroids stop moving: each centroid is recomputed
//! as the mean of its members, and each sample is reassigned to the centroid
//! at minimal squared distance, scanning centroids in index order and
//! updating only on strict improvement (so the lowest index wins a tie).
//! A centroid whose cluster lost all members keeps its previous value.
//!
//! The whole run is mirrored by spec functions, and the executable code is
//! proved equal to them, so the run is a mathematical function of its
//! inputs: determinism is a theorem, not a hope.

use vstd::prelude::*;
use crate::vec3::{Vec3, dist_sq_spec, CHAN_MAX, DIST_SQ_MAX, lemma_dist_sq_bounds};
use crate::Error;

verus! {

/// Largest accepted number of samples; keeps channel sums inside `u64`.
pub const N_MAX: u64 = 0x100_0000_0000;

/// Largest accepted number of clusters; keeps displacement sums inside `u64`.
pub const K_MAX: u64 = 0x10_0000;

/// One color sample together with its current cluster and the squared
/// distance recorded when that cluster was chosen.
#[derive(Clone, Copy, Debug)]
pub struct Point {
    pub coords: Vec3,
    pub cluster: usize,
    pub distance_to_cluster: u64,
}

pub open spec fn coords_valid(s: Seq<Vec3>) -> bool {
    forall|i: int| 0 <= i < s.len() ==> s[i].valid()
}

pub open spec fn points_coords_valid(pts: Seq<Point>) -> bool {
    forall|i: int| 0 <= i < pts.len() ==> pts[i].coords.valid()
}

/// The best (smallest) squared distance after scanning the first `n`
/// barycenters, starting from the carried-over distance `d0`.
pub open spec fn best_dist_upto(c: Vec3, bars: Seq<Vec3>, d0: int, n: int) -> int
    decreases n,
{
    if n <= 0 {
        d0
    } else {
        let prev = best_dist_upto(c, bars, d0, n - 1);
        let d = dist_sq_spec(c, bars[n - 1]);
        if d < prev {
            d
        } else {
            prev
        }
    }
}

/// The cluster chosen after scanning the first `n` barycenters: an index
/// replaces the carried-over cluster `c0` only on strict improvement.
pub open spec fn best_cluster_upto(c: Vec3, bars: Seq<Vec3>, d0: int, c0: int, n: int) -> int
    decreases n,
{
    if n <= 0 {
        c0
    } else {
        let prev = best_dist_upto(c, bars, d0, n - 1);
        let d = dist_sq_spec(c, bars[n - 1]);
        if d < prev {
            n - 1
        } else {
            best_cluster_upto(c, bars, d0, c0, n - 1)
        }
    }
}

/// One point after a full assignment scan over `bars`. The scan starts
/// afresh — nothing carried from earlier rounds survives — so the point
/// always lands on a nearest barycenter, the lowest index winning ties;
/// the carried cluster stands only in the degenerate no-barycenter case.
pub open spec fn assigned_point(p: Point, bars: Seq<Vec3>) -> Point {
    Point {
        coords: p.coords,
        cluster: best_cluster_upto(
            p.coords,
            bars,
            u64::MAX as int,
            p.cluster as int,
            bars.len() as int,
        ) as usize,
        distance_to_cluster: best_dist_upto(
            p.coords,
            bars,
            u64::MAX as int,
            bars.len() as int,
        ) as u64,
    }
}

/// A whole assignment pass.
pub open spec fn assign_points(pts: Seq<Point>, bars: Seq<Vec3>) -> Seq<Point> {
    Seq::new(pts.len(), |i: int| assigned_point(pts[i], bars))
}

/// The best distance is never worse than the carried-over one, never worse
/// than any scanned barycenter, and the chosen cluster is either the carried
/// one (no strict improvement) or the lowest index that attains the best
/// distance.
pub proof fn lemma_best_upto_props(c: Vec3, bars: Seq<Vec3>, d0: int, c0: int, n: int)
    requires
        0 <= n <= bars.len(),
        0 <= d0,
        0 <= c0,
    ensures
        best_dist_upto(c, bars, d0, n) <= d0,
        0 <= best_dist_upto(c, bars, d0, n),
        forall|j: int| 0 <= j < n ==> best_dist_upto(c, bars, d0, n) <= dist_sq_spec(c, bars[j]),
        best_dist_upto(c, bars, d0, n) < d0 ==> {
            let bc = best_cluster_upto(c, bars, d0, c0, n);
            0 <= bc < n && dist_sq_spec(c, bars[bc]) == best_dist_upto(c, bars, d0, n)
        },
        best_dist_upto(c, bars, d0, n) == d0 ==> best_cluster_upto(c, bars, d0, c0, n) == c0,
    decreases n,
{
    if n > 0 {
        lemma_best_upto_props(c, bars, d0, c0, n - 1);
        crate::vec3::lemma_dist_sq_nonneg(c, bars[n - 1]);
    }
}

pub open spec fn bars_valid(bars: Seq<Vec3>) -> bool {
    forall|i: int| 0 <= i < bars.len() ==> bars[i].valid()
}

/// Reassign every point to the barycenter minimizing the squared
/// distance. Each scan starts afresh, walks barycenters in index order
/// and updates only on strict improvement, so the lowest index wins among
/// equal distances.
pub fn assign_to_barycenters(clustered_points: &mut Vec<Point>, barycenters: &Vec<Vec3>)
    requires
        points_coords_valid(old(clustered_points)@),
        bars_valid(barycenters@),
    ensures
        final(clustered_points)@ == assign_points(old(clustered_points)@, barycenters@),
{
    let n = clustered_points.len();
    let k = barycenters.len();
    let ghost pts0 = clustered_points@;
    let ghost bars = barycenters@;
    for i in 0..n
        invariant
            clustered_points@.len() == n,
            pts0.len() == n,
            bars == barycenters@,
            points_coords_valid(pts0),
            bars_valid(bars),
            k == bars.len(),
            forall|j: int| 0 <= j < i ==> clustered_points@[j] == assigned_point(pts0[j], bars),
            forall|j: int| i <= j < n ==> clustered_points@[j] == pts0[j],
    {
        let p = clustered_points[i];
        assert(p == pts0[i as int]);
        let mut best_d: u64 = u64::MAX;
        let mut best_c: usize = p.cluster;
        for c in 0..k
            invariant
                bars == barycenters@,
                bars_valid(bars),
                k == bars.len(),
                p.coords.valid(),
                best_d as int == best_dist_upto(p.coords, bars, u64::MAX as int, c as int),
                best_c as int == best_cluster_upto(
                    p.coords,
                    bars,
                    u64::MAX as int,
                    p.cluster as int,
                    c as int,
                ),
                best_c <= usize::MAX,
        {
            let d = p.coords.dist_sq(&barycenters[c]);
            if d < best_d {
                best_d = d;
                best_c = c;
            }
        }
        let q = Point { coords: p.coords, cluster: best_c, distance_to_cluster: best_d };
        clustered_points.set(i, q);
        assert(clustered_points@[i as int] == assigned_point(pts0[i as int], bars));
    }
    assert(clustered_points@ =~= assign_points(pts0, bars));
}

pub open spec fn cluster_count(pts: Seq<Point>, c: int) -> int
    decreases pts.len(),
{
    if pts.len() == 0 {
        0
    } else {
        cluster_count(pts.drop_last(), c) + if pts.last().cluster == c {
            1int
        } else {
            0int
        }
    }
}

pub open spec fn cluster_sum_x(pts: Seq<Point>, c: int) -> int
    decreases pts.len(),
{
    if pts.len() == 0 {
        0
    } else {
        cluster_sum_x(pts.drop_last(), c) + if pts.last().cluster == c {
            pts.last().coords.x as int
        } else {
            0int
        }
    }
}

pub open spec fn cluster_sum_y(pts: Seq<Point>, c: int) -> int
    decreases pts.len(),
{
    if pts.len() == 0 {
        0
    } else {
        cluster_sum_y(pts.drop_last(), c) + if pts.last().cluster == c {
            pts.last().coords.y as int
        } else {
            0int
        }
    }
}

pub open spec fn cluster_sum_z(pts: Seq<Point>, c: int) -> int
    decreases pts.len(),
{
    if pts.len() == 0 {
        0
    } else {
        cluster_sum_z(pts.drop_last(), c) + if pts.last().cluster == c {
            pts.last().coords.z as int
        } else {
            0int
        }
    }
}

/// One mean channel: the floor of `sum / n`, or the previous channel when
/// the cluster is empty.
pub open spec fn bary_chan(sum: int, n: int, prev: int) -> int {
    if n == 0 {
        prev
    } else {
        sum / n
    }
}

/// The barycenter of cluster `c`, or `prev` unchanged when `c` lost all
/// its members.
pub open spec fn barycenter_of(pts: Seq<Point>, c: int, prev: Vec3) -> Vec3 {
    let n = cluster_count(pts, c);
    Vec3 {
        x: bary_chan(cluster_sum_x(pts, c), n, prev.x as int) as u32,
        y: bary_chan(cluster_sum_y(pts, c), n, prev.y as int) as u32,
        z: bary_chan(cluster_sum_z(pts, c), n, prev.z as int) as u32,
    }
}

/// A full recomputation pass over all clusters.
pub open spec fn recompute_barycenters(pts: Seq<Point>, bars: Seq<Vec3>) -> Seq<Vec3> {
    Seq::new(bars.len(), |c: int| barycenter_of(pts, c, bars[c]))
}

/// Counts are bounded by the sample count, and channel sums by
/// `count * CHAN_MAX`.
pub proof fn lemma_cluster_sums_bounds(pts: Seq<Point>, c: int)
    requires
        points_coords_valid(pts),
    ensures
        0 <= cluster_count(pts, c) <= pts.len(),
        0 <= cluster_sum_x(pts, c) <= cluster_count(pts, c) * CHAN_MAX,
        0 <= cluster_sum_y(pts, c) <= cluster_count(pts, c) * CHAN_MAX,
        0 <= cluster_sum_z(pts, c) <= cluster_count(pts, c) * CHAN_MAX,
    decreases pts.len(),
{
    if pts.len() > 0 {
        assert(points_coords_valid(pts.drop_last()));
        lemma_cluster_sums_bounds(pts.drop_last(), c);
        let m = cluster_count(pts.drop_last(), c);
        assert(m * CHAN_MAX + CHAN_MAX == (m + 1) * CHAN_MAX) by (nonlinear_arith);
    }
}

/// A mean channel of valid members is itself a valid channel.
pub proof fn lemma_bary_chan_valid(sum: int, n: int, prev: int)
    requires
        0 <= n,
        0 <= sum <= n * CHAN_MAX,
        0 <= prev <= CHAN_MAX,
    ensures
        0 <= bary_chan(sum, n, prev) <= CHAN_MAX,
{
    if n != 0 {
        assert(sum / n <= CHAN_MAX && sum / n >= 0) by (nonlinear_arith)
            requires n >= 1 && 0 <= sum <= n * CHAN_MAX;
    }
}

/// Recompute every barycenter as the componentwise floor mean of its
/// members; a cluster without members keeps its previous barycenter.
pub fn compute_cluster_barycenters(clustered_points: &Vec<Point>, barycenters: &Vec<Vec3>) -> (r:
    Vec<Vec3>)
    requires
        points_coords_valid(clustered_points@),
        bars_valid(barycenters@),
        clustered_points@.len() <= N_MAX,
    ensures
        r@ == recompute_barycenters(clustered_points@, barycenters@),
        bars_valid(r@),
        r@.len() == barycenters@.len(),
{
    let n = clustered_points.len();
    let k = barycenters.len();
    let ghost pts = clustered_points@;
    let mut r: Vec<Vec3> = Vec::new();
    for c in 0..k
        invariant
            pts == clustered_points@,
            points_coords_valid(pts),
            bars_valid(barycenters@),
            n == pts.len() <= N_MAX,
            k == barycenters@.len(),
            r@.len() == c,
            forall|cc: int| 0 <= cc < c ==> r@[cc] == barycenter_of(pts, cc, barycenters@[cc]),
            forall|cc: int| 0 <= cc < c ==> #[trigger] r@[cc].valid(),
    {
        let mut cnt: u64 = 0;
        let mut sx: u64 = 0;
        let mut sy: u64 = 0;
        let mut sz: u64 = 0;
        for i in 0..n
            invariant
                pts == clustered_points@,
                points_coords_valid(pts),
                n == pts.len() <= N_MAX,
                c < k,
                cnt as int == cluster_count(pts.take(i as int), c as int),
                sx as int == cluster_sum_x(pts.take(i as int), c as int),
                sy as int == cluster_sum_y(pts.take(i as int), c as int),
                sz as int == cluster_sum_z(pts.take(i as int), c as int),
                cnt <= i,
                sx <= cnt * CHAN_MAX,
                sy <= cnt * CHAN_MAX,
                sz <= cnt * CHAN_MAX,
        {
            assert(pts.take(i + 1).drop_last() =~= pts.take(i as int));
            assert(pts.take(i + 1).last() == pts[i as int]);
            let p = &clustered_points[i];
            if p.cluster == c {
                assert((cnt + 1) * CHAN_MAX == cnt * CHAN_MAX + CHAN_MAX) by (nonlinear_arith);
                cnt = cnt + 1;
                sx = sx + p.coords.x as u64;
                sy = sy + p.coords.y as u64;
                sz = sz + p.coords.z as u64;
            }
        }
        assert(pts.take(n as int) =~= pts);
        if cnt == 0 {
            r.push(barycenters[c]);
        } else {
            proof {
                lemma_bary_chan_valid(sx as int, cnt as int, barycenters@[c as int].x as int);
                lemma_bary_chan_valid(sy as int, cnt as int, barycenters@[c as int].y as int);
                lemma_bary_chan_valid(sz as int, cnt as int, barycenters@[c as int].z as int);
            }
            let b = Vec3 { x: (sx / cnt) as u32, y: (sy / cnt) as u32, z: (sz / cnt) as u32 };
            assert(b == barycenter_of(pts, c as int, barycenters@[c as int]));
            r.push(b);
        }
    }
    assert(r@ =~= recompute_barycenters(clustered_points@, barycenters@));
    r
}

/// The summed squared displacement between two barycenter sets of equal
/// length.
pub open spec fn displacement_sum(a: Seq<Vec3>, b: Seq<Vec3>) -> int
    decreases a.len(),
{
    if a.len() == 0 || b.len() == 0 {
        0
    } else {
        displacement_sum(a.drop_last(), b.drop_last()) + dist_sq_spec(a.last(), b.last())
    }
}

/// Total squared displacement between consecutive barycenter sets: the
/// clustering loop's convergence measure.
pub fn displacement(a: &Vec<Vec3>, b: &Vec<Vec3>) -> (r: u64)
    requires
        a@.len() == b@.len() <= K_MAX,
        bars_valid(a@),
        bars_valid(b@),
    ensures
        r as int == displacement_sum(a@, b@),
{
    let n = a.len();
    let mut r: u64 = 0;
    for i in 0..n
        invariant
            n == a@.len() == b@.len() <= K_MAX,
            bars_valid(a@),
            bars_valid(b@),
            r as int == displacement_sum(a@.take(i as int), b@.take(i as int)),
            r <= i * DIST_SQ_MAX,
    {
        assert(a@.take(i + 1).drop_last() =~= a@.take(i as int));
        assert(b@.take(i + 1).drop_last() =~= b@.take(i as int));
        assert((i + 1) * DIST_SQ_MAX == i * DIST_SQ_MAX + DIST_SQ_MAX) by (nonlinear_arith);
        let d = a[i].dist_sq(&b[i]);
        r = r + d;
    }
    assert(a@.take(n as int) =~= a@);
    assert(b@.take(n as int) =~= b@);
    r
}

/// The fresh points of a run: sample `i` starts on cluster `i % k` with an
/// unknowable (maximal) recorded distance, so the first assignment pass
/// decides every cluster from the barycenters alone.
pub open spec fn initial_points(coords: Seq<Vec3>, k: int) -> Seq<Point> {
    Seq::new(
        coords.len(),
        |i: int|
            Point {
                coords: coords[i],
                cluster: (i % k) as usize,
                distance_to_cluster: u64::MAX,
            },
    )
}

/// One refinement iteration after another, with `fuel` iterations allowed:
/// recompute the barycenters, measure their displacement, reassign, and
/// stop once the displacement falls to the threshold. `None` is a failure
/// to converge within `fuel` iterations.
pub open spec fn kmeans_loop_spec(pts: Seq<Point>, bars: Seq<Vec3>, stop: int, fuel: nat) -> Option<
    (Seq<Point>, Seq<Vec3>),
>
    decreases fuel,
{
    if fuel == 0 {
        None
    } else {
        let nb = recompute_barycenters(pts, bars);
        let d = displacement_sum(bars, nb);
        let pts2 = assign_points(pts, nb);
        if d <= stop {
            Some((pts2, nb))
        } else {
            kmeans_loop_spec(pts2, nb, stop, (fuel - 1) as nat)
        }
    }
}

/// The whole clustering run as a mathematical function of its inputs.
pub open spec fn kmeans_spec(coords: Seq<Vec3>, init_bars: Seq<Vec3>, stop: int, max_iters: nat) -> Option<
    (Seq<Point>, Seq<Vec3>),
> {
    kmeans_loop_spec(
        assign_points(initial_points(coords, init_bars.len() as int), init_bars),
        init_bars,
        stop,
        max_iters,
    )
}

/// An assignment pass keeps every coordinate unchanged.
pub proof fn lemma_assign_points_coords(pts: Seq<Point>, bars: Seq<Vec3>)
    ensures
        assign_points(pts, bars).len() == pts.len(),
        forall|i: int| 0 <= i < pts.len() ==> #[trigger] assign_points(pts, bars)[i].coords
            == pts[i].coords,
{
}

/// Iterative centroid refinement. Scans barycenters in index order,
/// reassigns on strict improvement only, retains a member-less cluster's
/// previous barycenter, and stops when the summed squared displacement of
/// the barycenters falls to `stop_dist`. Fails fast on an empty input or an
/// empty barycenter set, and reports a run that does not converge within
/// `max_iterations` refinement iterations.
pub fn kmeans(
    coords: &Vec<Vec3>,
    initial_barycenters: &Vec<Vec3>,
    stop_dist: u64,
    max_iterations: usize,
) -> (r: Result<(Vec<Point>, Vec<Vec3>), Error>)
    requires
        coords@.len() <= N_MAX,
        initial_barycenters@.len() <= K_MAX,
        coords_valid(coords@),
        bars_valid(initial_barycenters@),
    ensures
        ({
            let k = initial_barycenters@.len() as int;
            let n = coords@.len() as int;
            if k == 0 || n == 0 {
                r matches Err(e) && e == Error::InvalidConfiguration
            } else {
                match kmeans_spec(
                    coords@,
                    initial_barycenters@,
                    stop_dist as int,
                    max_iterations as nat,
                ) {
                    Some(out) => r matches Ok(o) && o.0@ == out.0 && o.1@ == out.1,
                    None => r matches Err(e) && e == Error::ConvergenceFailure,
                }
            }
        }),
{
    let k = initial_barycenters.len();
    let n = coords.len();
    if k == 0 || n == 0 {
        return Err(Error::InvalidConfiguration);
    }
    let mut points: Vec<Point> = Vec::new();
    for i in 0..n
        invariant
            n == coords@.len(),
            k == initial_barycenters@.len(),
            k >= 1,
            coords_valid(coords@),
            points@.len() == i,
            forall|j: int| 0 <= j < i ==> points@[j] == initial_points(coords@, k as int)[j],
    {
        points.push(Point { coords: coords[i], cluster: i % k, distance_to_cluster: u64::MAX });
    }
    assert(points@ =~= initial_points(coords@, k as int));
    let mut barycenters: Vec<Vec3> = Vec::new();
    for i in 0..k
        invariant
            k == initial_barycenters@.len(),
            bars_valid(initial_barycenters@),
            barycenters@.len() == i,
            forall|j: int| 0 <= j < i ==> barycenters@[j] == initial_barycenters@[j],
    {
        barycenters.push(initial_barycenters[i]);
    }
    assert(barycenters@ =~= initial_barycenters@);
    proof {
        lemma_assign_points_coords(points@, barycenters@);
    }
    assign_to_barycenters(&mut points, &barycenters);
    let ghost spec_result = kmeans_spec(
        coords@,
        initial_barycenters@,
        stop_dist as int,
        max_iterations as nat,
    );
    let mut iters: usize = 0;
    loop
        invariant
            points_coords_valid(points@),
            bars_valid(barycenters@),
            points@.len() == n <= N_MAX,
            barycenters@.len() == k <= K_MAX,
            n == coords@.len(),
            k == initial_barycenters@.len(),
            k >= 1,
            n >= 1,
            iters <= max_iterations,
            spec_result == kmeans_spec(
                coords@,
                initial_barycenters@,
                stop_dist as int,
                max_iterations as nat,
            ),
            kmeans_loop_spec(
                points@,
                barycenters@,
                stop_dist as int,
                (max_iterations - iters) as nat,
            ) == spec_result,
        decreases max_iterations - iters,
    {
        if iters >= max_iterations {
            assert(spec_result is None);
            return Err(Error::ConvergenceFailure);
        }
        let ghost pts_before = points@;
        let ghost bars_before = barycenters@;
        let ghost fuel_before = (max_iterations - iters) as nat;
        let next = compute_cluster_barycenters(&points, &barycenters);
        let d = displacement(&barycenters, &next);
        proof {
            lemma_assign_points_coords(points@, next@);
        }
        barycenters = next;
        assign_to_barycenters(&mut points, &barycenters);
        iters = iters + 1;
        proof {
            let stop = stop_dist as int;
            let nb = recompute_barycenters(pts_before, bars_before);
            assert(nb == barycenters@);
            assert(fuel_before >= 1);
            assert(kmeans_loop_spec(pts_before, bars_before, stop, fuel_before) == (if displacement_sum(
                bars_before,
                nb,
            ) <= stop {
                Some((assign_points(pts_before, nb), nb))
            } else {
                kmeans_loop_spec(assign_points(pts_before, nb), nb, stop, (fuel_before - 1) as nat)
            }));
            assert(points@ == assign_points(pts_before, nb));
        }
        if d <= stop_dist {
            assert(spec_result == Some((points@, barycenters@)));
            return Ok((points, barycenters));
        }
    }
}

/// Every point's recorded squared distance agrees with the barycenter its
/// recorded cluster names.
pub open spec fn consistent(pts: Seq<Point>, bars: Seq<Vec3>) -> bool {
    forall|i: int| 0 <= i < pts.len() ==> (pts[i].cluster as int) < bars.len()
        && pts[i].distance_to_cluster as int == dist_sq_spec(
        pts[i].coords,
        bars[pts[i].cluster as int],
    )
}

/// Clustering local optimality: an assignment pass leaves every point on
/// a nearest barycenter — no relabeling would strictly reduce its squared
/// distance — with its recorded distance matching its recorded cluster.
pub proof fn lemma_assign_local_optimality(pts: Seq<Point>, bars: Seq<Vec3>)
    requires
        points_coords_valid(pts),
        bars_valid(bars),
        1 <= bars.len() <= usize::MAX,
    ensures
        consistent(assign_points(pts, bars), bars),
        forall|i: int, j: int|
            0 <= i < pts.len() && 0 <= j < bars.len() ==> dist_sq_spec(
                #[trigger] assign_points(pts, bars)[i].coords,
                bars[assign_points(pts, bars)[i].cluster as int],
            ) <= #[trigger] dist_sq_spec(assign_points(pts, bars)[i].coords, bars[j]),
{
    let k = bars.len() as int;
    assert forall|i: int| 0 <= i < pts.len() implies {
        let q = #[trigger] assign_points(pts, bars)[i];
        (q.cluster as int) < k && q.distance_to_cluster as int == dist_sq_spec(
            q.coords,
            bars[q.cluster as int],
        ) && forall|j: int|
            0 <= j < k ==> dist_sq_spec(q.coords, bars[q.cluster as int]) <= #[trigger] dist_sq_spec(
                q.coords,
                bars[j],
            )
    } by {
        let p = pts[i];
        let q = assign_points(pts, bars)[i];
        assert(q == assigned_point(p, bars));
        let d0 = u64::MAX as int;
        let c0 = p.cluster as int;
        lemma_best_upto_props(p.coords, bars, d0, c0, k);
        lemma_dist_sq_bounds(p.coords, bars[0]);
        let bd = best_dist_upto(p.coords, bars, d0, k);
        assert(bd <= dist_sq_spec(p.coords, bars[0]) < d0);
        let bc = best_cluster_upto(p.coords, bars, d0, c0, k);
        assert(0 <= bc < k && dist_sq_spec(p.coords, bars[bc]) == bd);
        assert(q.cluster as int == bc && q.distance_to_cluster as int == bd);
        assert forall|j: int| 0 <= j < k implies dist_sq_spec(
            q.coords,
            bars[q.cluster as int],
        ) <= #[trigger] dist_sq_spec(q.coords, bars[j]) by {
            assert(bd <= dist_sq_spec(p.coords, bars[j]));
        }
    }
}

/// Clustering determinism: the whole run is a mathematical function of the
/// samples, the initial centroids, the threshold and the iteration cap, so
/// identical inputs yield identical final assignments and centroids.
pub proof fn lemma_kmeans_deterministic(
    coords1: Seq<Vec3>,
    init1: Seq<Vec3>,
    stop1: int,
    fuel1: nat,
    coords2: Seq<Vec3>,
    init2: Seq<Vec3>,
    stop2: int,
    fuel2: nat,
)
    requires
        coords1 == coords2,
        init1 == init2,
        stop1 == stop2,
        fuel1 == fuel2,
    ensures
        kmeans_spec(coords1, init1, stop1, fuel1) == kmeans_spec(coords2, init2, stop2, fuel2),
{
}

/// Two identical barycenter sets are at displacement zero.
pub proof fn lemma_displacement_self(bars: Seq<Vec3>)
    ensures
        displacement_sum(bars, bars) == 0,
    decreases bars.len(),
{
    if bars.len() > 0 {
        lemma_displacement_self(bars.drop_last());
        let v = bars.last();
        assert(dist_sq_spec(v, v) == 0);
    }
}

/// Clustering fixed point: a run restarted from exactly converged output
/// centroids — centroids equal to the means of the clusters that a fresh
/// assignment to them produces — stops in its first iteration with those
/// same centroids: they change by nothing at all.
pub proof fn lemma_kmeans_fixed_point(coords: Seq<Vec3>, bars: Seq<Vec3>, stop: int, fuel: nat)
    requires
        coords.len() >= 1,
        bars.len() >= 1,
        fuel >= 1,
        stop >= 0,
        recompute_barycenters(
            assign_points(initial_points(coords, bars.len() as int), bars),
            bars,
        ) == bars,
    ensures
        kmeans_spec(coords, bars, stop, fuel) matches Some(out) && out.1 == bars,
{
    let pts1 = assign_points(initial_points(coords, bars.len() as int), bars);
    let nb = recompute_barycenters(pts1, bars);
    assert(nb == bars);
    lemma_displacement_self(bars);
    assert(kmeans_loop_spec(pts1, bars, stop, fuel) == Some((assign_points(pts1, nb), nb)));
}

/// A spec-level recomputation keeps one valid barycenter per cluster.
pub proof fn lemma_recompute_valid(pts: Seq<Point>, bars: Seq<Vec3>)
    requires
        points_coords_valid(pts),
        bars_valid(bars),
    ensures
        recompute_barycenters(pts, bars).len() == bars.len(),
        bars_valid(recompute_barycenters(pts, bars)),
{
    let nb = recompute_barycenters(pts, bars);
    assert forall|c: int| 0 <= c < nb.len() implies (#[trigger] nb[c]).valid() by {
        lemma_cluster_sums_bounds(pts, c);
        let cnt = cluster_count(pts, c);
        lemma_bary_chan_valid(cluster_sum_x(pts, c), cnt, bars[c].x as int);
        lemma_bary_chan_valid(cluster_sum_y(pts, c), cnt, bars[c].y as int);
        lemma_bary_chan_valid(cluster_sum_z(pts, c), cnt, bars[c].z as int);
    }
}

/// Every state the refinement loop can reach keeps its clusters in range,
/// its coordinates untouched, and one valid barycenter per cluster.
pub proof fn lemma_kmeans_loop_wf(pts: Seq<Point>, bars: Seq<Vec3>, stop: int, fuel: nat, k: int)
    requires
        bars.len() == k,
        1 <= k <= usize::MAX,
        points_coords_valid(pts),
        bars_valid(bars),
    ensures
        match kmeans_loop_spec(pts, bars, stop, fuel) {
            Some(out) => out.0.len() == pts.len() && out.1.len() == k && bars_valid(out.1)
                && consistent(out.0, out.1) && (forall|i: int|
                0 <= i < out.0.len() ==> (#[trigger] out.0[i]).cluster < k && out.0[i].coords
                    == pts[i].coords) && forall|i: int, j: int|
                0 <= i < out.0.len() && 0 <= j < k ==> dist_sq_spec(
                    (#[trigger] out.0[i]).coords,
                    out.1[out.0[i].cluster as int],
                ) <= #[trigger] dist_sq_spec(out.0[i].coords, out.1[j]),
            None => true,
        },
    decreases fuel,
{
    if fuel > 0 {
        let nb = recompute_barycenters(pts, bars);
        lemma_recompute_valid(pts, bars);
        let pts2 = assign_points(pts, nb);
        lemma_assign_local_optimality(pts, nb);
        assert forall|i: int| 0 <= i < pts2.len() implies (#[trigger] pts2[i]).cluster < k
            && pts2[i].coords == pts[i].coords by {
            assert(consistent(pts2, nb));
        }
        if displacement_sum(bars, nb) <= stop {
        } else {
            assert(points_coords_valid(pts2));
            lemma_kmeans_loop_wf(pts2, nb, stop, (fuel - 1) as nat, k);
        }
    }
}

/// The whole run keeps its clusters in range and its coordinates
/// untouched.
pub proof fn lemma_kmeans_spec_wf(coords: Seq<Vec3>, init_bars: Seq<Vec3>, stop: int, fuel: nat)
    requires
        1 <= init_bars.len() <= usize::MAX,
        coords_valid(coords),
        bars_valid(init_bars),
    ensures
        match kmeans_spec(coords, init_bars, stop, fuel) {
            Some(out) => out.0.len() == coords.len() && out.1.len() == init_bars.len()
                && bars_valid(out.1) && consistent(out.0, out.1) && (forall|i: int|
                0 <= i < out.0.len() ==> (#[trigger] out.0[i]).cluster < init_bars.len()
                    && out.0[i].coords == coords[i]) && forall|i: int, j: int|
                0 <= i < out.0.len() && 0 <= j < out.1.len() ==> dist_sq_spec(
                    (#[trigger] out.0[i]).coords,
                    out.1[out.0[i].cluster as int],
                ) <= #[trigger] dist_sq_spec(out.0[i].coords, out.1[j]),
            None => true,
        },
{
    let k = init_bars.len() as int;
    let pts0 = initial_points(coords, k);
    let pts1 = assign_points(pts0, init_bars);
    assert forall|i: int| 0 <= i < pts0.len() implies #[trigger] pts0[i].coords == coords[i] by {}
    assert(points_coords_valid(pts0));
    lemma_assign_local_optimality(pts0, init_bars);
    lemma_assign_points_coords(pts0, init_bars);
    assert(points_coords_valid(pts1));
    lemma_kmeans_loop_wf(pts1, init_bars, stop, fuel, k);
}

/// Clustering local optimality over the whole run: after convergence,
/// every point of the output sits on a nearest centroid of the final
/// centroid set — no reassignment would strictly reduce its squared
/// distance — and its recorded distance names exactly that centroid.
pub proof fn lemma_kmeans_local_optimality(
    coords: Seq<Vec3>,
    init_bars: Seq<Vec3>,
    stop: int,
    fuel: nat,
)
    requires
        1 <= init_bars.len() <= usize::MAX,
        coords_valid(coords),
        bars_valid(init_bars),
    ensures
        match kmeans_spec(coords, init_bars, stop, fuel) {
            Some(out) => consistent(out.0, out.1) && forall|i: int, j: int|
                0 <= i < out.0.len() && 0 <= j < out.1.len() ==> dist_sq_spec(
                    (#[trigger] out.0[i]).coords,
                    out.1[out.0[i].cluster as int],
                ) <= #[trigger] dist_sq_spec(out.0[i].coords, out.1[j]),
            None => true,
        },
{
    lemma_kmeans_spec_wf(coords, init_bars, stop, fuel);
}

/// The smallest element of a non-empty channel sequence (0 for an empty one).
pub open spec fn seq_min(s: Seq<u32>) -> int
    decreases s.len(),
{
    if s.len() == 0 {
        0
    } else if s.len() == 1 {
        s[0] as int
    } else {
        let m = seq_min(s.drop_last());
        if (s.last() as int) < m {
            s.last() as int
        } else {
            m
        }
    }
}

/// The largest element of a non-empty channel sequence (0 for an empty one).
pub open spec fn seq_max(s: Seq<u32>) -> int
    decreases s.len(),
{
    if s.len() == 0 {
        0
    } else if s.len() == 1 {
        s[0] as int
    } else {
        let m = seq_max(s.drop_last());
        if (s.last() as int) > m {
            s.last() as int
        } else {
            m
        }
    }
}

/// The extremes bound every element and are themselves elements.
pub proof fn lemma_seq_min_max_props(s: Seq<u32>)
    requires
        s.len() >= 1,
    ensures
        forall|i: int| 0 <= i < s.len() ==> seq_min(s) <= #[trigger] s[i] as int <= seq_max(s),
        exists|i: int| 0 <= i < s.len() && seq_min(s) == s[i] as int,
        exists|i: int| 0 <= i < s.len() && seq_max(s) == s[i] as int,
    decreases s.len(),
{
    if s.len() == 1 {
        assert(seq_min(s) == s[0] as int && seq_max(s) == s[0] as int);
    } else {
        let d = s.drop_last();
        lemma_seq_min_max_props(d);
        assert forall|i: int| 0 <= i < s.len() implies seq_min(s) <= #[trigger] s[i] as int
            <= seq_max(s) by {
            if i < s.len() - 1 {
                assert(d[i] == s[i]);
            } else {
                assert(s[i] == s.last());
            }
        }
        if (s.last() as int) < seq_min(d) {
            assert(seq_min(s) == s.last() as int && s[s.len() - 1] == s.last());
        } else {
            let j = choose|j: int| 0 <= j < d.len() && seq_min(d) == d[j] as int;
            assert(s[j] == d[j]);
        }
        if (s.last() as int) > seq_max(d) {
            assert(seq_max(s) == s.last() as int && s[s.len() - 1] == s.last());
        } else {
            let j = choose|j: int| 0 <= j < d.len() && seq_max(d) == d[j] as int;
            assert(s[j] == d[j]);
        }
    }
}

/// The exact smallest and largest element of a channel list.
pub fn min_max(elements: &Vec<u32>) -> (r: (u32, u32))
    requires
        elements@.len() >= 1,
    ensures
        r.0 as int == seq_min(elements@),
        r.1 as int == seq_max(elements@),
{
    let mut lo = elements[0];
    let mut hi = elements[0];
    let n = elements.len();
    assert(elements@.take(1) =~= seq![elements@[0]]);
    let mut i: usize = 1;
    while i < n
        invariant
            1 <= i <= n == elements@.len(),
            lo as int == seq_min(elements@.take(i as int)),
            hi as int == seq_max(elements@.take(i as int)),
        decreases n - i,
    {
        assert(elements@.take(i + 1).drop_last() =~= elements@.take(i as int));
        assert(elements@.take(i + 1).last() == elements@[i as int]);
        let e = elements[i];
        if e < lo {
            lo = e;
        }
        if e > hi {
            hi = e;
        }
        i = i + 1;
    }
    assert(elements@.take(n as int) =~= elements@);
    (lo, hi)
}

pub open spec fn chan_xs(coords: Seq<Vec3>) -> Seq<u32> {
    Seq::new(coords.len(), |i: int| coords[i].x)
}

pub open spec fn chan_ys(coords: Seq<Vec3>) -> Seq<u32> {
    Seq::new(coords.len(), |i: int| coords[i].y)
}

pub open spec fn chan_zs(coords: Seq<Vec3>) -> Seq<u32> {
    Seq::new(coords.len(), |i: int| coords[i].z)
}

/// Synthesize `n_clusters` barycenters drawn uniformly from the samples'
/// axis-aligned bounding box. Nothing is promised of the drawn values
/// beyond the box itself: every outcome lies, channel by channel, between
/// the samples' extremes.
pub fn random_barycenters(
    coords: &Vec<Vec3>,
    n_clusters: usize,
    rng: &mut rand::rngs::StdRng,
) -> (r: Vec<Vec3>)
    requires
        coords@.len() >= 1,
        coords_valid(coords@),
    ensures
        r@.len() == n_clusters,
        bars_valid(r@),
        forall|c: int|
            0 <= c < n_clusters ==> seq_min(chan_xs(coords@)) <= #[trigger] r@[c].x as int
                <= seq_max(chan_xs(coords@)),
        forall|c: int|
            0 <= c < n_clusters ==> seq_min(chan_ys(coords@)) <= #[trigger] r@[c].y as int
                <= seq_max(chan_ys(coords@)),
        forall|c: int|
            0 <= c < n_clusters ==> seq_min(chan_zs(coords@)) <= #[trigger] r@[c].z as int
                <= seq_max(chan_zs(coords@)),
{
    let n = coords.len();
    let mut xs: Vec<u32> = Vec::new();
    let mut ys: Vec<u32> = Vec::new();
    let mut zs: Vec<u32> = Vec::new();
    for i in 0..n
        invariant
            n == coords@.len(),
            coords_valid(coords@),
            xs@.len() == i && ys@.len() == i && zs@.len() == i,
            forall|j: int| 0 <= j < i ==> xs@[j] == chan_xs(coords@)[j],
            forall|j: int| 0 <= j < i ==> ys@[j] == chan_ys(coords@)[j],
            forall|j: int| 0 <= j < i ==> zs@[j] == chan_zs(coords@)[j],
    {
        xs.push(coords[i].x);
        ys.push(coords[i].y);
        zs.push(coords[i].z);
    }
    assert(xs@ =~= chan_xs(coords@));
    assert(ys@ =~= chan_ys(coords@));
    assert(zs@ =~= chan_zs(coords@));
    let (min_x, max_x) = min_max(&xs);
    let (min_y, max_y) = min_max(&ys);
    let (min_z, max_z) = min_max(&zs);
    proof {
        lemma_seq_min_max_props(xs@);
        lemma_seq_min_max_props(ys@);
        lemma_seq_min_max_props(zs@);
    }
    let mut r: Vec<Vec3> = Vec::new();
    for c in 0..n_clusters
        invariant
            coords@.len() >= 1,
            min_x as int == seq_min(chan_xs(coords@)),
            max_x as int == seq_max(chan_xs(coords@)),
            min_y as int == seq_min(chan_ys(coords@)),
            max_y as int == seq_max(chan_ys(coords@)),
            min_z as int == seq_min(chan_zs(coords@)),
            max_z as int == seq_max(chan_zs(coords@)),
            min_x <= max_x <= CHAN_MAX,
            min_y <= max_y <= CHAN_MAX,
            min_z <= max_z <= CHAN_MAX,
            r@.len() == c,
            forall|j: int| 0 <= j < c ==> min_x <= #[trigger] r@[j].x <= max_x,
            forall|j: int| 0 <= j < c ==> min_y <= #[trigger] r@[j].y <= max_y,
            forall|j: int| 0 <= j < c ==> min_z <= #[trigger] r@[j].z <= max_z,
            forall|j: int| 0 <= j < c ==> #[trigger] r@[j].valid(),
    {
        let dx = crate::rng::rng_below(rng, (max_x - min_x) as u64 + 1) as u32;
        let dy = crate::rng::rng_below(rng, (max_y - min_y) as u64 + 1) as u32;
        let dz = crate::rng::rng_below(rng, (max_z - min_z) as u64 + 1) as u32;
        r.push(Vec3 { x: min_x + dx, y: min_y + dy, z: min_z + dz });
    }
    r
}

} // verus!
