//! Spatially coherent color quantization.
//!
//! The crate reduces an image to a small palette in two stages: iterative
//! centroid refinement groups the pixel colors into `K` clusters, and a
//! Gibbs-sampled simulated-annealing pass relabels every pixel, trading
//! color fidelity against agreement with its neighbors.
//!
//! All color arithmetic is carried out on exact integer channels, so every
//! stage has a precise contract: distances are squared Euclidean norms and
//! the Boltzmann weights of the sampler are fixed-point powers of two.

pub mod gibbs;
pub mod kmeans;
pub mod rng;
pub mod vec3;

use vstd::prelude::*;

verus! {

/// The failures the engines surface. Numeric degeneracies (an emptied
/// cluster, a vanishing temperature, a rounded-away cumulative weight) are
/// resolved by fixed deterministic policies instead and never error out.
#[derive(Clone, Copy, Debug, PartialEq, Eq, Structural)]
pub enum Error {
    /// Rejected before any computation: no classes, no samples, an empty
    /// grid, a zero temperature or a zero convergence threshold.
    InvalidConfiguration,
    /// Clustering failed to meet its stop threshold within the iteration cap.
    ConvergenceFailure,
}

/// Build the unary cost table of the labeling stage: row `p` holds, for
/// every centroid `c`, exactly the squared Euclidean distance between
/// pixel `p`'s color and centroid `c` — no tolerance, the direct formula.
pub fn distance_field(coords: &Vec<vec3::Vec3>, barycenters: &Vec<vec3::Vec3>) -> (r: Vec<
    Vec<u64>,
>)
    requires
        kmeans::coords_valid(coords@),
        kmeans::bars_valid(barycenters@),
    ensures
        r@.len() == coords@.len(),
        forall|p: int| 0 <= p < r@.len() ==> (#[trigger] r@[p])@.len() == barycenters@.len(),
        forall|p: int, c: int|
            0 <= p < coords@.len() && 0 <= c < barycenters@.len() ==> (#[trigger] r@[p]@[c]) as int
                == vec3::dist_sq_spec(coords@[p], barycenters@[c]),
        forall|p: int, c: int|
            0 <= p < coords@.len() && 0 <= c < barycenters@.len() ==> (#[trigger] r@[p]@[c])
                <= vec3::DIST_SQ_MAX,
{
    let n = coords.len();
    let k = barycenters.len();
    let mut r: Vec<Vec<u64>> = Vec::new();
    for p in 0..n
        invariant
            n == coords@.len(),
            k == barycenters@.len(),
            kmeans::coords_valid(coords@),
            kmeans::bars_valid(barycenters@),
            r@.len() == p,
            forall|j: int| 0 <= j < p ==> (#[trigger] r@[j])@.len() == k,
            forall|j: int, c: int|
                0 <= j < p && 0 <= c < k ==> (#[trigger] r@[j]@[c]) as int == vec3::dist_sq_spec(
                    coords@[j],
                    barycenters@[c],
                ) && r@[j]@[c] <= vec3::DIST_SQ_MAX,
    {
        let mut row: Vec<u64> = Vec::new();
        for c in 0..k
            invariant
                n == coords@.len(),
                k == barycenters@.len(),
                p < n,
                kmeans::coords_valid(coords@),
                kmeans::bars_valid(barycenters@),
                row@.len() == c,
                forall|cc: int|
                    0 <= cc < c ==> (#[trigger] row@[cc]) as int == vec3::dist_sq_spec(
                        coords@[p as int],
                        barycenters@[cc],
                    ) && row@[cc] <= vec3::DIST_SQ_MAX,
        {
            row.push(coords[p].dist_sq(&barycenters[c]));
        }
        r.push(row);
    }
    r
}

/// The configuration of a whole run, validated before any computation.
pub struct Config {
    /// `K`: how many classes (clusters) to reduce the image to.
    pub num_classes: usize,
    /// The neighborhood shape of the pairwise energy term.
    pub clique_type: gibbs::CliqueType,
    /// The penalty per disagreeing neighbor.
    pub beta: u64,
    /// The annealing schedule's starting temperature.
    pub initial_temperature: u64,
    /// How many full annealing sweeps to run.
    pub iteration_count: usize,
    /// The clustering loop's convergence bound on summed squared centroid
    /// displacement.
    pub cluster_stop_threshold: u64,
    /// The cap on clustering iterations; exceeding it is a
    /// `ConvergenceFailure`.
    pub max_cluster_iterations: usize,
    /// Explicit initial centroids; when absent, `num_classes` centroids
    /// are drawn from the samples' bounding box.
    pub initial_barycenters: Option<Vec<vec3::Vec3>>,
}

/// A configuration is rejected when it names no classes, describes an
/// empty grid, does not match its pixel array, carries a zero temperature
/// or threshold, or hands over the wrong number of explicit centroids.
pub open spec fn config_invalid(config: Config, width: int, height: int, n_pixels: int) -> bool {
    ||| config.num_classes == 0
    ||| width == 0
    ||| height == 0
    ||| n_pixels != width * height
    ||| config.initial_temperature == 0
    ||| config.cluster_stop_threshold == 0
    ||| match config.initial_barycenters {
        Some(b) => b@.len() != config.num_classes,
        None => false,
    }
}

/// The whole pipeline: cluster the pixel colors, build the distance
/// field, and relabel the grid by simulated annealing. Returns the final
/// label grid and the centroid set; every label names a centroid.
pub fn process_img(
    pixels: &Vec<vec3::Vec3>,
    width: usize,
    height: usize,
    config: &Config,
    rng: &mut rand::rngs::StdRng,
) -> (r: Result<(Vec<usize>, Vec<vec3::Vec3>), Error>)
    requires
        width * height <= gibbs::GRID_MAX,
        config.num_classes <= kmeans::K_MAX,
        config.beta <= gibbs::BETA_MAX,
        config.initial_temperature <= gibbs::T_INIT_MAX,
        config.iteration_count as u64 <= gibbs::ITER_MAX,
        kmeans::coords_valid(pixels@),
        match config.initial_barycenters {
            Some(b) => kmeans::bars_valid(b@),
            None => true,
        },
    ensures
        ({
            let invalid = config_invalid(*config, width as int, height as int, pixels@.len() as int);
            &&& ((r matches Err(e) && e == Error::InvalidConfiguration) <==> invalid)
            &&& match r {
                Ok(out) => out.0@.len() == width * height && out.1@.len() == config.num_classes
                    && (forall|p: int|
                    0 <= p < out.0@.len() ==> (#[trigger] out.0@[p]) < config.num_classes),
                Err(_) => true,
            }
            &&& (!invalid && (config.initial_barycenters matches Some(b)) ==> {
                let b = config.initial_barycenters->Some_0;
                match kmeans::kmeans_spec(
                    pixels@,
                    b@,
                    config.cluster_stop_threshold as int,
                    config.max_cluster_iterations as nat,
                ) {
                    Some(sp) => r matches Ok(out) && out.1@ == sp.1,
                    None => r matches Err(e) && e == Error::ConvergenceFailure,
                }
            })
        }),
{
    let k = config.num_classes;
    let n = pixels.len();
    let mut bad = k == 0 || width == 0 || height == 0 || config.initial_temperature == 0
        || config.cluster_stop_threshold == 0;
    if n != width * height {
        bad = true;
    }
    match &config.initial_barycenters {
        Some(b) => {
            if b.len() != k {
                bad = true;
            }
        },
        None => {},
    }
    if bad {
        return Err(Error::InvalidConfiguration);
    }
    let mut bars0: Vec<vec3::Vec3> = Vec::new();
    match &config.initial_barycenters {
        Some(b) => {
            let m = b.len();
            for i in 0..m
                invariant
                    m == b@.len(),
                    kmeans::bars_valid(b@),
                    bars0@.len() == i,
                    forall|j: int| 0 <= j < i ==> bars0@[j] == b@[j],
            {
                bars0.push(b[i]);
            }
            assert(bars0@ =~= b@);
        },
        None => {
            proof {
                assert(width * 1 <= width * height) by (nonlinear_arith)
                    requires height >= 1 && width >= 0;
            }
            bars0 = kmeans::random_barycenters(pixels, k, rng);
        },
    }
    proof {
        assert(width * height >= 1) by (nonlinear_arith)
            requires width >= 1 && height >= 1;
    }
    let clustered = kmeans::kmeans(
        pixels,
        &bars0,
        config.cluster_stop_threshold,
        config.max_cluster_iterations,
    );
    let (points, barycenters) = match clustered {
        Ok(out) => out,
        Err(e) => {
            assert(e == Error::ConvergenceFailure);
            return Err(e);
        },
    };
    proof {
        kmeans::lemma_kmeans_spec_wf(
            pixels@,
            bars0@,
            config.cluster_stop_threshold as int,
            config.max_cluster_iterations as nat,
        );
    }
    let dist = distance_field(pixels, &barycenters);
    let mut labels0: Vec<usize> = Vec::new();
    for i in 0..n
        invariant
            n == points@.len(),
            labels0@.len() == i,
            forall|j: int| 0 <= j < i ==> (#[trigger] labels0@[j]) == points@[j].cluster,
            forall|j: int| 0 <= j < points@.len() ==> (#[trigger] points@[j]).cluster < k,
            k == config.num_classes,
    {
        labels0.push(points[i].cluster);
    }
    let mk = gibbs::MK { width, height, num_classes: k, dist, x: labels0 };
    assert(mk.wf());
    let out = mk.simulated_annealing(
        config.iteration_count,
        config.clique_type,
        config.beta,
        config.initial_temperature,
        rng,
    );
    Ok((out, barycenters))
}

} // verus!
