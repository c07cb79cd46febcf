use markov::gibbs::{
    exp2_neg, pow2_u64, sample_dist, sweep_positions, temperature, CliqueType, FIVE_PCT_FP, MK,
    WONE,
};
use markov::kmeans::{
    assign_to_barycenters, compute_cluster_barycenters, displacement, kmeans, min_max,
    random_barycenters, Point,
};
use markov::vec3::{Vec3, CHAN_MAX};
use markov::{distance_field, process_img, Config, Error};
use rand::rngs::StdRng;
use rand::SeedableRng;

fn white() -> Vec3 {
    Vec3::new(CHAN_MAX, CHAN_MAX, CHAN_MAX)
}

fn black() -> Vec3 {
    Vec3::new(0, 0, 0)
}

#[test]
fn norm_and_dist_sq_are_exact() {
    let v = Vec3::new(3, 4, 12);
    assert_eq!(v.norm(), 9 + 16 + 144);
    let a = Vec3::new(10, 20, 30);
    let b = Vec3::new(13, 16, 30);
    assert_eq!(a.dist_sq(&b), 9 + 16);
    assert_eq!(Vec3::zero().norm(), 0);
}

#[test]
fn min_max_finds_exact_extremes() {
    let v: Vec<u32> = vec![5, 3, 9, 3, 7];
    assert_eq!(min_max(&v), (3, 9));
    let single: Vec<u32> = vec![42];
    assert_eq!(min_max(&single), (42, 42));
}

#[test]
fn random_barycenters_stay_in_bounding_box() {
    let coords = vec![Vec3::new(10, 200, 3000), Vec3::new(90, 100, 1000), Vec3::new(50, 150, 2000)];
    let mut rng = StdRng::seed_from_u64(7);
    let bars = random_barycenters(&coords, 16, &mut rng);
    assert_eq!(bars.len(), 16);
    for b in &bars {
        assert!(10 <= b.x && b.x <= 90);
        assert!(100 <= b.y && b.y <= 200);
        assert!(1000 <= b.z && b.z <= 3000);
    }
}

#[test]
fn assignment_takes_lowest_index_on_ties() {
    let mut points = vec![Point {
        coords: Vec3::new(5, 0, 0),
        cluster: 0,
        distance_to_cluster: u64::MAX,
    }];
    // Both barycenters are at squared distance 25: index order must win.
    let bars = vec![Vec3::new(10, 0, 0), Vec3::new(0, 0, 0)];
    assign_to_barycenters(&mut points, &bars);
    assert_eq!(points[0].cluster, 0);
    assert_eq!(points[0].distance_to_cluster, 25);
}

#[test]
fn assignment_rescans_from_scratch() {
    // A carried record does not pin the point down: the scan starts
    // afresh, and the tie at squared distance 25 goes to the lowest index
    // even though the carried cluster already attains it.
    let mut points = vec![Point {
        coords: Vec3::new(5, 0, 0),
        cluster: 1,
        distance_to_cluster: 25,
    }];
    let bars = vec![Vec3::new(10, 0, 0), Vec3::new(0, 0, 0)];
    assign_to_barycenters(&mut points, &bars);
    assert_eq!(points[0].cluster, 0);
    assert_eq!(points[0].distance_to_cluster, 25);
}

#[test]
fn reassignment_tracks_moving_centroids() {
    // A centroid that drifts away from one of its members loses it to the
    // nearer centroid on the next pass: no stale record can hold a point
    // on a centroid that is no longer nearest.
    let coords = vec![Vec3::new(0, 0, 0), Vec3::new(10, 0, 0), Vec3::new(100, 0, 0)];
    let init = vec![Vec3::new(0, 0, 0), Vec3::new(10, 0, 0)];
    let (points, bars) = kmeans(&coords, &init, 1, 100).unwrap();
    assert_eq!(bars, vec![Vec3::new(5, 0, 0), Vec3::new(100, 0, 0)]);
    let clusters: Vec<usize> = points.iter().map(|p| p.cluster).collect();
    assert_eq!(clusters, vec![0, 0, 1]);
    for p in &points {
        let own = p.coords.dist_sq(&bars[p.cluster]);
        for b in &bars {
            assert!(own <= p.coords.dist_sq(b));
        }
        assert_eq!(own, p.distance_to_cluster);
    }
}

#[test]
fn barycenters_are_floor_means_and_empty_clusters_keep_previous() {
    let points = vec![
        Point { coords: Vec3::new(1, 10, 100), cluster: 0, distance_to_cluster: 0 },
        Point { coords: Vec3::new(2, 11, 101), cluster: 0, distance_to_cluster: 0 },
    ];
    let prev = vec![Vec3::new(7, 7, 7), Vec3::new(9, 9, 9)];
    let bars = compute_cluster_barycenters(&points, &prev);
    // Floor mean of cluster 0; cluster 1 lost all members and keeps (9,9,9).
    assert_eq!(bars[0], Vec3::new(1, 10, 100));
    assert_eq!(bars[1], Vec3::new(9, 9, 9));
}

#[test]
fn displacement_sums_squared_moves() {
    let a = vec![Vec3::new(0, 0, 0), Vec3::new(5, 5, 5)];
    let b = vec![Vec3::new(1, 0, 0), Vec3::new(5, 5, 9)];
    assert_eq!(displacement(&a, &b), 1 + 16);
}

#[test]
fn kmeans_rejects_empty_inputs() {
    let coords = vec![white()];
    let none: Vec<Vec3> = Vec::new();
    assert_eq!(kmeans(&coords, &none, 0, 10).unwrap_err(), Error::InvalidConfiguration);
    let empty: Vec<Vec3> = Vec::new();
    let bars = vec![white()];
    assert_eq!(kmeans(&empty, &bars, 0, 10).unwrap_err(), Error::InvalidConfiguration);
}

#[test]
fn kmeans_reports_convergence_failure_at_zero_iterations() {
    let coords = vec![white(), black()];
    let bars = vec![white(), black()];
    assert_eq!(kmeans(&coords, &bars, 0, 0).unwrap_err(), Error::ConvergenceFailure);
}

#[test]
fn kmeans_converges_on_separated_colors() {
    let coords = vec![white(), white(), black(), black()];
    let init = vec![white(), black()];
    let (points, bars) = kmeans(&coords, &init, 0, 100).unwrap();
    assert_eq!(bars, vec![white(), black()]);
    for (i, p) in points.iter().enumerate() {
        assert_eq!(p.distance_to_cluster, 0);
        assert_eq!(p.cluster, if i < 2 { 0 } else { 1 });
    }
}

#[test]
fn kmeans_local_optimality_after_convergence() {
    let coords = vec![
        Vec3::new(10, 0, 0),
        Vec3::new(20, 0, 0),
        Vec3::new(1000, 0, 0),
        Vec3::new(1010, 0, 0),
    ];
    let init = vec![Vec3::new(0, 0, 0), Vec3::new(900, 0, 0)];
    let (points, bars) = kmeans(&coords, &init, 0, 100).unwrap();
    for p in &points {
        let own = p.coords.dist_sq(&bars[p.cluster]);
        for b in &bars {
            assert!(own <= p.coords.dist_sq(b));
        }
        assert_eq!(own, p.distance_to_cluster);
    }
}

#[test]
fn kmeans_is_deterministic() {
    let coords = vec![
        Vec3::new(10, 0, 0),
        Vec3::new(20, 5, 0),
        Vec3::new(1000, 0, 7),
        Vec3::new(1010, 3, 0),
        Vec3::new(500, 500, 500),
    ];
    let init = vec![Vec3::new(0, 0, 0), Vec3::new(900, 0, 0), Vec3::new(400, 400, 400)];
    let (p1, b1) = kmeans(&coords, &init, 2, 100).unwrap();
    let (p2, b2) = kmeans(&coords, &init, 2, 100).unwrap();
    assert_eq!(b1, b2);
    assert_eq!(p1.len(), p2.len());
    for (a, b) in p1.iter().zip(p2.iter()) {
        assert_eq!(a.cluster, b.cluster);
        assert_eq!(a.distance_to_cluster, b.distance_to_cluster);
        assert_eq!(a.coords, b.coords);
    }
}

#[test]
fn kmeans_fixed_point_on_own_output() {
    let coords = vec![white(), white(), black(), black()];
    let init = vec![white(), black()];
    let (_, bars) = kmeans(&coords, &init, 0, 100).unwrap();
    // Re-run from the converged output centroids: they must not move at all.
    let (_, bars2) = kmeans(&coords, &bars, 0, 100).unwrap();
    assert_eq!(bars, bars2);
}

#[test]
fn distance_field_matches_formula_exactly() {
    let coords = vec![Vec3::new(1, 2, 3), Vec3::new(4, 6, 8)];
    let bars = vec![Vec3::new(1, 2, 3), Vec3::new(0, 0, 0)];
    let field = distance_field(&coords, &bars);
    assert_eq!(field.len(), 2);
    for (p, row) in field.iter().enumerate() {
        assert_eq!(row.len(), 2);
        for (c, entry) in row.iter().enumerate() {
            assert_eq!(*entry, coords[p].dist_sq(&bars[c]));
        }
    }
    assert_eq!(field[0][0], 0);
    assert_eq!(field[0][1], 1 + 4 + 9);
}

#[test]
fn pow2_and_exp2_exact_values() {
    assert_eq!(pow2_u64(0), 1);
    assert_eq!(pow2_u64(32), WONE);
    assert_eq!(exp2_neg(0), WONE);
    // One whole octave halves the weight.
    assert_eq!(exp2_neg(0x1_0000), WONE / 2);
    // Half an octave interpolates linearly between 1 and 1/2.
    assert_eq!(exp2_neg(0x8000), WONE - WONE / 4);
    // The last octave before the cutoff bottoms out at weight 1 ...
    assert_eq!(exp2_neg(32 * 0x1_0000), 1);
    assert_eq!(exp2_neg(33 * 0x1_0000 - 1), 1);
    // ... and beyond the cutoff the weight underflows to zero.
    assert_eq!(exp2_neg(33 * 0x1_0000), 0);
    assert_eq!(exp2_neg(u64::MAX), 0);
}

#[test]
fn sample_dist_picks_first_cumulative_exceeding_draw() {
    let ws = vec![10u64, 0, 5, 85];
    assert_eq!(sample_dist(&ws, 0), 0);
    assert_eq!(sample_dist(&ws, 9), 0);
    assert_eq!(sample_dist(&ws, 10), 2);
    assert_eq!(sample_dist(&ws, 14), 2);
    assert_eq!(sample_dist(&ws, 15), 3);
    assert_eq!(sample_dist(&ws, 99), 3);
}

#[test]
fn sample_dist_falls_back_to_last_class() {
    // Rounded-away weights can never push the result out of range: the
    // draw deterministically falls back to the last index.
    let ws = vec![0u64, 0, 0];
    assert_eq!(sample_dist(&ws, 123), 2);
    let ws2 = vec![7u64];
    assert_eq!(sample_dist(&ws2, u64::MAX), 0);
}

#[test]
fn sweep_covers_every_pixel_exactly_once() {
    for &(w, h) in &[(1usize, 1usize), (3, 5), (4, 4), (2, 7), (5, 1)] {
        let positions = sweep_positions(w, h);
        assert_eq!(positions.len(), w * h);
        let mut seen = vec![false; w * h];
        for &(x, y) in &positions {
            assert!(x < w && y < h);
            assert!(!seen[y * w + x], "pixel visited twice");
            seen[y * w + x] = true;
        }
        assert!(seen.iter().all(|&s| s));
    }
}

#[test]
fn sweep_walks_sublattices_in_fixed_order() {
    let positions = sweep_positions(3, 3);
    let parities: Vec<(usize, usize)> = positions.iter().map(|&(x, y)| (x % 2, y % 2)).collect();
    let expected = vec![
        (0, 0),
        (0, 0),
        (0, 0),
        (0, 0),
        (1, 1),
        (0, 1),
        (0, 1),
        (1, 0),
        (1, 0),
    ];
    assert_eq!(parities, expected);
    // Row-major inside the first sub-lattice.
    assert_eq!(&positions[0..4], &[(0, 0), (2, 0), (0, 2), (2, 2)]);
}

#[test]
fn temperature_matches_schedule_and_decreases() {
    let t_init: u64 = 1 << 25;
    // k = 0 gives the full factor: t_init * (1 - 0.05) on the fixed grid.
    let t0 = temperature(t_init, 0, 10);
    let expected0 = ((t_init as u128) * ((WONE - FIVE_PCT_FP) as u128) / (WONE as u128)) as u64;
    assert_eq!(t0, expected0);
    let mut prev = t0;
    for k in 1..10 {
        let t = temperature(t_init, k, 10);
        assert!(t >= 1, "temperature must stay strictly positive");
        assert!(t < prev, "schedule must strictly decrease");
        prev = t;
    }
    // A tiny initial temperature is clamped, never zero or negative.
    assert_eq!(temperature(1, 9, 10), 1);
}

fn uniform_field(width: usize, height: usize, labels: Vec<usize>, dist: Vec<Vec<u64>>) -> MK {
    MK { width, height, num_classes: dist[0].len(), dist, x: labels }
}

#[test]
fn energy_counts_disagreeing_neighbors() {
    // 2x2 grid, labels: [0, 1, 1, 1], two classes, flat unary cost 5.
    let dist = vec![vec![5u64, 5]; 4];
    let mk = uniform_field(2, 2, vec![0, 1, 1, 1], dist);
    assert_eq!(mk.pos(1, 1), 3);
    assert_eq!(mk.get(0, 0), 0);
    assert_eq!(mk.get(1, 0), 1);
    // Proposing class 0 at (0,0): neighbors (1,0)=1 and (0,1)=1 disagree.
    assert_eq!(mk.energy(0, 0, 0, CliqueType::Conn4, 10), 5 + 2 * 10);
    // Proposing class 1 at (0,0): both neighbors agree.
    assert_eq!(mk.energy(0, 0, 1, CliqueType::Conn4, 10), 5);
    // Conn8 adds the diagonal (1,1)=1.
    assert_eq!(mk.energy(0, 0, 0, CliqueType::Conn8, 10), 5 + 3 * 10);
    // beta = 0 leaves the unary cost alone.
    assert_eq!(mk.energy(0, 0, 0, CliqueType::Conn4, 0), 5);
}

#[test]
fn gibbs_step_is_categorical_on_weights() {
    // Equal energies weigh both classes at exactly WONE, so the draw alone
    // decides: the first WONE draws land on class 0, the next on class 1.
    let dist = vec![vec![5u64, 5]];
    let mut mk = uniform_field(1, 1, vec![0], dist);
    mk.gibbs_step(0, 0, 1000, CliqueType::Conn4, 0, WONE - 1);
    assert_eq!(mk.x, vec![0]);
    mk.gibbs_step(0, 0, 1000, CliqueType::Conn4, 0, WONE);
    assert_eq!(mk.x, vec![1]);
}

#[test]
fn annealing_zero_iterations_returns_initial_grid() {
    let dist = vec![vec![5u64, 7]; 4];
    let mk = uniform_field(2, 2, vec![1, 0, 1, 0], dist);
    let mut rng = StdRng::seed_from_u64(3);
    let out = mk.simulated_annealing(0, CliqueType::Conn4, 1, 1000, &mut rng);
    assert_eq!(out, vec![1, 0, 1, 0]);
}

#[test]
fn pure_unary_limit_at_low_temperature() {
    // With beta = 0 and unary gaps far above 33 * t, every pixel must land
    // on its unary argmin, whatever the random draws.
    let dist = vec![
        vec![0u64, 1 << 40],
        vec![1 << 40, 0],
        vec![0, 1 << 40],
        vec![1 << 40, 0],
        vec![0, 1 << 40],
        vec![1 << 40, 0],
    ];
    for seed in 0..5u64 {
        let mk = uniform_field(3, 2, vec![1, 0, 1, 0, 1, 0], dist.clone());
        let mut rng = StdRng::seed_from_u64(seed);
        let out = mk.simulated_annealing(3, CliqueType::Conn4, 0, 1 << 20, &mut rng);
        assert_eq!(out, vec![0, 1, 0, 1, 0, 1]);
    }
}

#[test]
fn regularization_flips_outlier_at_high_beta() {
    // A single outlier in a uniform region: with a dominating beta the
    // pairwise term overrides its unary preference, and the outlier joins
    // its surroundings.
    let mut dist = vec![vec![0u64, 1000]; 9];
    dist[4] = vec![1000, 0]; // center pixel prefers class 1
    let labels = vec![0, 0, 0, 0, 1, 0, 0, 0, 0];
    let mk = uniform_field(3, 3, labels, dist);
    let mut rng = StdRng::seed_from_u64(11);
    let beta: u64 = 1 << 40;
    let out = mk.simulated_annealing(4, CliqueType::Conn8, beta, 1 << 20, &mut rng);
    assert_eq!(out, vec![0; 9]);
}

#[test]
fn process_img_rejects_invalid_configurations() {
    let pixels = vec![white(), white(), black(), black()];
    let base = Config {
        num_classes: 2,
        clique_type: CliqueType::Conn4,
        beta: 0,
        initial_temperature: 1 << 20,
        iteration_count: 2,
        cluster_stop_threshold: 1,
        max_cluster_iterations: 50,
        initial_barycenters: Some(vec![white(), black()]),
    };
    let mut rng = StdRng::seed_from_u64(1);
    let cases: Vec<Config> = vec![
        Config { num_classes: 0, initial_barycenters: None, ..clone_config(&base) },
        Config { initial_temperature: 0, ..clone_config(&base) },
        Config { cluster_stop_threshold: 0, ..clone_config(&base) },
        Config { initial_barycenters: Some(vec![white()]), ..clone_config(&base) },
    ];
    for cfg in &cases {
        assert_eq!(
            process_img(&pixels, 2, 2, cfg, &mut rng).unwrap_err(),
            Error::InvalidConfiguration
        );
    }
    // Mismatched dimensions.
    assert_eq!(
        process_img(&pixels, 3, 2, &base, &mut rng).unwrap_err(),
        Error::InvalidConfiguration
    );
    // Zero-size grid.
    let no_pixels: Vec<Vec3> = Vec::new();
    assert_eq!(
        process_img(&no_pixels, 0, 0, &base, &mut rng).unwrap_err(),
        Error::InvalidConfiguration
    );
}

fn clone_config(c: &Config) -> Config {
    Config {
        num_classes: c.num_classes,
        clique_type: c.clique_type,
        beta: c.beta,
        initial_temperature: c.initial_temperature,
        iteration_count: c.iteration_count,
        cluster_stop_threshold: c.cluster_stop_threshold,
        max_cluster_iterations: c.max_cluster_iterations,
        initial_barycenters: c.initial_barycenters.as_ref().map(|b| b.clone()),
    }
}

#[test]
fn process_img_reports_convergence_failure() {
    let pixels = vec![white(), white(), black(), black()];
    let cfg = Config {
        num_classes: 2,
        clique_type: CliqueType::Conn4,
        beta: 0,
        initial_temperature: 1 << 20,
        iteration_count: 1,
        cluster_stop_threshold: 1,
        max_cluster_iterations: 0,
        initial_barycenters: Some(vec![white(), black()]),
    };
    let mut rng = StdRng::seed_from_u64(1);
    assert_eq!(
        process_img(&pixels, 2, 2, &cfg, &mut rng).unwrap_err(),
        Error::ConvergenceFailure
    );
}

#[test]
fn end_to_end_two_by_two_black_and_white() {
    // A 2x2 image of two whites over two blacks with K = 2: clustering
    // converges to exactly {white, black} with every pixel at distance 0,
    // and the annealing stage leaves the labeling unchanged for any beta,
    // since the unary term already achieves zero cost at the right label.
    let pixels = vec![white(), white(), black(), black()];
    for &beta in &[0u64, 1, 1 << 20, 1 << 40] {
        for seed in 0..3u64 {
            let cfg = Config {
                num_classes: 2,
                clique_type: CliqueType::Conn8,
                beta,
                initial_temperature: 1 << 20,
                iteration_count: 5,
                cluster_stop_threshold: 1,
                max_cluster_iterations: 100,
                initial_barycenters: Some(vec![white(), black()]),
            };
            let mut rng = StdRng::seed_from_u64(seed);
            let (labels, bars) = process_img(&pixels, 2, 2, &cfg, &mut rng).unwrap();
            assert_eq!(bars, vec![white(), black()]);
            assert_eq!(labels, vec![0, 0, 1, 1]);
        }
    }
}

#[test]
fn process_img_with_random_centroids_yields_valid_labels() {
    let pixels = vec![
        white(),
        white(),
        black(),
        black(),
        Vec3::new(CHAN_MAX / 2, CHAN_MAX / 2, CHAN_MAX / 2),
        black(),
    ];
    let cfg = Config {
        num_classes: 3,
        clique_type: CliqueType::Conn4,
        beta: 100,
        initial_temperature: 1 << 20,
        iteration_count: 3,
        cluster_stop_threshold: 1,
        max_cluster_iterations: 1000,
        initial_barycenters: None,
    };
    let mut rng = StdRng::seed_from_u64(99);
    let (labels, bars) = process_img(&pixels, 3, 2, &cfg, &mut rng).unwrap();
    assert_eq!(labels.len(), 6);
    assert_eq!(bars.len(), 3);
    assert!(labels.iter().all(|&l| l < 3));
}
