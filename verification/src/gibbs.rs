//! The MRF labeling engine: Gibbs sampling under simulated annealing.
//!
//! A label grid is resampled pixel by pixel. Proposing class `c` at a pixel
//! costs its unary term (the distance-field entry) plus `beta` for every
//! in-bounds neighbor carrying a different label; a class is then drawn
//! from the Boltzmann distribution of those energies at the current
//! temperature. Sweeps walk the four checkerboard sub-lattices in a fixed
//! order and update the grid in place, so later pixels of a sweep observe
//! labels already rewritten earlier in the same sweep.
//!
//! All weights are exact fixed-point powers of two: the Boltzmann factor of
//! an energy gap `g` at temperature `t` is `2^(-g/t)` scaled by `WONE`,
//! which anneals exactly like the classical `e^(-g/t)` (it is the same
//! schedule at a temperature rescaled by `ln 2`) while every intermediate
//! value stays an integer with a provable contract.

use vstd::prelude::*;
use vstd::arithmetic::power2::pow2;
use crate::kmeans::K_MAX;
use crate::vec3::DIST_SQ_MAX;

verus! {

/// The closed choice of neighborhood shapes for the pairwise energy term.
#[derive(Clone, Copy, Debug, PartialEq, Eq, Structural)]
pub enum CliqueType {
    Conn4,
    Conn8,
}

/// Largest accepted pixel count of a grid.
pub const GRID_MAX: u64 = 0x4000_0000;

/// Largest accepted pairwise penalty weight; keeps energies inside `u64`.
pub const BETA_MAX: u64 = 0x100_0000_0000;

/// Largest energy a well-formed grid can produce:
/// `DIST_SQ_MAX + 8 * BETA_MAX`.
pub const ENERGY_MAX: u64 = 0xB00_0000_0000;

/// One in fixed-point exponents: 2^16.
pub const FPONE: u64 = 0x1_0000;

/// The Boltzmann weight of a zero energy gap: 2^32.
pub const WONE: u64 = 0x1_0000_0000;

/// Exponents of `EXP_CUTOFF` whole octaves or more underflow to weight 0.
pub const EXP_CUTOFF: u64 = 33;

/// The fixed neighbor offsets of each clique shape.
pub open spec fn neighbor_offsets(ct: CliqueType) -> Seq<(i64, i64)> {
    match ct {
        CliqueType::Conn4 => seq![(-1i64, 0i64), (1i64, 0i64), (0i64, -1i64), (0i64, 1i64)],
        CliqueType::Conn8 => seq![
            (-1i64, -1i64),
            (0i64, -1i64),
            (1i64, -1i64),
            (-1i64, 0i64),
            (1i64, 0i64),
            (-1i64, 1i64),
            (0i64, 1i64),
            (1i64, 1i64),
        ],
    }
}

/// How many of the first `n` offsets land in bounds on a neighbor whose
/// label disagrees with class `c`.
pub open spec fn disagree_upto(
    labels: Seq<usize>,
    w: int,
    h: int,
    x: int,
    y: int,
    c: int,
    offs: Seq<(i64, i64)>,
    n: int,
) -> int
    decreases n,
{
    if n <= 0 {
        0
    } else {
        let nx = x + offs[n - 1].0 as int;
        let ny = y + offs[n - 1].1 as int;
        disagree_upto(labels, w, h, x, y, c, offs, n - 1) + if 0 <= nx < w && 0 <= ny < h
            && labels[ny * w + nx] as int != c {
            1int
        } else {
            0int
        }
    }
}

/// The pairwise term of proposing class `c` at `(x, y)`: the number of
/// in-bounds neighbors whose current label differs from `c`. Border pixels
/// simply have fewer neighbors.
pub open spec fn disagreements(
    labels: Seq<usize>,
    w: int,
    h: int,
    x: int,
    y: int,
    c: int,
    ct: CliqueType,
) -> int {
    disagree_upto(labels, w, h, x, y, c, neighbor_offsets(ct), neighbor_offsets(ct).len() as int)
}

/// The energy of proposing class `c` at `(x, y)` over an explicit unary
/// table and labeling.
pub open spec fn energy_at(
    dist: Seq<Vec<u64>>,
    labels: Seq<usize>,
    w: int,
    h: int,
    x: int,
    y: int,
    c: int,
    ct: CliqueType,
    beta: int,
) -> int {
    dist[y * w + x]@[c] as int + beta * disagreements(labels, w, h, x, y, c, ct)
}

pub proof fn lemma_disagree_upto_bounds(
    labels: Seq<usize>,
    w: int,
    h: int,
    x: int,
    y: int,
    c: int,
    offs: Seq<(i64, i64)>,
    n: int,
)
    requires
        0 <= n,
    ensures
        0 <= disagree_upto(labels, w, h, x, y, c, offs, n) <= n,
    decreases n,
{
    if n > 0 {
        lemma_disagree_upto_bounds(labels, w, h, x, y, c, offs, n - 1);
    }
}

/// The neighbor offsets of `ct` as a vector, exactly the spec's list.
pub fn offsets(ct: CliqueType) -> (r: Vec<(i64, i64)>)
    ensures
        r@ == neighbor_offsets(ct),
        r@.len() <= 8,
        forall|i: int| 0 <= i < r@.len() ==> -1 <= (#[trigger] r@[i]).0 <= 1 && -1 <= r@[i].1 <= 1,
{
    let mut r: Vec<(i64, i64)> = Vec::new();
    match ct {
        CliqueType::Conn4 => {
            r.push((-1, 0));
            r.push((1, 0));
            r.push((0, -1));
            r.push((0, 1));
        },
        CliqueType::Conn8 => {
            r.push((-1, -1));
            r.push((0, -1));
            r.push((1, -1));
            r.push((-1, 0));
            r.push((1, 0));
            r.push((-1, 1));
            r.push((0, 1));
            r.push((1, 1));
        },
    }
    assert(r@ =~= neighbor_offsets(ct));
    r
}

/// The Markov random field: grid dimensions, the unary cost table (one row
/// of `num_classes` squared distances per pixel) and the label grid itself,
/// rewritten in place by each sweep.
#[derive(Debug)]
pub struct MK {
    pub width: usize,
    pub height: usize,
    pub num_classes: usize,
    pub dist: Vec<Vec<u64>>,
    pub x: Vec<usize>,
}

impl MK {
    pub open spec fn grid_len(self) -> int {
        self.width * self.height
    }

    /// Well-formedness: positive dimensions within the size caps, a full
    /// unary table of bounded entries, and a full label grid of in-range
    /// classes.
    pub open spec fn wf(self) -> bool {
        &&& 1 <= self.width
        &&& 1 <= self.height
        &&& self.width * self.height <= GRID_MAX
        &&& 1 <= self.num_classes <= K_MAX
        &&& self.dist@.len() == self.grid_len()
        &&& forall|p: int|
            0 <= p < self.grid_len() ==> (#[trigger] self.dist@[p])@.len() == self.num_classes
        &&& forall|p: int, c: int|
            0 <= p < self.grid_len() && 0 <= c < self.num_classes ==> (
            #[trigger] self.dist@[p]@[c]) <= DIST_SQ_MAX
        &&& self.x@.len() == self.grid_len()
        &&& forall|p: int| 0 <= p < self.grid_len() ==> (#[trigger] self.x@[p]) < self.num_classes
    }

    /// Row-major position of `(x, y)`.
    pub fn pos(&self, x: usize, y: usize) -> (p: usize)
        requires
            self.wf(),
            x < self.width,
            y < self.height,
        ensures
            p == y * self.width + x,
            p < self.grid_len(),
    {
        proof {
            assert(y * self.width + x < self.width * self.height && self.width * y == y
                * self.width && self.width * y <= self.width * self.height) by (nonlinear_arith)
                requires x < self.width && y < self.height;
        }
        self.width * y + x
    }

    /// Each dimension is bounded by the whole grid's pixel cap.
    pub proof fn lemma_dims_bounded(self)
        requires
            self.wf(),
        ensures
            self.width <= GRID_MAX,
            self.height <= GRID_MAX,
    {
        assert(self.width <= self.width * self.height && self.height <= self.width * self.height)
            by (nonlinear_arith)
            requires self.width >= 1 && self.height >= 1;
    }

    /// The current label at `(x, y)`.
    pub fn get(&self, x: usize, y: usize) -> (l: usize)
        requires
            self.wf(),
            x < self.width,
            y < self.height,
        ensures
            l == self.x@[y * self.width + x],
            l < self.num_classes,
    {
        let p = self.pos(x, y);
        self.x[p]
    }

    /// The energy of proposing class `c` at `(x, y)` under the current
    /// labeling: the unary cost plus `beta` per disagreeing neighbor.
    pub open spec fn energy_spec(self, x: int, y: int, c: int, ct: CliqueType, beta: int) -> int {
        energy_at(
            self.dist@,
            self.x@,
            self.width as int,
            self.height as int,
            x,
            y,
            c,
            ct,
            beta,
        )
    }

    /// Computes `energy_spec` exactly; the result never exceeds
    /// `ENERGY_MAX`.
    pub fn energy(&self, x: usize, y: usize, c: usize, clique_type: CliqueType, beta: u64) -> (r:
        u64)
        requires
            self.wf(),
            x < self.width,
            y < self.height,
            c < self.num_classes,
            beta <= BETA_MAX,
        ensures
            r as int == self.energy_spec(x as int, y as int, c as int, clique_type, beta as int),
            r <= ENERGY_MAX,
    {
        let ghost w = self.width as int;
        let ghost h = self.height as int;
        proof {
            self.lemma_dims_bounded();
        }
        let offs = offsets(clique_type);
        let m = offs.len();
        let mut err: u64 = 0;
        for i in 0..m
            invariant
                self.wf(),
                x < self.width,
                y < self.height,
                w == self.width as int,
                h == self.height as int,
                offs@ == neighbor_offsets(clique_type),
                m == offs@.len() <= 8,
                self.width <= GRID_MAX,
                self.height <= GRID_MAX,
                forall|j: int|
                    0 <= j < m ==> -1 <= (#[trigger] offs@[j]).0 <= 1 && -1 <= offs@[j].1 <= 1,
                err as int == disagree_upto(
                    self.x@,
                    w,
                    h,
                    x as int,
                    y as int,
                    c as int,
                    offs@,
                    i as int,
                ),
                err <= i,
        {
            let (dx, dy) = offs[i];
            let nx = x as i64 + dx;
            let ny = y as i64 + dy;
            if nx >= 0 && ny >= 0 && nx < self.width as i64 && ny < self.height as i64 {
                proof {
                    assert((ny as int) * w + (nx as int) < w * h) by (nonlinear_arith)
                        requires 0 <= (nx as int) && (nx as int) < w && 0 <= (ny as int) && (ny as int) < h;
                    assert((ny as int) * w + (nx as int) >= 0) by (nonlinear_arith)
                        requires 0 <= (nx as int) && 0 <= (ny as int) && w >= 1;
                }
                let idx = (ny as usize) * self.width + (nx as usize);
                if self.x[idx] != c {
                    err = err + 1;
                }
            }
        }
        let p = self.pos(x, y);
        let unary = self.dist[p][c];
        proof {
            assert(beta * err <= BETA_MAX * 8) by (nonlinear_arith)
                requires 0 <= beta <= BETA_MAX && 0 <= err <= 8;
            assert(beta * (err as int) >= 0) by (nonlinear_arith)
                requires beta >= 0 && err >= 0;
        }
        unary + beta * err
    }
}

/// `2^e` for `e <= 32`.
pub fn pow2_u64(e: u64) -> (r: u64)
    requires
        e <= 32,
    ensures
        r as int == pow2(e as nat),
{
    let mut r: u64 = 1;
    let mut i: u64 = 0;
    proof {
        vstd::arithmetic::power2::lemma2_to64();
    }
    while i < e
        invariant
            i <= e <= 32,
            r as int == pow2(i as nat),
            r <= 0x1_0000_0000,
        decreases e - i,
    {
        proof {
            vstd::arithmetic::power2::lemma_pow2_unfold((i + 1) as nat);
            vstd::arithmetic::power2::lemma_pow2_pos(i as nat);
            vstd::arithmetic::power2::lemma_pow2_adds(i as nat, (32 - i) as nat);
            vstd::arithmetic::power2::lemma_pow2_pos((32 - i) as nat);
            assert(pow2(i as nat) * pow2((32 - i) as nat) == pow2(32));
            vstd::arithmetic::power2::lemma2_to64();
            assert(pow2(i as nat) <= pow2(32) / 2) by {
                assert(pow2((32 - i) as nat) >= 2) by {
                    vstd::arithmetic::power2::lemma_pow2_strictly_increases(
                        0,
                        (32 - i) as nat,
                    );
                }
                assert(pow2(i as nat) * 2 <= pow2(i as nat) * pow2((32 - i) as nat))
                    by (nonlinear_arith)
                    requires pow2(i as nat) >= 1 && pow2((32 - i) as nat) >= 2;
            }
        }
        r = r * 2;
        i = i + 1;
    }
    r
}

/// The fixed-point weight `2^(-q / FPONE)` scaled by `WONE`: the whole
/// octaves shift the base down, and the fractional part interpolates
/// linearly between consecutive powers of two. Exponents of 33 octaves or
/// more underflow to zero.
pub open spec fn exp2_neg_spec(q: int) -> int {
    let s = q / (FPONE as int);
    let f = q % (FPONE as int);
    if s >= EXP_CUTOFF as int {
        0
    } else {
        let base = pow2((32 - s) as nat) as int;
        base - (base / 2) * f / (FPONE as int)
    }
}

/// Computes `exp2_neg_spec` exactly.
pub fn exp2_neg(q: u64) -> (r: u64)
    ensures
        r as int == exp2_neg_spec(q as int),
        r <= WONE,
{
    let s = q / FPONE;
    let f = q % FPONE;
    if s >= EXP_CUTOFF {
        0
    } else {
        let base = pow2_u64(32 - s);
        proof {
            vstd::arithmetic::power2::lemma_pow2_pos((32 - s) as nat);
            vstd::arithmetic::power2::lemma2_to64();
            assert(pow2((32 - s as nat) as nat) <= pow2(32)) by {
                if (32 - s as nat) < 32 {
                    vstd::arithmetic::power2::lemma_pow2_strictly_increases(
                        (32 - s as nat) as nat,
                        32,
                    );
                }
            }
            assert((base as int / 2) * f <= (base as int / 2) * 0xFFFF) by (nonlinear_arith)
                requires 0 <= f <= 0xFFFF && base as int / 2 >= 0;
            assert((base as int / 2) * f >= 0) by (nonlinear_arith)
                requires f >= 0 && base as int / 2 >= 0;
            assert((base as int / 2) * f / (FPONE as int) <= base as int / 2) by {
                let half = base as int / 2;
                assert(half * f <= half * (FPONE as int)) by (nonlinear_arith)
                    requires 0 <= f <= FPONE as int && half >= 0;
                vstd::arithmetic::div_mod::lemma_div_is_ordered(
                    half * f,
                    half * (FPONE as int),
                    FPONE as int,
                );
                vstd::arithmetic::div_mod::lemma_div_multiples_vanish(half, FPONE as int);
            }
        }
        let dec = (base / 2) * f / FPONE;
        base - dec
    }
}

/// The smallest of the first `n` energies (0 when `n` is 0).
pub open spec fn min_energy_upto(es: Seq<u64>, n: int) -> int
    decreases n,
{
    if n <= 0 {
        0
    } else if n == 1 {
        es[0] as int
    } else {
        let m = min_energy_upto(es, n - 1);
        if (es[n - 1] as int) < m {
            es[n - 1] as int
        } else {
            m
        }
    }
}

/// The minimum bounds every entry and is itself an entry.
pub proof fn lemma_min_energy_props(es: Seq<u64>, n: int)
    requires
        1 <= n <= es.len(),
    ensures
        forall|i: int| 0 <= i < n ==> min_energy_upto(es, n) <= #[trigger] es[i] as int,
        exists|i: int| 0 <= i < n && min_energy_upto(es, n) == es[i] as int,
    decreases n,
{
    if n == 1 {
        assert(min_energy_upto(es, 1) == es[0] as int);
    } else {
        lemma_min_energy_props(es, n - 1);
        if (es[n - 1] as int) < min_energy_upto(es, n - 1) {
            assert(min_energy_upto(es, n) == es[n - 1] as int);
        } else {
            let j = choose|j: int| 0 <= j < n - 1 && min_energy_upto(es, n - 1) == es[j] as int;
            assert(min_energy_upto(es, n) == es[j] as int);
        }
    }
}

/// The Boltzmann weight of energy `e` when the lowest energy is `emin`, at
/// temperature `t`: `2^(-(e - emin) / (t * FPONE))` scaled by `WONE`, with
/// the exponent's fixed-point division rounded down.
pub open spec fn weight_spec(e: int, emin: int, t: int) -> int {
    exp2_neg_spec((e - emin) * (FPONE as int) / t)
}

/// The Boltzmann weights of a full energy table, normalized so the lowest
/// energy always weighs exactly `WONE`.
pub fn boltzmann_weights(es: &Vec<u64>, t: u64) -> (ws: Vec<u64>)
    requires
        1 <= es@.len(),
        t >= 1,
        forall|i: int| 0 <= i < es@.len() ==> #[trigger] es@[i] <= ENERGY_MAX,
    ensures
        ws@.len() == es@.len(),
        forall|c: int|
            0 <= c < es@.len() ==> #[trigger] ws@[c] as int == weight_spec(
                es@[c] as int,
                min_energy_upto(es@, es@.len() as int),
                t as int,
            ),
        forall|c: int| 0 <= c < ws@.len() ==> #[trigger] ws@[c] <= WONE,
        exists|c: int| 0 <= c < ws@.len() && #[trigger] ws@[c] == WONE,
{
    let n = es.len();
    let mut emin: u64 = es[0];
    let mut i: usize = 1;
    while i < n
        invariant
            n == es@.len(),
            1 <= i <= n,
            emin as int == min_energy_upto(es@, i as int),
        decreases n - i,
    {
        let e = es[i];
        if e < emin {
            emin = e;
        }
        i = i + 1;
    }
    proof {
        lemma_min_energy_props(es@, n as int);
        vstd::arithmetic::power2::lemma2_to64();
        lemma_exp2_neg_zero();
    }
    let ghost gmin = min_energy_upto(es@, n as int);
    let mut ws: Vec<u64> = Vec::new();
    let mut c: usize = 0;
    while c < n
        invariant
            n == es@.len(),
            t >= 1,
            forall|i2: int| 0 <= i2 < es@.len() ==> #[trigger] es@[i2] <= ENERGY_MAX,
            emin as int == gmin,
            gmin == min_energy_upto(es@, n as int),
            forall|i2: int| 0 <= i2 < n ==> gmin <= #[trigger] es@[i2] as int,
            c <= n,
            ws@.len() == c,
            forall|j: int|
                0 <= j < c ==> #[trigger] ws@[j] as int == weight_spec(es@[j] as int, gmin, t as int),
            forall|j: int| 0 <= j < c ==> #[trigger] ws@[j] <= WONE,
        decreases n - c,
    {
        let gap = es[c] - emin;
        let q = gap * FPONE / t;
        let w = exp2_neg(q);
        proof {
            assert(gap * FPONE <= 0xB00_0000_0000 * 0x1_0000) by (nonlinear_arith)
                requires 0 <= gap <= 0xB00_0000_0000;
            vstd::arithmetic::div_mod::lemma_div_pos_is_pos((gap * FPONE) as int, t as int);
        }
        ws.push(w);
        c = c + 1;
    }
    proof {
        let j = choose|j: int| 0 <= j < n && gmin == es@[j] as int;
        assert(ws@[j] as int == weight_spec(es@[j] as int, gmin, t as int));
        assert((es@[j] as int - gmin) * (FPONE as int) == 0) by (nonlinear_arith)
            requires es@[j] as int - gmin == 0;
        assert(weight_spec(es@[j] as int, gmin, t as int) == exp2_neg_spec(0int / (t as int)));
        assert(ws@[j] == WONE);
    }
    ws
}

/// The sum of the first `n` weights.
pub open spec fn wsum(ws: Seq<u64>, n: int) -> int
    decreases n,
{
    if n <= 0 {
        0
    } else {
        wsum(ws, n - 1) + ws[n - 1] as int
    }
}

/// Each weight is bounded by any sum that includes it.
pub proof fn lemma_wsum_lower(ws: Seq<u64>, i: int, n: int)
    requires
        0 <= i < n <= ws.len(),
    ensures
        ws[i] as int <= wsum(ws, n),
        0 <= wsum(ws, n),
    decreases n,
{
    if n > 0 {
        if i == n - 1 {
            lemma_wsum_nonneg(ws, n - 1);
        } else {
            lemma_wsum_lower(ws, i, n - 1);
        }
    }
}

pub proof fn lemma_wsum_nonneg(ws: Seq<u64>, n: int)
    requires
        n <= ws.len(),
    ensures
        0 <= wsum(ws, n),
    decreases n,
{
    if n > 0 {
        lemma_wsum_nonneg(ws, n - 1);
    }
}

/// The exact total of a weight table.
pub fn sum_weights(ws: &Vec<u64>) -> (r: u64)
    requires
        ws@.len() <= K_MAX,
        forall|i: int| 0 <= i < ws@.len() ==> #[trigger] ws@[i] <= WONE,
    ensures
        r as int == wsum(ws@, ws@.len() as int),
{
    let n = ws.len();
    let mut r: u64 = 0;
    let mut i: usize = 0;
    while i < n
        invariant
            n == ws@.len() <= K_MAX,
            forall|j: int| 0 <= j < ws@.len() ==> #[trigger] ws@[j] <= WONE,
            i <= n,
            r as int == wsum(ws@, i as int),
            r <= i * WONE,
        decreases n - i,
    {
        assert((i + 1) * WONE == i * WONE + WONE) by (nonlinear_arith);
        assert(i * WONE <= K_MAX * WONE) by (nonlinear_arith)
            requires 0 <= i as int <= K_MAX as int;
        r = r + ws[i];
        i = i + 1;
    }
    r
}

/// The categorical draw: scanning in index order and accumulating weights,
/// the result is the first index whose cumulative weight exceeds `u`; if
/// rounding has exhausted the table without reaching `u`, it falls back
/// deterministically to the last index.
pub open spec fn sample_rec(ws: Seq<u64>, u: int, acc: int, i: int) -> int
    decreases ws.len() - i,
{
    if i >= ws.len() - 1 {
        ws.len() - 1
    } else if acc + ws[i] > u {
        i
    } else {
        sample_rec(ws, u, acc + ws[i] as int, i + 1)
    }
}

pub open spec fn sample_spec(ws: Seq<u64>, u: int) -> int {
    sample_rec(ws, u, 0, 0)
}

/// Draw an index from the cumulative weight table: the first index whose
/// cumulative weight exceeds `u`, or — should rounding leave the total at
/// or below `u` — the last index, so the result is always in range.
pub fn sample_dist(dist: &Vec<u64>, u: u64) -> (r: usize)
    requires
        1 <= dist@.len() <= K_MAX,
        forall|i: int| 0 <= i < dist@.len() ==> #[trigger] dist@[i] <= WONE,
    ensures
        r as int == sample_spec(dist@, u as int),
        r < dist@.len(),
{
    let n = dist.len();
    let mut acc: u64 = 0;
    let mut i: usize = 0;
    while i < n - 1
        invariant
            n == dist@.len(),
            1 <= n <= K_MAX,
            forall|j: int| 0 <= j < dist@.len() ==> #[trigger] dist@[j] <= WONE,
            i <= n - 1,
            acc <= i * WONE,
            sample_rec(dist@, u as int, acc as int, i as int) == sample_spec(dist@, u as int),
        decreases n - i,
    {
        proof {
            assert((i + 1) * WONE == i * WONE + WONE) by (nonlinear_arith);
            assert(i * WONE <= K_MAX * WONE) by (nonlinear_arith)
                requires 0 <= i as int <= K_MAX as int;
        }
        let w = dist[i];
        if acc + w > u {
            return i;
        }
        acc = acc + w;
        i = i + 1;
    }
    n - 1
}

/// When every weight before `c` is zero and `c`'s own weight exceeds `u`,
/// the draw lands exactly on `c`, whatever `u` is.
pub proof fn lemma_sample_zero_prefix(ws: Seq<u64>, u: int, c: int)
    requires
        0 <= c < ws.len(),
        0 <= u,
        forall|j: int| 0 <= j < c ==> #[trigger] ws[j] == 0,
        (ws[c] as int) > u,
    ensures
        sample_spec(ws, u) == c,
{
    lemma_sample_zero_prefix_rec(ws, u, c, 0);
}

proof fn lemma_sample_zero_prefix_rec(ws: Seq<u64>, u: int, c: int, i: int)
    requires
        0 <= i <= c < ws.len(),
        0 <= u,
        forall|j: int| 0 <= j < c ==> #[trigger] ws[j] == 0,
        (ws[c] as int) > u,
    ensures
        sample_rec(ws, u, 0, i) == c,
    decreases c - i,
{
    if i == c {
        if c == ws.len() - 1 {
        } else {
            assert(0 + ws[i] as int > u);
        }
    } else {
        assert(ws[i] == 0);
        lemma_sample_zero_prefix_rec(ws, u, c, i + 1);
    }
}

/// The rank of a pixel's sub-lattice in the fixed visiting order:
/// `(0,0)`, `(1,1)`, `(0,1)`, `(1,0)` by coordinate parities.
pub open spec fn phase_rank(x: int, y: int) -> int {
    if x % 2 == 0 && y % 2 == 0 {
        0
    } else if x % 2 == 1 && y % 2 == 1 {
        1
    } else if x % 2 == 0 {
        2
    } else {
        3
    }
}

/// The fixed total visiting order of one sweep: sub-lattice rank first,
/// then row before column within a sub-lattice.
pub open spec fn visits_before(a: (usize, usize), b: (usize, usize)) -> bool {
    let ra = phase_rank(a.0 as int, a.1 as int);
    let rb = phase_rank(b.0 as int, b.1 as int);
    ra < rb || (ra == rb && (a.1 < b.1 || (a.1 == b.1 && a.0 < b.0)))
}

/// `(a, b)` occurs somewhere in the position list.
pub open spec fn contains_pos(s: Seq<(usize, usize)>, a: int, b: int) -> bool {
    exists|i: int| 0 <= i < s.len() && (#[trigger] s[i]).0 == a && s[i].1 == b
}

/// Append one checkerboard sub-lattice — every in-range position whose
/// coordinate parities are `(x0, y0)` — in row-major order.
fn push_phase(out: &mut Vec<(usize, usize)>, x0: usize, y0: usize, width: usize, height: usize)
    requires
        x0 < 2,
        y0 < 2,
        1 <= width <= GRID_MAX,
        1 <= height <= GRID_MAX,
        forall|i: int, j: int| 0 <= i < j < old(out)@.len() ==> old(out)@[i] != old(out)@[j],
        forall|i: int|
            0 <= i < old(out)@.len() ==> !((#[trigger] old(out)@[i]).0 % 2 == x0 && old(
                out,
            )@[i].1 % 2 == y0),
    ensures
        old(out)@.len() <= final(out)@.len(),
        forall|i: int| 0 <= i < old(out)@.len() ==> final(out)@[i] == old(out)@[i],
        forall|i: int|
            old(out)@.len() <= i < final(out)@.len() ==> {
                let p = #[trigger] final(out)@[i];
                p.0 < width && p.1 < height && p.0 % 2 == x0 && p.1 % 2 == y0
            },
        forall|i: int, j: int| 0 <= i < j < final(out)@.len() ==> final(out)@[i] != final(out)@[j],
        forall|i: int, j: int|
            old(out)@.len() <= i < j < final(out)@.len() ==> (#[trigger] final(out)@[i]).1 < (
            #[trigger] final(out)@[j]).1 || (final(out)@[i].1 == final(out)@[j].1
                && final(out)@[i].0 < final(out)@[j].0),
        forall|a: int, b: int|
            0 <= a < width && 0 <= b < height && a % 2 == x0 && b % 2 == y0
                ==> #[trigger] contains_pos(final(out)@, a, b),
{
    let ghost base = out@.len() as int;
    let mut y: usize = y0;
    while y < height
        invariant
            x0 < 2,
            y0 < 2,
            1 <= width <= GRID_MAX,
            1 <= height <= GRID_MAX,
            y0 <= y <= height + 1,
            y % 2 == y0,
            0 <= base <= out@.len(),
            forall|i: int| 0 <= i < base ==> out@[i] == old(out)@[i],
            forall|i: int|
                0 <= i < base ==> !((#[trigger] out@[i]).0 % 2 == x0 && out@[i].1 % 2 == y0),
            forall|i: int|
                base <= i < out@.len() ==> {
                    let p = #[trigger] out@[i];
                    p.0 < width && p.1 < height && p.0 % 2 == x0 && p.1 % 2 == y0
                },
            forall|i: int, j: int| 0 <= i < j < out@.len() ==> out@[i] != out@[j],
            forall|i: int, j: int|
                base <= i < j < out@.len() ==> (#[trigger] out@[i]).1 < (#[trigger] out@[j]).1 || (
                out@[i].1 == out@[j].1 && out@[i].0 < out@[j].0),
            forall|i: int| base <= i < out@.len() ==> (#[trigger] out@[i]).1 < y,
            forall|a: int, b: int|
                0 <= a < width && 0 <= b < y && b < height && a % 2 == x0 && b % 2 == y0
                    ==> #[trigger] contains_pos(out@, a, b),
        decreases height + 2 - y,
    {
        let mut x: usize = x0;
        while x < width
            invariant
                x0 < 2,
                y0 < 2,
                1 <= width <= GRID_MAX,
                1 <= height <= GRID_MAX,
                y0 <= y < height,
                y % 2 == y0,
                x0 <= x <= width + 1,
                x % 2 == x0,
                0 <= base <= out@.len(),
                forall|i: int| 0 <= i < base ==> out@[i] == old(out)@[i],
                forall|i: int|
                    0 <= i < base ==> !((#[trigger] out@[i]).0 % 2 == x0 && out@[i].1 % 2 == y0),
                forall|i: int|
                    base <= i < out@.len() ==> {
                        let p = #[trigger] out@[i];
                        p.0 < width && p.1 < height && p.0 % 2 == x0 && p.1 % 2 == y0
                    },
                forall|i: int, j: int| 0 <= i < j < out@.len() ==> out@[i] != out@[j],
                forall|i: int, j: int|
                    base <= i < j < out@.len() ==> (#[trigger] out@[i]).1 < (
                    #[trigger] out@[j]).1 || (out@[i].1 == out@[j].1 && out@[i].0 < out@[j].0),
                forall|i: int|
                    base <= i < out@.len() ==> (#[trigger] out@[i]).1 < y || (out@[i].1 == y
                        && out@[i].0 < x),
                forall|a: int, b: int|
                    0 <= a < width && 0 <= b < y && b < height && a % 2 == x0 && b % 2 == y0
                        ==> #[trigger] contains_pos(out@, a, b),
                forall|a: int|
                    0 <= a < x && a < width && a % 2 == x0 ==> #[trigger] contains_pos(
                        out@,
                        a,
                        y as int,
                    ),
            decreases width + 2 - x,
        {
            let ghost prev = out@;
            out.push((x, y));
            proof {
                assert(out@[out@.len() - 1] == (x, y));
                assert forall|i: int| base <= i < out@.len() implies {
                    let p = #[trigger] out@[i];
                    p.0 < width && p.1 < height && p.0 % 2 == x0 && p.1 % 2 == y0
                } by {
                    if i < prev.len() {
                        assert(out@[i] == prev[i]);
                    } else {
                        assert(out@[i] == (x, y));
                    }
                }
                assert forall|i: int, j: int| base <= i < j < out@.len() implies ((
                #[trigger] out@[i]).1 < (#[trigger] out@[j]).1 || (out@[i].1 == out@[j].1
                    && out@[i].0 < out@[j].0)) by {
                    assert(out@[i] == prev[i]);
                    if j < prev.len() {
                        assert(out@[j] == prev[j]);
                    } else {
                        assert(out@[j] == (x, y));
                        assert(prev[i].1 < y || (prev[i].1 == y && prev[i].0 < x));
                    }
                }
                assert forall|i: int| base <= i < out@.len() implies ((#[trigger] out@[i]).1 < y
                    || (out@[i].1 == y && out@[i].0 < x + 2)) by {
                    if i < prev.len() {
                        assert(prev[i].1 < y || (prev[i].1 == y && prev[i].0 < x));
                        assert(out@[i] == prev[i]);
                    } else {
                        assert(out@[i] == (x, y));
                    }
                }
                assert forall|a: int, b: int|
                    0 <= a < width && 0 <= b < y && b < height && a % 2 == x0 && b % 2 == y0
                        implies #[trigger] contains_pos(out@, a, b) by {
                    assert(contains_pos(prev, a, b));
                    let i = choose|i: int|
                        0 <= i < prev.len() && (#[trigger] prev[i]).0 == a && prev[i].1 == b;
                    assert(out@[i].0 == a && out@[i].1 == b);
                }
                assert forall|a: int|
                    0 <= a < x + 2 && a < width && a % 2 == x0 implies #[trigger] contains_pos(
                    out@,
                    a,
                    y as int,
                ) by {
                    if a < x {
                        assert(contains_pos(prev, a, y as int));
                        let i = choose|i: int|
                            0 <= i < prev.len() && (#[trigger] prev[i]).0 == a && prev[i].1
                                == y as int;
                        assert(out@[i].0 == a && out@[i].1 == y as int);
                    } else {
                        assert(a == x) by {
                            assert(a % 2 == x % 2 && x <= a < x + 2);
                        }
                        assert(out@[out@.len() - 1].0 == a && out@[out@.len() - 1].1 == y as int);
                    }
                }
            }
            x = x + 2;
        }
        proof {
            assert forall|a: int, b: int|
                0 <= a < width && 0 <= b < y + 2 && b < height && a % 2 == x0 && b % 2 == y0
                    implies #[trigger] contains_pos(out@, a, b) by {
                if b == y + 1 {
                    assert(b % 2 != y % 2);
                    assert(false);
                } else if b == y {
                    assert(contains_pos(out@, a, y as int));
                }
            }
        }
        y = y + 2;
    }
    proof {
        assert forall|a: int, b: int|
            0 <= a < width && 0 <= b < height && a % 2 == x0 && b % 2 == y0
                implies #[trigger] contains_pos(out@, a, b) by {
            assert(b < y);
        }
    }
}

/// A well-formed sweep order: every position in range, strictly ordered
/// by the fixed visiting order, and every in-range pixel covered — which
/// together pin the order down uniquely.
pub open spec fn sweep_order_wf(order: Seq<(usize, usize)>, w: int, h: int) -> bool {
    &&& forall|i: int| 0 <= i < order.len() ==> (#[trigger] order[i]).0 < w && order[i].1 < h
    &&& forall|i: int, j: int| 0 <= i < j < order.len() ==> visits_before(order[i], order[j])
    &&& forall|a: int, b: int| 0 <= a < w && 0 <= b < h ==> #[trigger] contains_pos(order, a, b)
}

/// The label grid after the first `n` in-place resampling steps of a
/// sweep: step `m` redraws the pixel `order[m]` from the Boltzmann weight
/// table of the grid as the previous steps left it, deciding by the
/// random draw `us[m]`.
pub open spec fn sweep_labels(
    dist: Seq<Vec<u64>>,
    labels: Seq<usize>,
    w: int,
    h: int,
    k: int,
    order: Seq<(usize, usize)>,
    us: Seq<u64>,
    ct: CliqueType,
    beta: int,
    t: int,
    n: int,
) -> Seq<usize>
    decreases n,
{
    if n <= 0 {
        labels
    } else {
        let prev = sweep_labels(dist, labels, w, h, k, order, us, ct, beta, t, n - 1);
        let x = order[n - 1].0 as int;
        let y = order[n - 1].1 as int;
        prev.update(
            y * w + x,
            sample_spec(
                weights_at(dist, prev, w, h, k, x, y, ct, beta, t),
                us[n - 1] as int,
            ) as usize,
        )
    }
}

/// The first `n` steps of a sweep read only the first `n` draws.
pub proof fn lemma_sweep_labels_prefix(
    dist: Seq<Vec<u64>>,
    labels: Seq<usize>,
    w: int,
    h: int,
    k: int,
    order: Seq<(usize, usize)>,
    us1: Seq<u64>,
    us2: Seq<u64>,
    ct: CliqueType,
    beta: int,
    t: int,
    n: int,
)
    requires
        forall|i: int| 0 <= i < n ==> us1[i] == us2[i],
    ensures
        sweep_labels(dist, labels, w, h, k, order, us1, ct, beta, t, n) == sweep_labels(
            dist,
            labels,
            w,
            h,
            k,
            order,
            us2,
            ct,
            beta,
            t,
            n,
        ),
    decreases n,
{
    if n > 0 {
        lemma_sweep_labels_prefix(dist, labels, w, h, k, order, us1, us2, ct, beta, t, n - 1);
    }
}

/// One whole in-place sweep relates grid `a` to grid `b`: for some
/// well-formed (hence unique) visiting order and some sequence of
/// admissible draws — one per pixel, each below the total weight of the
/// pixel's table at its moment — `b` is the in-order fold of single
/// resampling steps over `a`.
pub open spec fn sweep_step_rel(
    dist: Seq<Vec<u64>>,
    a: Seq<usize>,
    b: Seq<usize>,
    w: int,
    h: int,
    k: int,
    ct: CliqueType,
    beta: int,
    t: int,
) -> bool {
    exists|order: Seq<(usize, usize)>, us: Seq<u64>|
        {
            &&& sweep_order_wf(order, w, h)
            &&& us.len() == order.len()
            &&& (forall|i: int|
                0 <= i < order.len() ==> ((#[trigger] us[i]) as int) < wsum(
                    weights_at(
                        dist,
                        sweep_labels(dist, a, w, h, k, order, us, ct, beta, t, i),
                        w,
                        h,
                        k,
                        order[i].0 as int,
                        order[i].1 as int,
                        ct,
                        beta,
                        t,
                    ),
                    k,
                ))
            &&& b == #[trigger] sweep_labels(
                dist,
                a,
                w,
                h,
                k,
                order,
                us,
                ct,
                beta,
                t,
                order.len() as int,
            )
        }
}

/// One full sweep's visiting order: the four checkerboard sub-lattices in
/// the fixed order `(0,0)`, `(1,1)`, `(0,1)`, `(1,0)`, row-major within
/// each. The contract is the sweep-coverage law: every in-range pixel is
/// visited, and no pixel is visited twice.
pub fn sweep_positions(width: usize, height: usize) -> (r: Vec<(usize, usize)>)
    requires
        1 <= width <= GRID_MAX,
        1 <= height <= GRID_MAX,
    ensures
        forall|i: int| 0 <= i < r@.len() ==> (#[trigger] r@[i]).0 < width && r@[i].1 < height,
        forall|i: int, j: int| 0 <= i < j < r@.len() ==> r@[i] != r@[j],
        forall|i: int, j: int| 0 <= i < j < r@.len() ==> visits_before(r@[i], r@[j]),
        forall|a: int, b: int|
            0 <= a < width && 0 <= b < height ==> #[trigger] contains_pos(r@, a, b),
        sweep_order_wf(r@, width as int, height as int),
{
    let mut r: Vec<(usize, usize)> = Vec::new();
    push_phase(&mut r, 0, 0, width, height);
    let ghost v0 = r@;
    push_phase(&mut r, 1, 1, width, height);
    let ghost v1 = r@;
    push_phase(&mut r, 0, 1, width, height);
    let ghost v2 = r@;
    push_phase(&mut r, 1, 0, width, height);
    proof {
        assert forall|a: int, b: int| 0 <= a < width && 0 <= b < height implies #[trigger] contains_pos(
            r@,
            a,
            b,
        ) by {
            if a % 2 == 0 && b % 2 == 0 {
                assert(contains_pos(v0, a, b));
                let i = choose|i: int|
                    0 <= i < v0.len() && (#[trigger] v0[i]).0 == a && v0[i].1 == b;
                assert(r@[i] == v0[i]);
            } else if a % 2 == 1 && b % 2 == 1 {
                assert(contains_pos(v1, a, b));
                let i = choose|i: int|
                    0 <= i < v1.len() && (#[trigger] v1[i]).0 == a && v1[i].1 == b;
                assert(r@[i] == v1[i]);
            } else if a % 2 == 0 && b % 2 == 1 {
                assert(contains_pos(v2, a, b));
                let i = choose|i: int|
                    0 <= i < v2.len() && (#[trigger] v2[i]).0 == a && v2[i].1 == b;
                assert(r@[i] == v2[i]);
            } else {
                assert(a % 2 == 1 && b % 2 == 0);
                assert(contains_pos(r@, a, b));
            }
        }
        assert forall|i: int, j: int| 0 <= i < j < r@.len() implies visits_before(
            r@[i],
            r@[j],
        ) by {
            if i < v0.len() {
                assert(r@[i] == v0[i] && v2[i] == v1[i] && v1[i] == v0[i] && r@[i] == v2[i]);
            } else if i < v1.len() {
                assert(v2[i] == v1[i] && r@[i] == v2[i]);
            } else if i < v2.len() {
                assert(r@[i] == v2[i]);
            }
            if j < v0.len() {
                assert(r@[j] == v0[j] && v2[j] == v1[j] && v1[j] == v0[j] && r@[j] == v2[j]);
            } else if j < v1.len() {
                assert(v2[j] == v1[j] && r@[j] == v2[j]);
            } else if j < v2.len() {
                assert(r@[j] == v2[j]);
            }
            let pa = r@[i];
            let pb = r@[j];
            if j < v0.len() {
                assert(phase_rank(pa.0 as int, pa.1 as int) == 0);
                assert(phase_rank(pb.0 as int, pb.1 as int) == 0);
            } else if j < v1.len() {
                assert(phase_rank(pb.0 as int, pb.1 as int) == 1);
                if i >= v0.len() {
                    assert(phase_rank(pa.0 as int, pa.1 as int) == 1);
                } else {
                    assert(phase_rank(pa.0 as int, pa.1 as int) == 0);
                }
            } else if j < v2.len() {
                assert(phase_rank(pb.0 as int, pb.1 as int) == 2);
                if i >= v1.len() {
                    assert(phase_rank(pa.0 as int, pa.1 as int) == 2);
                } else if i >= v0.len() {
                    assert(phase_rank(pa.0 as int, pa.1 as int) == 1);
                } else {
                    assert(phase_rank(pa.0 as int, pa.1 as int) == 0);
                }
            } else {
                assert(phase_rank(pb.0 as int, pb.1 as int) == 3);
                if i >= v2.len() {
                    assert(phase_rank(pa.0 as int, pa.1 as int) == 3);
                } else if i >= v1.len() {
                    assert(phase_rank(pa.0 as int, pa.1 as int) == 2);
                } else if i >= v0.len() {
                    assert(phase_rank(pa.0 as int, pa.1 as int) == 1);
                } else {
                    assert(phase_rank(pa.0 as int, pa.1 as int) == 0);
                }
            }
        }
    }
    r
}

/// A zero exponent weighs exactly `WONE`.
pub proof fn lemma_exp2_neg_zero()
    ensures
        exp2_neg_spec(0) == WONE,
{
    vstd::arithmetic::power2::lemma2_to64();
    let s = 0int / (FPONE as int);
    let f = 0int % (FPONE as int);
    assert(s == 0 && f == 0);
    let base = pow2((32 - s) as nat) as int;
    assert(base == 0x1_0000_0000);
    assert((base / 2) * f == 0);
    assert(exp2_neg_spec(0) == base - (base / 2) * f / (FPONE as int));
}


/// The whole energy table at one pixel, over an explicit unary table and
/// labeling.
pub open spec fn energies_at(
    dist: Seq<Vec<u64>>,
    labels: Seq<usize>,
    w: int,
    h: int,
    k: int,
    x: int,
    y: int,
    ct: CliqueType,
    beta: int,
) -> Seq<u64> {
    Seq::new(k as nat, |c: int| energy_at(dist, labels, w, h, x, y, c, ct, beta) as u64)
}

/// The whole energy table at one pixel, as a sequence.
pub open spec fn energies_seq(mk: MK, x: int, y: int, ct: CliqueType, beta: int) -> Seq<u64> {
    energies_at(
        mk.dist@,
        mk.x@,
        mk.width as int,
        mk.height as int,
        mk.num_classes as int,
        x,
        y,
        ct,
        beta,
    )
}

/// The Boltzmann weight table at one pixel, over an explicit unary table
/// and labeling.
pub open spec fn weights_at(
    dist: Seq<Vec<u64>>,
    labels: Seq<usize>,
    w: int,
    h: int,
    k: int,
    x: int,
    y: int,
    ct: CliqueType,
    beta: int,
    t: int,
) -> Seq<u64> {
    let es = energies_at(dist, labels, w, h, k, x, y, ct, beta);
    Seq::new(
        es.len(),
        |c: int| weight_spec(es[c] as int, min_energy_upto(es, es.len() as int), t) as u64,
    )
}

/// The Boltzmann weight table at one pixel.
pub open spec fn step_weights(mk: MK, x: int, y: int, ct: CliqueType, beta: int, t: int) -> Seq<
    u64,
> {
    weights_at(
        mk.dist@,
        mk.x@,
        mk.width as int,
        mk.height as int,
        mk.num_classes as int,
        x,
        y,
        ct,
        beta,
        t,
    )
}

/// Energies of a well-formed field are bounded by `ENERGY_MAX`.
pub proof fn lemma_energy_spec_bounds(mk: MK, x: int, y: int, c: int, ct: CliqueType, beta: int)
    requires
        mk.wf(),
        0 <= x < mk.width,
        0 <= y < mk.height,
        0 <= c < mk.num_classes,
        0 <= beta <= BETA_MAX,
    ensures
        0 <= mk.energy_spec(x, y, c, ct, beta) <= ENERGY_MAX,
{
    let offs = neighbor_offsets(ct);
    lemma_disagree_upto_bounds(
        mk.x@,
        mk.width as int,
        mk.height as int,
        x,
        y,
        c,
        offs,
        offs.len() as int,
    );
    let d = disagreements(mk.x@, mk.width as int, mk.height as int, x, y, c, ct);
    assert(0 <= beta * d <= BETA_MAX * 8) by (nonlinear_arith)
        requires 0 <= beta <= BETA_MAX && 0 <= d <= 8;
    assert(y * mk.width + x < mk.width * mk.height) by (nonlinear_arith)
        requires 0 <= x < mk.width && 0 <= y < mk.height;
    assert(y * mk.width + x >= 0) by (nonlinear_arith)
        requires x >= 0 && y >= 0 && mk.width >= 1;
}

impl MK {
    /// The energies of every class at `(x, y)` under the current labeling:
    /// exactly `energies_seq`.
    pub fn class_energies(&self, x: usize, y: usize, clique_type: CliqueType, beta: u64) -> (es:
        Vec<u64>)
        requires
            self.wf(),
            x < self.width,
            y < self.height,
            beta <= BETA_MAX,
        ensures
            es@ == energies_seq(*self, x as int, y as int, clique_type, beta as int),
            es@.len() == self.num_classes,
            forall|c: int| 0 <= c < es@.len() ==> #[trigger] es@[c] <= ENERGY_MAX,
    {
        let k = self.num_classes;
        let mut es: Vec<u64> = Vec::new();
        let mut c: usize = 0;
        while c < k
            invariant
                self.wf(),
                x < self.width,
                y < self.height,
                beta <= BETA_MAX,
                k == self.num_classes,
                c <= k,
                es@.len() == c,
                forall|j: int|
                    0 <= j < c ==> #[trigger] es@[j] as int == self.energy_spec(
                        x as int,
                        y as int,
                        j,
                        clique_type,
                        beta as int,
                    ),
                forall|j: int| 0 <= j < c ==> #[trigger] es@[j] <= ENERGY_MAX,
            decreases k - c,
        {
            let e = self.energy(x, y, c, clique_type, beta);
            es.push(e);
            c = c + 1;
        }
        proof {
            assert forall|j: int|
                0 <= j < k implies #[trigger] energies_seq(
                *self,
                x as int,
                y as int,
                clique_type,
                beta as int,
            )[j] == es@[j] by {
                lemma_energy_spec_bounds(
                    *self,
                    x as int,
                    y as int,
                    j,
                    clique_type,
                    beta as int,
                );
            }
            assert(es@ =~= energies_seq(*self, x as int, y as int, clique_type, beta as int));
        }
        es
    }

    /// One Gibbs resampling step at `(x, y)`: given the random draw `u`,
    /// the pixel's new label is exactly the categorical draw from its
    /// Boltzmann weight table under the labeling of this moment; no other
    /// pixel changes.
    pub fn gibbs_step(
        &mut self,
        x: usize,
        y: usize,
        t: u64,
        clique_type: CliqueType,
        beta: u64,
        u: u64,
    )
        requires
            old(self).wf(),
            x < old(self).width,
            y < old(self).height,
            t >= 1,
            beta <= BETA_MAX,
            (u as int) < wsum(
                step_weights(*old(self), x as int, y as int, clique_type, beta as int, t as int),
                old(self).num_classes as int,
            ),
        ensures
            final(self).wf(),
            final(self).width == old(self).width,
            final(self).height == old(self).height,
            final(self).num_classes == old(self).num_classes,
            final(self).dist@ == old(self).dist@,
            final(self).x@ == old(self).x@.update(
                y * old(self).width + x,
                sample_spec(
                    step_weights(
                        *old(self),
                        x as int,
                        y as int,
                        clique_type,
                        beta as int,
                        t as int,
                    ),
                    u as int,
                ) as usize,
            ),
    {
        let es = self.class_energies(x, y, clique_type, beta);
        let ws = boltzmann_weights(&es, t);
        let ghost sws = step_weights(*self, x as int, y as int, clique_type, beta as int, t as int);
        proof {
            lemma_min_energy_props(es@, es@.len() as int);
            assert forall|c: int| 0 <= c < ws@.len() implies #[trigger] ws@[c] == sws[c] by {
                let emin = min_energy_upto(es@, es@.len() as int);
                let gap = es@[c] as int - emin;
                assert(gap * (FPONE as int) >= 0) by (nonlinear_arith)
                    requires gap >= 0;
                vstd::arithmetic::div_mod::lemma_div_pos_is_pos(gap * (FPONE as int), t as int);
                lemma_exp2_range(gap * (FPONE as int) / (t as int));
            }
            assert(ws@ =~= sws);
        }
        let lbl = sample_dist(&ws, u);
        let p = self.pos(x, y);
        let ghost before = *self;
        self.x.set(p, lbl);
        proof {
            assert forall|q: int| 0 <= q < self.grid_len() implies (#[trigger] self.x@[q])
                < self.num_classes by {
                if q != p {
                    assert(self.x@[q] == before.x@[q]);
                }
            }
        }
    }

    /// One full sweep of Gibbs resampling at temperature `t`: every pixel
    /// is revisited exactly once, checkerboard sub-lattice by sub-lattice
    /// in the fixed order, and its label redrawn in place from the
    /// Boltzmann distribution of its class energies under the labeling of
    /// that moment — the sweep is the in-order fold of single resampling
    /// steps over a well-formed (hence unique) visiting order, decided by
    /// one random draw per pixel. Dimensions, class count and the unary
    /// table are untouched; the grid stays well-formed under every random
    /// outcome.
    pub fn gibbs_sampler(
        &mut self,
        t: u64,
        clique_type: CliqueType,
        beta: u64,
        rng: &mut rand::rngs::StdRng,
    )
        requires
            old(self).wf(),
            t >= 1,
            beta <= BETA_MAX,
        ensures
            final(self).wf(),
            final(self).width == old(self).width,
            final(self).height == old(self).height,
            final(self).num_classes == old(self).num_classes,
            final(self).dist@ == old(self).dist@,
            final(self).x@.len() == old(self).x@.len(),
            sweep_step_rel(
                old(self).dist@,
                old(self).x@,
                final(self).x@,
                old(self).width as int,
                old(self).height as int,
                old(self).num_classes as int,
                clique_type,
                beta as int,
                t as int,
            ),
    {
        proof {
            old(self).lemma_dims_bounded();
        }
        let positions = sweep_positions(self.width, self.height);
        let m = positions.len();
        let mut idx: usize = 0;
        let ghost mut us: Seq<u64> = Seq::empty();
        while idx < m
            invariant
                self.wf(),
                t >= 1,
                beta <= BETA_MAX,
                self.width == old(self).width,
                self.height == old(self).height,
                self.num_classes == old(self).num_classes,
                self.dist@ == old(self).dist@,
                self.x@.len() == old(self).x@.len(),
                m == positions@.len(),
                idx <= m,
                forall|i: int|
                    0 <= i < positions@.len() ==> (#[trigger] positions@[i]).0 < self.width
                        && positions@[i].1 < self.height,
                sweep_order_wf(positions@, old(self).width as int, old(self).height as int),
                us.len() == idx,
                self.x@ == sweep_labels(
                    old(self).dist@,
                    old(self).x@,
                    old(self).width as int,
                    old(self).height as int,
                    old(self).num_classes as int,
                    positions@,
                    us,
                    clique_type,
                    beta as int,
                    t as int,
                    idx as int,
                ),
                forall|i: int|
                    0 <= i < idx ==> ((#[trigger] us[i]) as int) < wsum(
                        weights_at(
                            old(self).dist@,
                            sweep_labels(
                                old(self).dist@,
                                old(self).x@,
                                old(self).width as int,
                                old(self).height as int,
                                old(self).num_classes as int,
                                positions@,
                                us,
                                clique_type,
                                beta as int,
                                t as int,
                                i,
                            ),
                            old(self).width as int,
                            old(self).height as int,
                            old(self).num_classes as int,
                            positions@[i].0 as int,
                            positions@[i].1 as int,
                            clique_type,
                            beta as int,
                            t as int,
                        ),
                        old(self).num_classes as int,
                    ),
            decreases m - idx,
        {
            let (x, y) = positions[idx];
            let es = self.class_energies(x, y, clique_type, beta);
            let ws = boltzmann_weights(&es, t);
            let total = sum_weights(&ws);
            let ghost sws = step_weights(
                *self,
                x as int,
                y as int,
                clique_type,
                beta as int,
                t as int,
            );
            proof {
                let j = choose|j: int| 0 <= j < ws@.len() && #[trigger] ws@[j] == WONE;
                lemma_wsum_lower(ws@, j, ws@.len() as int);
                lemma_min_energy_props(es@, es@.len() as int);
                assert forall|c: int| 0 <= c < ws@.len() implies #[trigger] ws@[c] == sws[c] by {
                    let emin = min_energy_upto(es@, es@.len() as int);
                    let gap = es@[c] as int - emin;
                    assert(gap * (FPONE as int) >= 0) by (nonlinear_arith)
                        requires gap >= 0;
                    vstd::arithmetic::div_mod::lemma_div_pos_is_pos(
                        gap * (FPONE as int),
                        t as int,
                    );
                    lemma_exp2_range(gap * (FPONE as int) / (t as int));
                }
                assert(ws@ =~= sws);
            }
            let u = crate::rng::rng_below(rng, total);
            let ghost before = *self;
            self.gibbs_step(x, y, t, clique_type, beta, u);
            proof {
                let w = old(self).width as int;
                let h = old(self).height as int;
                let kk = old(self).num_classes as int;
                let d0 = old(self).dist@;
                let l0 = old(self).x@;
                lemma_sweep_labels_prefix(
                    d0,
                    l0,
                    w,
                    h,
                    kk,
                    positions@,
                    us.push(u),
                    us,
                    clique_type,
                    beta as int,
                    t as int,
                    idx as int,
                );
                assert(us.push(u)[idx as int] == u);
                assert(weights_at(
                    d0,
                    before.x@,
                    w,
                    h,
                    kk,
                    x as int,
                    y as int,
                    clique_type,
                    beta as int,
                    t as int,
                ) == step_weights(before, x as int, y as int, clique_type, beta as int, t as int));
                assert(self.x@ == sweep_labels(
                    d0,
                    l0,
                    w,
                    h,
                    kk,
                    positions@,
                    us.push(u),
                    clique_type,
                    beta as int,
                    t as int,
                    idx + 1,
                ));
                let us2 = us.push(u);
                assert forall|i: int| 0 <= i < idx + 1 implies ((#[trigger] us2[i]) as int) < wsum(
                    weights_at(
                        d0,
                        sweep_labels(
                            d0,
                            l0,
                            w,
                            h,
                            kk,
                            positions@,
                            us2,
                            clique_type,
                            beta as int,
                            t as int,
                            i,
                        ),
                        w,
                        h,
                        kk,
                        positions@[i].0 as int,
                        positions@[i].1 as int,
                        clique_type,
                        beta as int,
                        t as int,
                    ),
                    kk,
                ) by {
                    lemma_sweep_labels_prefix(
                        d0,
                        l0,
                        w,
                        h,
                        kk,
                        positions@,
                        us2,
                        us,
                        clique_type,
                        beta as int,
                        t as int,
                        i,
                    );
                    if i < idx {
                        assert(us2[i] == us[i]);
                    } else {
                        assert(us2[i] == u);
                        assert(sweep_labels(
                            d0,
                            l0,
                            w,
                            h,
                            kk,
                            positions@,
                            us,
                            clique_type,
                            beta as int,
                            t as int,
                            i,
                        ) == before.x@);
                        assert(u < total);
                    }
                }
                us = us2;
            }
            idx = idx + 1;
        }
        proof {
            assert(sweep_order_wf(positions@, old(self).width as int, old(self).height as int)
                && us.len() == positions@.len() && self.x@ == sweep_labels(
                old(self).dist@,
                old(self).x@,
                old(self).width as int,
                old(self).height as int,
                old(self).num_classes as int,
                positions@,
                us,
                clique_type,
                beta as int,
                t as int,
                positions@.len() as int,
            ));
        }
    }
}

/// `floor(log2(10) * FPONE)`: one annealing step's exponent scale.
pub const LOG2_10_FP: u64 = 217705;

/// `floor(0.05 * WONE)`: the schedule's constant offset.
pub const FIVE_PCT_FP: u64 = 214748364;

/// Largest accepted initial temperature: comfortably above the largest
/// squared color distance, so the sampler can run hot against full-scale
/// color gaps.
pub const T_INIT_MAX: u64 = 0x1_0000_0000_0000;

/// Largest accepted outer iteration count.
pub const ITER_MAX: u64 = 0x100_0000_0000;

/// The annealing schedule in fixed point: iteration `k` of `n` runs at
/// `t_init * (10^(-k/n) - 0.05)`, computed as `2^(-(k/n) * log2(10))` on
/// the fixed-point grid, clamped below by 1 so the temperature can never
/// vanish.
pub open spec fn temperature_spec(t_init: int, k: int, n: int) -> int {
    let q = k * (LOG2_10_FP as int) / n;
    let factor = exp2_neg_spec(q);
    let scaled = factor - (FIVE_PCT_FP as int);
    let t = t_init * scaled / (WONE as int);
    if t < 1 {
        1
    } else {
        t
    }
}

/// The schedule's exponent stays below four whole octaves.
pub proof fn lemma_schedule_exponent_bounds(k: int, n: int)
    requires
        1 <= n,
        0 <= k < n,
    ensures
        0 <= k * (LOG2_10_FP as int) / n < 0x4_0000,
{
    let c = LOG2_10_FP as int;
    assert(k * c >= 0) by (nonlinear_arith)
        requires k >= 0 && c >= 0;
    vstd::arithmetic::div_mod::lemma_div_pos_is_pos(k * c, n);
    assert(k * c < n * 0x4_0000) by (nonlinear_arith)
        requires 0 <= k <= n - 1 && 1 <= n && c == 217705;
    vstd::arithmetic::div_mod::lemma_multiply_divide_lt(k * c, n, 0x4_0000);
}

/// Within the schedule's exponent range the factor stays above the
/// constant offset, with a whole power of two to spare.
pub proof fn lemma_exp2_lower(q: int)
    requires
        0 <= q < 0x4_0000,
    ensures
        exp2_neg_spec(q) >= 0x1000_0000,
{
    let s = q / (FPONE as int);
    let f = q % (FPONE as int);
    assert(0 <= s <= 3 && 0 <= f < FPONE) by {
        vstd::arithmetic::div_mod::lemma_div_pos_is_pos(q, FPONE as int);
        vstd::arithmetic::div_mod::lemma_multiply_divide_lt(q, FPONE as int, 4);
        vstd::arithmetic::div_mod::lemma_mod_division_less_than_divisor(q, FPONE as int);
    }
    let base = pow2((32 - s) as nat) as int;
    assert(base >= 0x2000_0000) by {
        vstd::arithmetic::power2::lemma2_to64();
        if (32 - s) as nat != 29 {
            vstd::arithmetic::power2::lemma_pow2_strictly_increases(29, (32 - s) as nat);
        }
    }
    let half = base / 2;
    assert((half * f) / (FPONE as int) <= half) by {
        assert(half * f <= half * (FPONE as int)) by (nonlinear_arith)
            requires 0 <= f <= FPONE as int && half >= 0;
        vstd::arithmetic::div_mod::lemma_div_is_ordered(
            half * f,
            half * (FPONE as int),
            FPONE as int,
        );
        vstd::arithmetic::div_mod::lemma_div_multiples_vanish(half, FPONE as int);
    }
    assert(exp2_neg_spec(q) >= base - half);
}

/// Computes `temperature_spec` exactly; the clamp keeps every temperature
/// strictly positive, and no temperature exceeds the initial one.
pub fn temperature(t_init: u64, k: usize, n: usize) -> (t: u64)
    requires
        1 <= t_init <= T_INIT_MAX,
        1 <= n,
        n as u64 <= ITER_MAX,
        k < n,
    ensures
        t as int == temperature_spec(t_init as int, k as int, n as int),
        1 <= t <= t_init,
{
    proof {
        lemma_schedule_exponent_bounds(k as int, n as int);
        assert((k as int) * (LOG2_10_FP as int) == (k as u64) as int * (LOG2_10_FP as int));
        assert((k as u64) * LOG2_10_FP <= ITER_MAX * LOG2_10_FP) by (nonlinear_arith)
            requires 0 <= (k as u64) as int <= ITER_MAX as int;
    }
    let q = (k as u64) * LOG2_10_FP / (n as u64);
    let factor = exp2_neg(q);
    proof {
        lemma_exp2_lower(q as int);
    }
    let scaled = factor - FIVE_PCT_FP;
    proof {
        assert((t_init as int) * (scaled as int) <= 0x1_0000_0000_0000_0000_0000)
            by (nonlinear_arith)
            requires 0 <= t_init as int <= 0x1_0000_0000_0000 && 0 <= scaled as int
                <= 0x1_0000_0000;
        assert((t_init as int) * (scaled as int) / (WONE as int) <= t_init as int) by {
            assert((t_init as int) * (scaled as int) <= (t_init as int) * (WONE as int))
                by (nonlinear_arith)
                requires 0 <= scaled as int <= WONE as int && t_init >= 0;
            vstd::arithmetic::div_mod::lemma_div_is_ordered(
                (t_init as int) * (scaled as int),
                (t_init as int) * (WONE as int),
                WONE as int,
            );
            vstd::arithmetic::div_mod::lemma_div_multiples_vanish(t_init as int, WONE as int);
        }
        vstd::arithmetic::div_mod::lemma_div_pos_is_pos((t_init as int) * (scaled as int), WONE as int);
        assert((t_init as int) * (scaled as int) >= 0) by (nonlinear_arith)
            requires t_init as int >= 0 && scaled as int >= 0;
    }
    let t = ((t_init as u128) * (scaled as u128) / (WONE as u128)) as u64;
    if t < 1 {
        1
    } else {
        t
    }
}

impl MK {
    /// Simulated annealing: `n` full Gibbs sweeps, the `k`-th at the
    /// schedule's temperature for iteration `k`, each rewriting the label
    /// grid in place; the grid after the last sweep is the output. The
    /// output is the end of a chain of whole-sweep steps at the scheduled
    /// temperatures, and every label of it names a valid class, under
    /// every random outcome.
    pub fn simulated_annealing(
        self,
        n: usize,
        clique_type: CliqueType,
        beta: u64,
        t_init: u64,
        rng: &mut rand::rngs::StdRng,
    ) -> (r: Vec<usize>)
        requires
            self.wf(),
            beta <= BETA_MAX,
            1 <= t_init <= T_INIT_MAX,
            n as u64 <= ITER_MAX,
        ensures
            r@.len() == self.width * self.height,
            forall|p: int| 0 <= p < r@.len() ==> (#[trigger] r@[p]) < self.num_classes,
            n == 0 ==> r@ == self.x@,
            exists|grids: Seq<Seq<usize>>|
                {
                    &&& grids.len() == n + 1
                    &&& grids[0] == self.x@
                    &&& r@ == grids[n as int]
                    &&& forall|j: int|
                        0 <= j < n ==> #[trigger] sweep_step_rel(
                            self.dist@,
                            grids[j],
                            grids[j + 1],
                            self.width as int,
                            self.height as int,
                            self.num_classes as int,
                            clique_type,
                            beta as int,
                            temperature_spec(t_init as int, j, n as int),
                        )
                },
    {
        let ghost w0 = self.width;
        let ghost h0 = self.height;
        let ghost k0 = self.num_classes;
        let ghost x0 = self.x@;
        let ghost dist0 = self.dist@;
        let mut mk = self;
        let mut k: usize = 0;
        let ghost mut grids: Seq<Seq<usize>> = seq![x0];
        while k < n
            invariant
                mk.wf(),
                beta <= BETA_MAX,
                1 <= t_init <= T_INIT_MAX,
                n as u64 <= ITER_MAX,
                k <= n,
                mk.width == w0,
                mk.height == h0,
                mk.num_classes == k0,
                mk.dist@ == dist0,
                k == 0 ==> mk.x@ == x0,
                grids.len() == k + 1,
                grids[0] == x0,
                grids[k as int] == mk.x@,
                forall|j: int|
                    0 <= j < k ==> #[trigger] sweep_step_rel(
                        dist0,
                        grids[j],
                        grids[j + 1],
                        w0 as int,
                        h0 as int,
                        k0 as int,
                        clique_type,
                        beta as int,
                        temperature_spec(t_init as int, j, n as int),
                    ),
            decreases n - k,
        {
            let t = temperature(t_init, k, n);
            let ghost pre = mk.x@;
            mk.gibbs_sampler(t, clique_type, beta, rng);
            proof {
                grids = grids.push(mk.x@);
                assert(grids[k as int] == pre && grids[k + 1] == mk.x@);
                assert(sweep_step_rel(
                    dist0,
                    grids[k as int],
                    grids[k + 1],
                    w0 as int,
                    h0 as int,
                    k0 as int,
                    clique_type,
                    beta as int,
                    temperature_spec(t_init as int, k as int, n as int),
                ));
            }
            k = k + 1;
        }
        proof {
            assert(grids.len() == n + 1 && grids[0] == x0 && mk.x@ == grids[n as int]);
        }
        mk.x
    }
}


/// Sandwich bounds for the fixed-point factor: within an octave it lies
/// between half the octave's base and the base itself.
pub proof fn lemma_exp2_within(q: int)
    requires
        0 <= q,
    ensures
        q / (FPONE as int) >= 33 ==> exp2_neg_spec(q) == 0,
        q / (FPONE as int) < 33 ==> {
            let base = pow2((32 - q / (FPONE as int)) as nat) as int;
            base - base / 2 <= exp2_neg_spec(q) <= base
        },
        0 <= exp2_neg_spec(q),
{
    let s = q / (FPONE as int);
    let f = q % (FPONE as int);
    vstd::arithmetic::div_mod::lemma_div_pos_is_pos(q, FPONE as int);
    vstd::arithmetic::div_mod::lemma_mod_division_less_than_divisor(q, FPONE as int);
    if s < 33 {
        let base = pow2((32 - s) as nat) as int;
        vstd::arithmetic::power2::lemma_pow2_pos((32 - s) as nat);
        let half = base / 2;
        assert((half * f) / (FPONE as int) <= half) by {
            assert(half * f <= half * (FPONE as int)) by (nonlinear_arith)
                requires 0 <= f <= FPONE as int && half >= 0;
            vstd::arithmetic::div_mod::lemma_div_is_ordered(
                half * f,
                half * (FPONE as int),
                FPONE as int,
            );
            vstd::arithmetic::div_mod::lemma_div_multiples_vanish(half, FPONE as int);
        }
        assert((half * f) / (FPONE as int) >= 0) by {
            assert(half * f >= 0) by (nonlinear_arith)
                requires half >= 0 && f >= 0;
            vstd::arithmetic::div_mod::lemma_div_pos_is_pos(half * f, FPONE as int);
        }
    }
}

/// The fixed-point factor never increases as the exponent grows.
pub proof fn lemma_exp2_neg_nonincreasing(q1: int, q2: int)
    requires
        0 <= q1 <= q2,
    ensures
        exp2_neg_spec(q2) <= exp2_neg_spec(q1),
{
    let fp = FPONE as int;
    let s1 = q1 / fp;
    let s2 = q2 / fp;
    let f1 = q1 % fp;
    let f2 = q2 % fp;
    vstd::arithmetic::div_mod::lemma_div_is_ordered(q1, q2, fp);
    lemma_exp2_within(q1);
    lemma_exp2_within(q2);
    if s2 >= 33 {
    } else if s1 == s2 {
        let base = pow2((32 - s1) as nat) as int;
        let half = base / 2;
        assert(f1 <= f2) by {
            vstd::arithmetic::div_mod::lemma_fundamental_div_mod(q1, fp);
            vstd::arithmetic::div_mod::lemma_fundamental_div_mod(q2, fp);
        }
        assert(half * f1 <= half * f2) by (nonlinear_arith)
            requires f1 <= f2 && half >= 0;
        vstd::arithmetic::div_mod::lemma_div_is_ordered(half * f1, half * f2, fp);
    } else {
        let base1 = pow2((32 - s1) as nat) as int;
        let base2 = pow2((32 - s2) as nat) as int;
        assert(base2 <= base1 / 2) by {
            vstd::arithmetic::power2::lemma_pow2_adds((32 - s1 - 1) as nat, 1);
            vstd::arithmetic::power2::lemma2_to64();
            assert(pow2((32 - s1) as nat) == pow2((32 - s1 - 1) as nat) * 2);
            if (32 - s2) as nat != (32 - s1 - 1) as nat {
                vstd::arithmetic::power2::lemma_pow2_strictly_increases(
                    (32 - s2) as nat,
                    (32 - s1 - 1) as nat,
                );
            }
        }
    }
}

/// Within the schedule's exponent range a strictly larger exponent costs
/// at least `0x800` of factor.
pub proof fn lemma_exp2_neg_gap(q1: int, q2: int)
    requires
        0 <= q1 < q2 < 0x4_0000,
    ensures
        exp2_neg_spec(q2) + 0x800 <= exp2_neg_spec(q1),
{
    let fp = FPONE as int;
    let s1 = q1 / fp;
    let s2 = q2 / fp;
    let f1 = q1 % fp;
    let f2 = q2 % fp;
    vstd::arithmetic::div_mod::lemma_div_is_ordered(q1, q2, fp);
    assert(0 <= s1 && s1 <= s2 <= 3) by {
        vstd::arithmetic::div_mod::lemma_div_pos_is_pos(q1, fp);
        vstd::arithmetic::div_mod::lemma_multiply_divide_lt(q2, fp, 4);
    }
    vstd::arithmetic::div_mod::lemma_mod_division_less_than_divisor(q1, fp);
    vstd::arithmetic::div_mod::lemma_mod_division_less_than_divisor(q2, fp);
    let base1 = pow2((32 - s1) as nat) as int;
    let half1 = base1 / 2;
    assert(base1 >= 0x2000_0000 && base1 == half1 * 2) by {
        vstd::arithmetic::power2::lemma2_to64();
        if (32 - s1) as nat != 29 {
            vstd::arithmetic::power2::lemma_pow2_strictly_increases(29, (32 - s1) as nat);
        }
        vstd::arithmetic::power2::lemma_pow2_adds((31 - s1) as nat, 1);
        assert(pow2((32 - s1) as nat) == pow2((31 - s1) as nat) * 2);
    }
    assert(half1 >= 0x1000_0000);
    if s1 == s2 {
        assert(f1 < f2) by {
            vstd::arithmetic::div_mod::lemma_fundamental_div_mod(q1, fp);
            vstd::arithmetic::div_mod::lemma_fundamental_div_mod(q2, fp);
        }
        assert(half1 * f2 >= half1 * f1 + half1) by (nonlinear_arith)
            requires f2 >= f1 + 1 && half1 >= 0;
        assert(half1 >= 0x1000 * fp);
        assert((half1 * f2) / fp >= (half1 * f1) / fp + 0x1000) by {
            assert(half1 * f2 >= half1 * f1 + 0x1000 * fp);
            vstd::arithmetic::div_mod::lemma_hoist_over_denominator(
                half1 * f1,
                0x1000,
                FPONE as nat,
            );
            vstd::arithmetic::div_mod::lemma_div_is_ordered(
                half1 * f1 + 0x1000 * fp,
                half1 * f2,
                fp,
            );
        }
    } else {
        let base2 = pow2((32 - s2) as nat) as int;
        assert(base2 <= half1) by {
            vstd::arithmetic::power2::lemma_pow2_adds((31 - s1) as nat, 1);
            vstd::arithmetic::power2::lemma2_to64();
            assert(pow2((32 - s1) as nat) == pow2((31 - s1) as nat) * 2);
            if (32 - s2) as nat != (31 - s1) as nat {
                vstd::arithmetic::power2::lemma_pow2_strictly_increases(
                    (32 - s2) as nat,
                    (31 - s1) as nat,
                );
            }
        }
        lemma_exp2_within(q2);
        assert(exp2_neg_spec(q2) <= base2);
        assert((half1 * f1) / fp <= half1 - 0x1000) by {
            assert(half1 * f1 <= half1 * (fp - 1)) by (nonlinear_arith)
                requires f1 <= fp - 1 && half1 >= 0;
            assert(half1 * (fp - 1) == half1 * fp - half1) by (nonlinear_arith);
            assert(half1 * fp - half1 <= (half1 - 0x1000) * fp) by {
                assert((half1 - 0x1000) * fp == half1 * fp - 0x1000 * fp) by (nonlinear_arith);
            }
            vstd::arithmetic::div_mod::lemma_div_is_ordered(
                half1 * f1,
                (half1 - 0x1000) * fp,
                fp,
            );
            vstd::arithmetic::div_mod::lemma_div_multiples_vanish(half1 - 0x1000, fp);
        }
        assert(exp2_neg_spec(q1) >= base1 - (half1 - 0x1000));
    }
}

/// Schedule monotonicity, general form: a later iteration never runs
/// hotter.
pub proof fn lemma_schedule_monotonic(t_init: int, k1: int, k2: int, n: int)
    requires
        1 <= n,
        0 <= k1 <= k2 < n,
        0 <= t_init,
    ensures
        temperature_spec(t_init, k2, n) <= temperature_spec(t_init, k1, n),
{
    let c = LOG2_10_FP as int;
    let q1 = k1 * c / n;
    let q2 = k2 * c / n;
    assert(k1 * c <= k2 * c) by (nonlinear_arith)
        requires k1 <= k2 && c >= 0;
    vstd::arithmetic::div_mod::lemma_div_is_ordered(k1 * c, k2 * c, n);
    assert(k1 * c >= 0) by (nonlinear_arith)
        requires k1 >= 0 && c >= 0;
    vstd::arithmetic::div_mod::lemma_div_pos_is_pos(k1 * c, n);
    lemma_exp2_neg_nonincreasing(q1, q2);
    let sc1 = exp2_neg_spec(q1) - (FIVE_PCT_FP as int);
    let sc2 = exp2_neg_spec(q2) - (FIVE_PCT_FP as int);
    assert(t_init * sc2 <= t_init * sc1) by (nonlinear_arith)
        requires sc2 <= sc1 && t_init >= 0;
    vstd::arithmetic::div_mod::lemma_div_is_ordered(t_init * sc2, t_init * sc1, WONE as int);
}

/// Schedule monotonicity, strict form: with at least `0x20_0000` of
/// initial temperature and no more annealing iterations than
/// `LOG2_10_FP`, the clamped schedule is strictly decreasing.
pub proof fn lemma_schedule_strictly_decreasing(t_init: int, k1: int, k2: int, n: int)
    requires
        2 <= n <= LOG2_10_FP,
        0 <= k1 < k2 < n,
        0x20_0000 <= t_init <= T_INIT_MAX,
    ensures
        temperature_spec(t_init, k2, n) < temperature_spec(t_init, k1, n),
{
    let c = LOG2_10_FP as int;
    let wone = WONE as int;
    let q1 = k1 * c / n;
    let q2 = k2 * c / n;
    assert(k1 * c >= 0) by (nonlinear_arith)
        requires k1 >= 0 && c >= 0;
    vstd::arithmetic::div_mod::lemma_div_pos_is_pos(k1 * c, n);
    lemma_schedule_exponent_bounds(k1 as int, n);
    lemma_schedule_exponent_bounds(k2 as int, n);
    assert(q1 < q2) by {
        assert(k2 * c >= k1 * c + c) by (nonlinear_arith)
            requires k2 >= k1 + 1 && c >= 0;
        assert(k1 * c + n <= k2 * c) by {
            assert(n <= c);
        }
        vstd::arithmetic::div_mod::lemma_hoist_over_denominator(k1 * c, 1, n as nat);
        vstd::arithmetic::div_mod::lemma_div_is_ordered(k1 * c + 1 * n, k2 * c, n);
        assert(q2 >= q1 + 1);
    }
    lemma_exp2_neg_gap(q1, q2);
    lemma_exp2_lower(q1);
    lemma_exp2_lower(q2);
    let f1 = exp2_neg_spec(q1);
    let f2 = exp2_neg_spec(q2);
    let sc1 = f1 - (FIVE_PCT_FP as int);
    let sc2 = f2 - (FIVE_PCT_FP as int);
    assert(sc2 >= 0x1000_0000 - 214748364 && sc1 >= sc2 + 0x800);
    let t1u = t_init * sc1 / wone;
    let t2u = t_init * sc2 / wone;
    assert(t2u >= 1) by {
        assert(t_init * sc2 >= 0x20_0000 * 0x3330BC4) by (nonlinear_arith)
            requires t_init >= 0x20_0000 && sc2 >= 0x3330BC4;
        vstd::arithmetic::div_mod::lemma_div_is_ordered(wone, t_init * sc2, wone);
        vstd::arithmetic::div_mod::lemma_div_by_self(wone);
    }
    assert(t1u >= t2u + 1) by {
        assert(t_init * sc1 >= t_init * sc2 + t_init * 0x800) by (nonlinear_arith)
            requires sc1 >= sc2 + 0x800 && t_init >= 0;
        assert(t_init * 0x800 >= 0x1_0000_0000) by (nonlinear_arith)
            requires t_init >= 0x20_0000;
        assert(t_init * 0x800 >= wone);
        vstd::arithmetic::div_mod::lemma_hoist_over_denominator(t_init * sc2, 1, WONE as nat);
        vstd::arithmetic::div_mod::lemma_div_is_ordered(
            t_init * sc2 + 1 * wone,
            t_init * sc1,
            wone,
        );
    }
}


/// The factor always lies between 0 and `WONE`.
pub proof fn lemma_exp2_range(q: int)
    requires
        0 <= q,
    ensures
        0 <= exp2_neg_spec(q) <= WONE,
{
    lemma_exp2_within(q);
    let s = q / (FPONE as int);
    vstd::arithmetic::div_mod::lemma_div_pos_is_pos(q, FPONE as int);
    if s < 33 {
        assert(pow2((32 - s) as nat) <= pow2(32)) by {
            vstd::arithmetic::power2::lemma2_to64();
            if (32 - s) as nat != 32 {
                vstd::arithmetic::power2::lemma_pow2_strictly_increases((32 - s) as nat, 32);
            }
        }
        vstd::arithmetic::power2::lemma2_to64();
    }
}

/// A weight table that is zero away from `c` sums to exactly its entry at
/// `c`.
pub proof fn lemma_wsum_single(ws: Seq<u64>, n: int, c: int)
    requires
        0 <= c < n <= ws.len(),
        forall|j: int| 0 <= j < n && j != c ==> #[trigger] ws[j] == 0,
    ensures
        wsum(ws, n) == ws[c] as int,
    decreases n,
{
    if n - 1 == c {
        lemma_wsum_zero(ws, n - 1);
    } else {
        lemma_wsum_single(ws, n - 1, c);
    }
}

/// An all-zero prefix sums to zero.
pub proof fn lemma_wsum_zero(ws: Seq<u64>, n: int)
    requires
        0 <= n <= ws.len(),
        forall|j: int| 0 <= j < n ==> #[trigger] ws[j] == 0,
    ensures
        wsum(ws, n) == 0,
    decreases n,
{
    if n > 0 {
        lemma_wsum_zero(ws, n - 1);
    }
}

/// A pointwise-smaller weight table has a no-larger sum.
pub proof fn lemma_wsum_pointwise_le(a: Seq<u64>, b: Seq<u64>, n: int)
    requires
        0 <= n <= a.len(),
        n <= b.len(),
        forall|j: int| 0 <= j < n ==> #[trigger] a[j] <= b[j],
    ensures
        wsum(a, n) <= wsum(b, n),
    decreases n,
{
    if n > 0 {
        lemma_wsum_pointwise_le(a, b, n - 1);
    }
}

/// Pure-unary limit: with `beta == 0` and a temperature small against the
/// unary gaps — every other class at least `33 * t` of squared distance
/// above the best one — a resampling step at the pixel returns the unary
/// argmin, whatever the random draw: the weight table is zero everywhere
/// but at the argmin, so every admissible draw selects it.
pub proof fn lemma_pure_unary_limit(
    mk: MK,
    x: int,
    y: int,
    ct: CliqueType,
    t: int,
    u: int,
    cmin: int,
)
    requires
        mk.wf(),
        0 <= x < mk.width,
        0 <= y < mk.height,
        1 <= t,
        0 <= cmin < mk.num_classes,
        forall|c: int|
            0 <= c < mk.num_classes && c != cmin ==> mk.dist@[y * mk.width + x]@[cmin] + 33 * t
                <= #[trigger] mk.dist@[y * mk.width + x]@[c] as int,
        0 <= u < wsum(
            step_weights(mk, x, y, ct, 0, t),
            step_weights(mk, x, y, ct, 0, t).len() as int,
        ),
    ensures
        sample_spec(step_weights(mk, x, y, ct, 0, t), u) == cmin,
{
    let k = mk.num_classes as int;
    let p = y * mk.width + x;
    assert(0 <= y * (mk.width as int) + x && y * (mk.width as int) + x < (mk.width as int) * (
    mk.height as int)) by (nonlinear_arith)
        requires 0 <= x < mk.width as int && 0 <= y < mk.height as int;
    assert(0 <= p < mk.grid_len());
    let es = energies_seq(mk, x, y, ct, 0);
    assert forall|c: int| 0 <= c < k implies #[trigger] es[c] as int == mk.dist@[p]@[c] as int by {
        assert(mk.energy_spec(x, y, c, ct, 0) == mk.dist@[p]@[c] as int + 0 * disagreements(
            mk.x@,
            mk.width as int,
            mk.height as int,
            x,
            y,
            c,
            ct,
        ));
        lemma_energy_spec_bounds(mk, x, y, c, ct, 0);
    }
    assert forall|c: int| 0 <= c < k && c != cmin implies es[cmin] as int + 33 * t <= (
    #[trigger] es[c]) as int by {
        assert(mk.dist@[p]@[cmin] as int + 33 * t <= mk.dist@[p]@[c] as int);
    }
    lemma_weights_concentrated(es, t, u, cmin, step_weights(mk, x, y, ct, 0, t));
}

/// How many of the first `n` offsets land inside the grid.
pub open spec fn inbounds_upto(
    w: int,
    h: int,
    x: int,
    y: int,
    offs: Seq<(i64, i64)>,
    n: int,
) -> int
    decreases n,
{
    if n <= 0 {
        0
    } else {
        let nx = x + offs[n - 1].0 as int;
        let ny = y + offs[n - 1].1 as int;
        inbounds_upto(w, h, x, y, offs, n - 1) + if 0 <= nx < w && 0 <= ny < h {
            1int
        } else {
            0int
        }
    }
}

/// When every in-bounds neighbor carries label `s`, class `s` disagrees
/// with nobody and every other class disagrees with every in-bounds
/// neighbor.
pub proof fn lemma_disagree_uniform(
    labels: Seq<usize>,
    w: int,
    h: int,
    x: int,
    y: int,
    c: int,
    s: int,
    offs: Seq<(i64, i64)>,
    n: int,
)
    requires
        0 <= n <= offs.len(),
        forall|oi: int|
            0 <= oi < offs.len() ==> {
                let nx = x + (#[trigger] offs[oi]).0 as int;
                let ny = y + offs[oi].1 as int;
                (0 <= nx < w && 0 <= ny < h) ==> 0 <= ny * w + nx < labels.len() && labels[ny * w
                    + nx] as int == s
            },
    ensures
        disagree_upto(labels, w, h, x, y, c, offs, n) == if c == s {
            0int
        } else {
            inbounds_upto(w, h, x, y, offs, n)
        },
        0 <= inbounds_upto(w, h, x, y, offs, n) <= n,
    decreases n,
{
    if n > 0 {
        lemma_disagree_uniform(labels, w, h, x, y, c, s, offs, n - 1);
    }
}

/// Regularization monotonicity: at a pixel whose in-bounds neighbors all
/// carry one label `s`, and with `beta1` already large enough that class
/// `s` has the lowest energy, raising the penalty to `beta2 >= beta1`
/// keeps `s`'s weight pinned at `WONE` while the total weight — the
/// denominator of the categorical draw — does not grow: the share of
/// random draws that relabel the pixel to its surroundings' label never
/// falls as `beta` rises.
pub proof fn lemma_regularization_monotonic(
    mk: MK,
    x: int,
    y: int,
    ct: CliqueType,
    t: int,
    s: int,
    beta1: int,
    beta2: int,
)
    requires
        mk.wf(),
        0 <= x < mk.width,
        0 <= y < mk.height,
        1 <= t,
        0 <= s < mk.num_classes,
        0 <= beta1 <= beta2 <= BETA_MAX,
        forall|oi: int|
            0 <= oi < neighbor_offsets(ct).len() ==> {
                let nx = x + (#[trigger] neighbor_offsets(ct)[oi]).0 as int;
                let ny = y + neighbor_offsets(ct)[oi].1 as int;
                (0 <= nx < mk.width && 0 <= ny < mk.height) ==> mk.x@[ny * mk.width + nx] as int
                    == s
            },
        forall|c: int|
            0 <= c < mk.num_classes ==> mk.dist@[y * mk.width + x]@[s] as int
                <= #[trigger] mk.dist@[y * mk.width + x]@[c] as int + beta1 * inbounds_upto(
                mk.width as int,
                mk.height as int,
                x,
                y,
                neighbor_offsets(ct),
                neighbor_offsets(ct).len() as int,
            ),
    ensures
        step_weights(mk, x, y, ct, beta1, t)[s] == WONE,
        step_weights(mk, x, y, ct, beta2, t)[s] == WONE,
        wsum(
            step_weights(mk, x, y, ct, beta2, t),
            step_weights(mk, x, y, ct, beta2, t).len() as int,
        ) <= wsum(
            step_weights(mk, x, y, ct, beta1, t),
            step_weights(mk, x, y, ct, beta1, t).len() as int,
        ),
{
    let k = mk.num_classes as int;
    let w = mk.width as int;
    let h = mk.height as int;
    let p = y * w + x;
    assert(0 <= y * w + x && y * w + x < w * h) by (nonlinear_arith)
        requires 0 <= x < w && 0 <= y < h;
    assert(0 <= p < mk.grid_len());
    let offs = neighbor_offsets(ct);
    let deg = inbounds_upto(w, h, x, y, offs, offs.len() as int);
    assert forall|oi: int|
        0 <= oi < offs.len() implies {
        let nx = x + (#[trigger] offs[oi]).0 as int;
        let ny = y + offs[oi].1 as int;
        (0 <= nx < w && 0 <= ny < h) ==> 0 <= ny * w + nx < mk.x@.len() && mk.x@[ny * w + nx] as int
            == s
    } by {
        let nx = x + offs[oi].0 as int;
        let ny = y + offs[oi].1 as int;
        if 0 <= nx < w && 0 <= ny < h {
            assert(0 <= ny * w + nx < w * h) by (nonlinear_arith)
                requires 0 <= nx < w && 0 <= ny < h;
        }
    }
    assert forall|c: int| 0 <= c < k implies disagreements(mk.x@, w, h, x, y, c, ct) == (if c == s {
        0int
    } else {
        deg
    }) && 0 <= deg <= 8 by {
        lemma_disagree_uniform(mk.x@, w, h, x, y, c, s, offs, offs.len() as int);
    }
    let es1 = energies_seq(mk, x, y, ct, beta1);
    let es2 = energies_seq(mk, x, y, ct, beta2);
    assert forall|c: int| 0 <= c < k implies (#[trigger] es1[c]) as int == mk.energy_spec(
        x,
        y,
        c,
        ct,
        beta1,
    ) by {
        lemma_energy_spec_bounds(mk, x, y, c, ct, beta1);
    }
    assert forall|c: int| 0 <= c < k implies (#[trigger] es2[c]) as int == mk.energy_spec(
        x,
        y,
        c,
        ct,
        beta2,
    ) by {
        lemma_energy_spec_bounds(mk, x, y, c, ct, beta2);
    }
    assert(es1[s] as int == mk.dist@[p]@[s] as int && es2[s] as int == mk.dist@[p]@[s] as int) by {
        assert(beta1 * 0 == 0) by (nonlinear_arith);
        assert(beta2 * 0 == 0) by (nonlinear_arith);
    }
    assert forall|c: int| 0 <= c < k implies es1[s] as int <= (#[trigger] es1[c]) as int by {
        if c != s {
            assert(es1[c] as int == mk.dist@[p]@[c] as int + beta1 * deg);
            assert(beta1 * deg >= 0) by (nonlinear_arith)
                requires beta1 >= 0 && deg >= 0;
        }
    }
    assert forall|c: int| 0 <= c < k implies es2[s] as int <= (#[trigger] es2[c]) as int by {
        if c != s {
            assert(es2[c] as int == mk.dist@[p]@[c] as int + beta2 * deg);
            assert(beta1 * deg <= beta2 * deg) by (nonlinear_arith)
                requires beta1 <= beta2 && deg >= 0;
            assert(beta1 * deg >= 0) by (nonlinear_arith)
                requires beta1 >= 0 && deg >= 0;
        }
    }
    assert forall|c: int| 0 <= c < k implies (#[trigger] es1[c]) as int <= es2[c] as int by {
        if c != s {
            assert(es1[c] as int == mk.dist@[p]@[c] as int + beta1 * deg);
            assert(es2[c] as int == mk.dist@[p]@[c] as int + beta2 * deg);
            assert(beta1 * deg <= beta2 * deg) by (nonlinear_arith)
                requires beta1 <= beta2 && deg >= 0;
        }
    }
    let emin1 = min_energy_upto(es1, k);
    let emin2 = min_energy_upto(es2, k);
    lemma_min_energy_props(es1, k);
    lemma_min_energy_props(es2, k);
    assert(emin1 == es1[s] as int) by {
        let j = choose|j: int| 0 <= j < k && emin1 == es1[j] as int;
        assert(es1[s] as int <= es1[j] as int);
    }
    assert(emin2 == es2[s] as int) by {
        let j = choose|j: int| 0 <= j < k && emin2 == es2[j] as int;
        assert(es2[s] as int <= es2[j] as int);
    }
    let ws1 = step_weights(mk, x, y, ct, beta1, t);
    let ws2 = step_weights(mk, x, y, ct, beta2, t);
    assert(ws1[s] == WONE && ws2[s] == WONE) by {
        assert((es1[s] as int - emin1) * (FPONE as int) == 0) by (nonlinear_arith)
            requires es1[s] as int - emin1 == 0;
        assert((es2[s] as int - emin2) * (FPONE as int) == 0) by (nonlinear_arith)
            requires es2[s] as int - emin2 == 0;
        assert(0int / t == 0) by {
            vstd::arithmetic::div_mod::lemma_div_of0(t);
        }
        lemma_exp2_neg_zero();
    }
    assert forall|c: int| 0 <= c < k implies (#[trigger] ws2[c]) <= ws1[c] by {
        assert(es1[c] as int <= es2[c] as int);
        assert(es1[s] as int <= es1[c] as int);
        assert(es2[s] as int <= es2[c] as int);
        let gap1 = es1[c] as int - emin1;
        let gap2 = es2[c] as int - emin2;
        assert(gap1 <= gap2);
        let q1 = gap1 * (FPONE as int) / t;
        let q2 = gap2 * (FPONE as int) / t;
        assert(gap1 * (FPONE as int) <= gap2 * (FPONE as int)) by (nonlinear_arith)
            requires gap1 <= gap2 && FPONE as int > 0;
        assert(gap1 * (FPONE as int) >= 0) by (nonlinear_arith)
            requires gap1 >= 0 && FPONE as int > 0;
        vstd::arithmetic::div_mod::lemma_div_is_ordered(
            gap1 * (FPONE as int),
            gap2 * (FPONE as int),
            t,
        );
        vstd::arithmetic::div_mod::lemma_div_pos_is_pos(gap1 * (FPONE as int), t);
        lemma_exp2_neg_nonincreasing(q1, q2);
        lemma_exp2_range(q1);
        vstd::arithmetic::div_mod::lemma_div_pos_is_pos(gap2 * (FPONE as int), t);
        assert(gap2 * (FPONE as int) >= 0) by (nonlinear_arith)
            requires gap2 >= 0 && FPONE as int > 0;
        lemma_exp2_range(q2);
        assert(ws1[c] as int == weight_spec(es1[c] as int, emin1, t));
        assert(ws2[c] as int == weight_spec(es2[c] as int, emin2, t));
    }
    lemma_wsum_pointwise_le(ws2, ws1, k);
}


/// Every pixel's label is locked: each rival class's unary cost exceeds
/// the label's own by at least the sampling threshold `33 * t` plus the
/// largest possible pairwise swing `8 * beta`, so no neighbor
/// configuration and no admissible draw can dislodge any label.
pub open spec fn unary_locked(
    dist: Seq<Vec<u64>>,
    labels: Seq<usize>,
    k: int,
    beta: int,
    t: int,
) -> bool {
    forall|p: int, c: int|
        0 <= p < labels.len() && 0 <= c < k && c != labels[p] as int ==> (
        #[trigger] dist[p]@[labels[p] as int]) as int + 33 * t + 8 * beta <= (
        #[trigger] dist[p]@[c]) as int
}

/// When one energy sits at least `33 * t` below every other, its weight is
/// `WONE`, every other weight underflows to zero, and every admissible
/// draw selects it.
proof fn lemma_weights_concentrated(es: Seq<u64>, t: int, u: int, cmin: int, ws: Seq<u64>)
    requires
        1 <= t,
        0 <= cmin < es.len(),
        forall|c: int|
            0 <= c < es.len() && c != cmin ==> es[cmin] as int + 33 * t <= (#[trigger] es[c]) as int,
        ws == Seq::new(
            es.len(),
            |c: int|
                weight_spec(es[c] as int, min_energy_upto(es, es.len() as int), t) as u64,
        ),
        0 <= u < wsum(ws, ws.len() as int),
    ensures
        sample_spec(ws, u) == cmin,
{
    let k = es.len() as int;
    let emin = min_energy_upto(es, k);
    lemma_min_energy_props(es, k);
    assert(emin == es[cmin] as int) by {
        let j = choose|j: int| 0 <= j < k && emin == es[j] as int;
        if j != cmin {
            assert(es[cmin] as int + 33 * t <= es[j] as int);
        }
    }
    assert forall|c: int| 0 <= c < k && c != cmin implies #[trigger] ws[c] == 0 by {
        let gap = es[c] as int - emin;
        assert(gap >= 33 * t);
        let q = gap * (FPONE as int) / t;
        assert(q >= 33 * (FPONE as int)) by {
            assert(gap * (FPONE as int) >= 33 * t * (FPONE as int)) by (nonlinear_arith)
                requires gap >= 33 * t && t >= 1 && FPONE as int > 0;
            assert(33 * t * (FPONE as int) == (33 * (FPONE as int)) * t) by (nonlinear_arith);
            vstd::arithmetic::div_mod::lemma_div_is_ordered(
                (33 * (FPONE as int)) * t,
                gap * (FPONE as int),
                t,
            );
            vstd::arithmetic::div_mod::lemma_div_multiples_vanish(33 * (FPONE as int), t);
        }
        assert(q / (FPONE as int) >= 33) by {
            vstd::arithmetic::div_mod::lemma_div_is_ordered(33 * (FPONE as int), q, FPONE as int);
            vstd::arithmetic::div_mod::lemma_div_multiples_vanish(33, FPONE as int);
        }
        assert(exp2_neg_spec(q) == 0);
    }
    assert(ws[cmin] == WONE) by {
        assert((es[cmin] as int - emin) * (FPONE as int) == 0) by (nonlinear_arith)
            requires es[cmin] as int - emin == 0;
        assert(0int / t == 0) by {
            vstd::arithmetic::div_mod::lemma_div_of0(t);
        }
        lemma_exp2_neg_zero();
    }
    lemma_wsum_single(ws, k, cmin);
    lemma_sample_zero_prefix(ws, u, cmin);
}

/// One resampling step at a pixel of a unary-locked grid redraws the
/// pixel's own label, whatever the admissible draw.
pub proof fn lemma_locked_pixel_step(
    dist: Seq<Vec<u64>>,
    labels: Seq<usize>,
    w: int,
    h: int,
    k: int,
    x: int,
    y: int,
    ct: CliqueType,
    beta: int,
    t: int,
    u: int,
)
    requires
        1 <= t,
        0 <= beta <= BETA_MAX,
        1 <= k,
        0 <= x < w,
        0 <= y < h,
        labels.len() == w * h,
        forall|p: int| 0 <= p < labels.len() ==> (#[trigger] labels[p]) < k,
        forall|p: int, c: int|
            0 <= p < labels.len() && 0 <= c < k ==> (#[trigger] dist[p]@[c]) <= DIST_SQ_MAX,
        unary_locked(dist, labels, k, beta, t),
        0 <= u < wsum(weights_at(dist, labels, w, h, k, x, y, ct, beta, t), k),
    ensures
        sample_spec(weights_at(dist, labels, w, h, k, x, y, ct, beta, t), u) == labels[y * w
            + x] as int,
{
    let p = y * w + x;
    assert(0 <= y * w + x && y * w + x < w * h) by (nonlinear_arith)
        requires 0 <= x < w && 0 <= y < h;
    let lp = labels[p] as int;
    let es = energies_at(dist, labels, w, h, k, x, y, ct, beta);
    assert forall|c: int| 0 <= c < k implies {
        &&& (#[trigger] es[c]) as int == energy_at(dist, labels, w, h, x, y, c, ct, beta)
        &&& dist[p]@[c] as int <= es[c] as int
        &&& es[c] as int <= dist[p]@[c] as int + 8 * beta
    } by {
        let offs = neighbor_offsets(ct);
        lemma_disagree_upto_bounds(labels, w, h, x, y, c, offs, offs.len() as int);
        let d = disagreements(labels, w, h, x, y, c, ct);
        assert(0 <= beta * d <= beta * 8) by (nonlinear_arith)
            requires 0 <= beta && 0 <= d <= 8;
    }
    assert forall|c: int| 0 <= c < k && c != lp implies es[lp] as int + 33 * t <= (
    #[trigger] es[c]) as int by {
        assert(dist[p]@[lp] as int + 33 * t + 8 * beta <= dist[p]@[c] as int);
    }
    lemma_weights_concentrated(
        es,
        t,
        u,
        lp,
        weights_at(dist, labels, w, h, k, x, y, ct, beta, t),
    );
}

/// A unary-locked grid is a fixed point of a whole sweep: each step
/// redraws the pixel's own label, so the grid after any number of steps is
/// the grid before, under every admissible draw sequence. This is the
/// exact form of the end-to-end invariance: once every pixel's unary cost
/// is far enough below its rivals, the labeling survives relaxation
/// unchanged.
#[verifier::rlimit(50)]
pub proof fn lemma_sweep_fixes_locked_grid(
    dist: Seq<Vec<u64>>,
    labels: Seq<usize>,
    w: int,
    h: int,
    k: int,
    order: Seq<(usize, usize)>,
    us: Seq<u64>,
    ct: CliqueType,
    beta: int,
    t: int,
    n: int,
)
    requires
        1 <= t,
        0 <= beta <= BETA_MAX,
        1 <= k,
        labels.len() == w * h,
        forall|p: int| 0 <= p < labels.len() ==> (#[trigger] labels[p]) < k,
        forall|p: int, c: int|
            0 <= p < labels.len() && 0 <= c < k ==> (#[trigger] dist[p]@[c]) <= DIST_SQ_MAX,
        unary_locked(dist, labels, k, beta, t),
        0 <= n <= order.len(),
        forall|i: int| 0 <= i < order.len() ==> (#[trigger] order[i]).0 < w && order[i].1 < h,
        forall|i: int|
            0 <= i < n ==> ((#[trigger] us[i]) as int) < wsum(
                weights_at(
                    dist,
                    sweep_labels(dist, labels, w, h, k, order, us, ct, beta, t, i),
                    w,
                    h,
                    k,
                    order[i].0 as int,
                    order[i].1 as int,
                    ct,
                    beta,
                    t,
                ),
                k,
            ),
    ensures
        sweep_labels(dist, labels, w, h, k, order, us, ct, beta, t, n) == labels,
    decreases n,
{
    if n > 0 {
        lemma_sweep_fixes_locked_grid(dist, labels, w, h, k, order, us, ct, beta, t, n - 1);
        let x = order[n - 1].0 as int;
        let y = order[n - 1].1 as int;
        assert((us[n - 1] as int) < wsum(
            weights_at(dist, labels, w, h, k, x, y, ct, beta, t),
            k,
        ));
        lemma_locked_pixel_step(dist, labels, w, h, k, x, y, ct, beta, t, us[n - 1] as int);
        let p = y * w + x;
        assert(0 <= y * w + x && y * w + x < w * h) by (nonlinear_arith)
            requires 0 <= x < w && 0 <= y < h;
        assert(labels.update(p, labels[p] as usize) =~= labels);
    }
}


/// The scheduled temperature always lies between the clamp and the
/// initial temperature.
pub proof fn lemma_temperature_spec_range(t_init: int, k: int, n: int)
    requires
        1 <= t_init,
        1 <= n,
        0 <= k < n,
    ensures
        1 <= temperature_spec(t_init, k, n) <= t_init,
{
    let c = LOG2_10_FP as int;
    let wone = WONE as int;
    let q = k * c / n;
    lemma_schedule_exponent_bounds(k, n);
    lemma_exp2_lower(q);
    lemma_exp2_range(q);
    let factor = exp2_neg_spec(q);
    let scaled = factor - (FIVE_PCT_FP as int);
    assert(0 <= scaled <= wone);
    assert(t_init * scaled / wone <= t_init) by {
        assert(t_init * scaled <= t_init * wone) by (nonlinear_arith)
            requires 0 <= scaled <= wone && t_init >= 0;
        vstd::arithmetic::div_mod::lemma_div_is_ordered(t_init * scaled, t_init * wone, wone);
        vstd::arithmetic::div_mod::lemma_div_multiples_vanish(t_init, wone);
    }
}

/// The end-to-end invariance, run level: a unary-locked grid — every
/// pixel's rival classes at least `33 * t_init + 8 * beta` of unary cost
/// above its own label — survives a whole annealing chain unchanged,
/// whatever draws the sweeps consumed: each scheduled temperature is at
/// most `t_init`, so every sweep of the chain fixes the grid.
pub proof fn lemma_annealing_fixes_locked_grid(
    dist: Seq<Vec<u64>>,
    labels: Seq<usize>,
    w: int,
    h: int,
    k: int,
    grids: Seq<Seq<usize>>,
    n: int,
    ct: CliqueType,
    beta: int,
    t_init: int,
)
    requires
        1 <= t_init,
        0 <= beta <= BETA_MAX,
        1 <= k,
        labels.len() == w * h,
        forall|p: int| 0 <= p < labels.len() ==> (#[trigger] labels[p]) < k,
        forall|p: int, c: int|
            0 <= p < labels.len() && 0 <= c < k ==> (#[trigger] dist[p]@[c]) <= DIST_SQ_MAX,
        unary_locked(dist, labels, k, beta, t_init),
        0 <= n,
        grids.len() == n + 1,
        grids[0] == labels,
        forall|j: int|
            0 <= j < n ==> #[trigger] sweep_step_rel(
                dist,
                grids[j],
                grids[j + 1],
                w,
                h,
                k,
                ct,
                beta,
                temperature_spec(t_init, j, n),
            ),
    ensures
        grids[n] == labels,
{
    lemma_annealing_locked_prefix(dist, labels, w, h, k, grids, n, ct, beta, t_init, n);
}

proof fn lemma_annealing_locked_prefix(
    dist: Seq<Vec<u64>>,
    labels: Seq<usize>,
    w: int,
    h: int,
    k: int,
    grids: Seq<Seq<usize>>,
    n: int,
    ct: CliqueType,
    beta: int,
    t_init: int,
    m: int,
)
    requires
        1 <= t_init,
        0 <= beta <= BETA_MAX,
        1 <= k,
        labels.len() == w * h,
        forall|p: int| 0 <= p < labels.len() ==> (#[trigger] labels[p]) < k,
        forall|p: int, c: int|
            0 <= p < labels.len() && 0 <= c < k ==> (#[trigger] dist[p]@[c]) <= DIST_SQ_MAX,
        unary_locked(dist, labels, k, beta, t_init),
        0 <= m <= n,
        grids.len() == n + 1,
        grids[0] == labels,
        forall|j: int|
            0 <= j < n ==> #[trigger] sweep_step_rel(
                dist,
                grids[j],
                grids[j + 1],
                w,
                h,
                k,
                ct,
                beta,
                temperature_spec(t_init, j, n),
            ),
    ensures
        grids[m] == labels,
    decreases m,
{
    if m > 0 {
        lemma_annealing_locked_prefix(dist, labels, w, h, k, grids, n, ct, beta, t_init, m - 1);
        let tj = temperature_spec(t_init, m - 1, n);
        lemma_temperature_spec_range(t_init, m - 1, n);
        assert(unary_locked(dist, labels, k, beta, tj)) by {
            assert forall|p: int, c: int|
                0 <= p < labels.len() && 0 <= c < k && c != labels[p] as int implies (
            #[trigger] dist[p]@[labels[p] as int]) as int + 33 * tj + 8 * beta <= (
            #[trigger] dist[p]@[c]) as int by {
                assert(dist[p]@[labels[p] as int] as int + 33 * t_init + 8 * beta <= dist[p]@[c] as int);
            }
        }
        assert(sweep_step_rel(
            dist,
            grids[m - 1],
            grids[(m - 1) + 1],
            w,
            h,
            k,
            ct,
            beta,
            temperature_spec(t_init, m - 1, n),
        ));
        assert(sweep_step_rel(dist, grids[m - 1], grids[m], w, h, k, ct, beta, tj));
        let (order, us) = choose|order: Seq<(usize, usize)>, us: Seq<u64>|
            {
                &&& sweep_order_wf(order, w, h)
                &&& us.len() == order.len()
                &&& (forall|i: int|
                    0 <= i < order.len() ==> ((#[trigger] us[i]) as int) < wsum(
                        weights_at(
                            dist,
                            sweep_labels(dist, grids[m - 1], w, h, k, order, us, ct, beta, tj, i),
                            w,
                            h,
                            k,
                            order[i].0 as int,
                            order[i].1 as int,
                            ct,
                            beta,
                            tj,
                        ),
                        k,
                    ))
                &&& grids[m] == #[trigger] sweep_labels(
                    dist,
                    grids[m - 1],
                    w,
                    h,
                    k,
                    order,
                    us,
                    ct,
                    beta,
                    tj,
                    order.len() as int,
                )
            };
        lemma_sweep_fixes_locked_grid(
            dist,
            labels,
            w,
            h,
            k,
            order,
            us,
            ct,
            beta,
            tj,
            order.len() as int,
        );
    }
}

} // verus!
