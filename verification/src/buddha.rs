//! Density rendering: the orbits of escaping seeds, counted per pixel.

use vstd::prelude::*;
use bmp::Image;
use rand::Rng;
use crate::camera::Camera;
use crate::complex::{
    bounded, conjugate, lemma_bounded_coordinates, lemma_first_step, orbit, origin, ComplexPoint,
    PlanePoint,
};
use crate::error::ConfigError;
use crate::complex::lemma_orbit_conjugate;
use crate::fractal::{
    default_config, eval_mandelbrot, lemma_escape_time_is_first_exit, lemma_mandelbrot_escape_conjugate,
    mandelbrot_escape, DEFAULT_BOUND_SQ,
};
use crate::grid::{grid_view, is_grid};
use crate::histogram::{
    empty_grid, grid_max, init_hist, is_equalized_level, joint_count, lemma_visit_keeps_shape, linear_level,
    visit, Histogram, Normalization,
};
use crate::parallel::{lemma_spans_ascend, map_with_workers, spans_cover, split_evenly, Span};
use crate::image::{fits_image, image_fits, image_pixels};
use crate::render::{image_is, make_channels_image};

verus! {

/// What the sampler is run with: the grid, the escape times that make a
/// seed worth recording, and whether each orbit is also recorded mirrored.
#[derive(Clone, Copy, Debug, PartialEq, Eq)]
pub struct SamplerConfig {
    width: u32,
    height: u32,
    min_iterations: u32,
    max_iterations: u32,
    mirror: bool,
}

/// The mathematical values of a vector of points.
pub open spec fn points_view(v: Seq<ComplexPoint>) -> Seq<PlanePoint> {
    Seq::new(v.len(), |i: int| v[i]@)
}

/// Whether a seed with escape time `k` is recorded: it escapes, and not
/// before `min` steps.
pub open spec fn accepted(k: nat, min: nat, max: nat) -> bool {
    min <= k < max
}

/// The first `k` points of the orbit of the origin under `z -> z^2 + pt`,
/// each followed by its mirror image when `mirror` is set.
pub open spec fn trajectory_of(pt: PlanePoint, k: nat, mirror: bool) -> Seq<PlanePoint> {
    if mirror {
        Seq::new(
            2 * k,
            |i: int|
                if i % 2 == 0 {
                    orbit(pt, origin(), (i / 2 + 1) as nat)
                } else {
                    conjugate(orbit(pt, origin(), (i / 2 + 1) as nat))
                },
        )
    } else {
        Seq::new(k, |i: int| orbit(pt, origin(), (i + 1) as nat))
    }
}

/// The trajectory that the seed `pt` yields: that of its escape time when
/// the seed is accepted, and none otherwise.
pub open spec fn seed_trajectory(pt: PlanePoint, min: nat, max: nat, mirror: bool) -> Seq<PlanePoint> {
    let k = mandelbrot_escape(pt, max, default_config()).0;
    if accepted(k, min, max) {
        trajectory_of(pt, k, mirror)
    } else {
        Seq::empty()
    }
}

/// The grid after each point of `traj` that lies in the view was counted
/// in its pixel.
pub open spec fn deposit(g: Seq<Seq<u32>>, cam: Camera, width: int, height: int, traj: Seq<PlanePoint>) -> Seq<
    Seq<u32>,
>
    decreases traj.len(),
{
    if traj.len() == 0 {
        g
    } else {
        let before = deposit(g, cam, width, height, traj.drop_last());
        match cam.spec_to_discrete(traj.last(), width, height) {
            Some((x, y)) => visit(before, x, y),
            None => before,
        }
    }
}

/// How many points of `traj` lie in the cell of pixel `(x, y)`.
pub open spec fn hits(cam: Camera, width: int, height: int, traj: Seq<PlanePoint>, x: int, y: int) -> nat
    decreases traj.len(),
{
    if traj.len() == 0 {
        0
    } else {
        hits(cam, width, height, traj.drop_last(), x, y) + if cam.spec_to_discrete(traj.last(), width, height)
            == Some((x, y)) {
            1nat
        } else {
            0nat
        }
    }
}

/// A counter after `more` further visits: it stops at the largest value
/// it can hold.
pub open spec fn bumped_by(count: u32, more: nat) -> u32 {
    if count + more > u32::MAX {
        u32::MAX
    } else {
        (count + more) as u32
    }
}

/// No visit is lost and none is invented: after a trajectory was counted,
/// each counter has grown by the number of points that lie in its cell,
/// in whatever order they came, unless it is full.
pub proof fn lemma_deposit_counts(g: Seq<Seq<u32>>, cam: Camera, width: int, height: int, traj: Seq<PlanePoint>)
    requires
        is_grid(g, width, height),
    ensures
        is_grid(deposit(g, cam, width, height, traj), width, height),
        forall|y: int, x: int|
            0 <= y < height && 0 <= x < width ==> #[trigger] deposit(g, cam, width, height, traj)[y][x]
                == bumped_by(g[y][x], hits(cam, width, height, traj, x, y)),
    decreases traj.len(),
{
    if traj.len() > 0 {
        let before = deposit(g, cam, width, height, traj.drop_last());
        lemma_deposit_counts(g, cam, width, height, traj.drop_last());
        match cam.spec_to_discrete(traj.last(), width, height) {
            Some((px, py)) => {
                lemma_visit_keeps_shape(before, width, height, px, py);
                assert forall|y: int, x: int| 0 <= y < height && 0 <= x < width implies #[trigger] deposit(
                    g,
                    cam,
                    width,
                    height,
                    traj,
                )[y][x] == bumped_by(g[y][x], hits(cam, width, height, traj, x, y)) by {
                    assert(before[y][x] == bumped_by(
                        g[y][x],
                        hits(cam, width, height, traj.drop_last(), x, y),
                    ));
                    assert(before[py].len() == width);
                }
            },
            None => {
                assert forall|y: int, x: int| 0 <= y < height && 0 <= x < width implies #[trigger] deposit(
                    g,
                    cam,
                    width,
                    height,
                    traj,
                )[y][x] == bumped_by(g[y][x], hits(cam, width, height, traj, x, y)) by {
                    assert(before[y][x] == bumped_by(
                        g[y][x],
                        hits(cam, width, height, traj.drop_last(), x, y),
                    ));
                }
            },
        }
    }
}

/// A trajectory has as many points as the escape time of its seed, or
/// twice as many when mirrored; a seed that is not accepted yields none.
pub proof fn lemma_trajectory_length(pt: PlanePoint, min: nat, max: nat, mirror: bool)
    ensures
        ({
            let k = mandelbrot_escape(pt, max, default_config()).0;
            let len = seed_trajectory(pt, min, max, mirror).len();
            &&& accepted(k, min, max) && !mirror ==> len == k
            &&& accepted(k, min, max) && mirror ==> len == 2 * k
            &&& !accepted(k, min, max) ==> len == 0
            &&& !mirror ==> len < max || len == 0
            &&& mirror ==> len < 2 * max || len == 0
        }),
{
}

/// A mirrored trajectory comes in pairs: the points of the plain
/// trajectory, each followed by its mirror image across the real axis. An
/// accepted seed with escape time `k` yields `2 k` points.
pub proof fn lemma_mirrored_trajectory_pairs(pt: PlanePoint, min: nat, max: nat)
    ensures
        ({
            let plain = seed_trajectory(pt, min, max, false);
            let mirrored = seed_trajectory(pt, min, max, true);
            let k = mandelbrot_escape(pt, max, default_config()).0;
            &&& mirrored.len() == 2 * plain.len()
            &&& accepted(k, min, max) ==> mirrored.len() == 2 * k
            &&& forall|i: int|
                0 <= i < plain.len() ==> mirrored[2 * i] == plain[i] && #[trigger] mirrored[2 * i + 1] == conjugate(
                    mirrored[2 * i],
                )
        }),
{
    let plain = seed_trajectory(pt, min, max, false);
    let mirrored = seed_trajectory(pt, min, max, true);
    assert forall|i: int| 0 <= i < plain.len() implies mirrored[2 * i] == plain[i] && #[trigger] mirrored[2 * i
        + 1] == conjugate(mirrored[2 * i]) by {
        assert((2 * i) % 2 == 0 && (2 * i) / 2 == i);
        assert((2 * i + 1) % 2 == 1 && (2 * i + 1) / 2 == i);
    }
}

/// The trajectory of a mirrored seed is the mirror image of the
/// trajectory of the seed, point by point.
pub proof fn lemma_trajectory_conjugate(pt: PlanePoint, min: nat, max: nat)
    ensures
        seed_trajectory(conjugate(pt), min, max, false).len() == seed_trajectory(pt, min, max, false).len(),
        forall|i: int|
            0 <= i < seed_trajectory(pt, min, max, false).len() ==> #[trigger] seed_trajectory(
                conjugate(pt),
                min,
                max,
                false,
            )[i] == conjugate(seed_trajectory(pt, min, max, false)[i]),
{
    lemma_mandelbrot_escape_conjugate(pt, max, default_config());
    assert(conjugate(origin()) == origin());
    assert forall|i: int| 0 <= i < seed_trajectory(pt, min, max, false).len() implies #[trigger] seed_trajectory(
        conjugate(pt),
        min,
        max,
        false,
    )[i] == conjugate(seed_trajectory(pt, min, max, false)[i]) by {
        lemma_orbit_conjugate(pt, origin(), (i + 1) as nat);
    }
}

impl SamplerConfig {
    /// What holds of every configuration: a grid with cells, and a
    /// smallest accepted escape time below the budget.
    pub closed spec fn wf(self) -> bool {
        &&& self.width > 0
        &&& self.height > 0
        &&& self.min_iterations < self.max_iterations
    }

    #[verifier::type_invariant]
    spec fn inv(self) -> bool {
        self.wf()
    }

    /// Number of cells in a row of the grid.
    pub closed spec fn spec_width(self) -> int {
        self.width as int
    }

    /// Number of rows of the grid.
    pub closed spec fn spec_height(self) -> int {
        self.height as int
    }

    /// Smallest escape time of a seed that is recorded.
    pub closed spec fn spec_min(self) -> nat {
        self.min_iterations as nat
    }

    /// The iteration budget; a seed that spends it is not recorded.
    pub closed spec fn spec_max(self) -> nat {
        self.max_iterations as nat
    }

    /// Whether each point is also recorded mirrored across the real axis.
    pub closed spec fn spec_mirror(self) -> bool {
        self.mirror
    }

    /// What a well-formed configuration holds.
    pub proof fn lemma_wf(self)
        requires
            self.wf(),
        ensures
            0 < self.spec_width() <= u32::MAX,
            0 < self.spec_height() <= u32::MAX,
            self.spec_min() < self.spec_max() <= u32::MAX,
    {
    }

    /// A configuration, refused when the grid has no cells or when
    /// `min_iterations` is not below `max_iterations`.
    pub fn new(width: u32, height: u32, min_iterations: u32, max_iterations: u32, mirror: bool) -> (r: Result<
        SamplerConfig,
        ConfigError,
    >)
        ensures
            r is Ok <==> width > 0 && height > 0 && min_iterations < max_iterations,
            match r {
                Ok(cfg) => {
                    &&& cfg.wf()
                    &&& cfg.spec_width() == width
                    &&& cfg.spec_height() == height
                    &&& cfg.spec_min() == min_iterations
                    &&& cfg.spec_max() == max_iterations
                    &&& cfg.spec_mirror() == mirror
                },
                Err(e) => e == if width == 0 || height == 0 {
                    ConfigError::EmptyGrid
                } else {
                    ConfigError::MinNotBelowMax
                },
            },
    {
        if width == 0 || height == 0 {
            return Err(ConfigError::EmptyGrid);
        }
        if min_iterations >= max_iterations {
            return Err(ConfigError::MinNotBelowMax);
        }
        Ok(SamplerConfig { width, height, min_iterations, max_iterations, mirror })
    }

    /// Number of cells in a row of the grid.
    pub fn width(&self) -> (w: u32)
        ensures
            w == self.spec_width(),
            w > 0,
    {
        proof {
            use_type_invariant(self);
        }
        self.width
    }

    /// Number of rows of the grid.
    pub fn height(&self) -> (h: u32)
        ensures
            h == self.spec_height(),
            h > 0,
    {
        proof {
            use_type_invariant(self);
        }
        self.height
    }

    /// Smallest escape time of a seed that is recorded.
    pub fn min_iterations(&self) -> (n: u32)
        ensures
            n == self.spec_min(),
            n < self.spec_max(),
    {
        proof {
            use_type_invariant(self);
        }
        self.min_iterations
    }

    /// The iteration budget; a seed that spends it is not recorded.
    pub fn max_iterations(&self) -> (n: u32)
        ensures
            n == self.spec_max(),
    {
        self.max_iterations
    }

    /// Whether each point is also recorded mirrored across the real axis.
    pub fn mirror(&self) -> (m: bool)
        ensures
            m == self.spec_mirror(),
    {
        self.mirror
    }
}

/// The trajectory of the seed `pt`: the points that its orbit visits up to
/// and including the one that leaves the disc of radius 2, each followed by
/// its mirror image across the real axis when `mirror` is set. A seed that
/// escapes before `min` steps, or not within `max`, yields no point.
pub fn emit_mandelbrot_trajectory(pt: ComplexPoint, max: u32, min: u32, mirror: bool) -> (traj: Vec<ComplexPoint>)
    requires
        mirror ==> pt.im > i64::MIN,
    ensures
        points_view(traj@) == seed_trajectory(pt@, min as nat, max as nat, mirror),
        traj@.len() == if !accepted(mandelbrot_escape(pt@, max as nat, default_config()).0, min as nat, max as nat) {
            0nat
        } else if mirror {
            2 * mandelbrot_escape(pt@, max as nat, default_config()).0
        } else {
            mandelbrot_escape(pt@, max as nat, default_config()).0
        },
        mirror ==> forall|i: int|
            0 <= i && 2 * i + 1 < traj@.len() ==> (#[trigger] traj@[2 * i + 1])@ == conjugate(traj@[2 * i]@),
{
    proof {
        lemma_mirrored_trajectory_pairs(pt@, min as nat, max as nat);
    }
    let escape = eval_mandelbrot(pt, max);
    let k: u32 = escape.iterations;
    let mut traj: Vec<ComplexPoint> = Vec::new();
    if k >= max || k < min {
        assert(points_view(traj@) =~= Seq::<PlanePoint>::empty());
        return traj;
    }
    proof {
        lemma_first_step(pt@);
        lemma_escape_time_is_first_exit(pt@, origin(), DEFAULT_BOUND_SQ as int, max as nat);
        assert(k >= 1) by {
            assert(bounded(origin(), DEFAULT_BOUND_SQ as int)) by (nonlinear_arith)
                requires
                    crate::complex::norm_sqr(origin()) == 0,
                    crate::fixed::ONE > 0,
            ;
        }
    }
    let mut z: ComplexPoint = pt;
    let mut n: u32 = 1;
    traj.push(z);
    if mirror {
        traj.push(z.conj());
    }
    assert(points_view(traj@) =~= trajectory_of(pt@, 1, mirror));
    while n < k
        invariant
            1 <= n <= k,
            z@ == orbit(pt@, origin(), n as nat),
            n > 1 ==> -0x6000_0000_0000_0000 <= z.im <= 0x6000_0000_0000_0000,
            mirror ==> pt.im > i64::MIN,
            orbit(pt@, origin(), 1) == pt@,
            forall|i: nat| i < k ==> bounded(#[trigger] orbit(pt@, origin(), i), DEFAULT_BOUND_SQ as int),
            points_view(traj@) == trajectory_of(pt@, n as nat, mirror),
        decreases k - n,
    {
        proof {
            assert(bounded(orbit(pt@, origin(), n as nat), DEFAULT_BOUND_SQ as int));
            assert(bounded(orbit(pt@, origin(), 1), DEFAULT_BOUND_SQ as int));
            lemma_bounded_coordinates(z@, DEFAULT_BOUND_SQ as int);
            lemma_bounded_coordinates(pt@, DEFAULT_BOUND_SQ as int);
        }
        let ghost before = traj@;
        assert(points_view(before).len() == before.len());
        assert(before.len() == if mirror {
            2 * n
        } else {
            n as int
        });
        z = z.square_plus(&pt);
        n = n + 1;
        traj.push(z);
        if mirror {
            traj.push(z.conj());
        }
        proof {
            let now = points_view(traj@);
            let want = trajectory_of(pt@, n as nat, mirror);
            assert(now.len() == want.len());
            assert forall|i: int| 0 <= i < now.len() implies now[i] == want[i] by {
                if i < before.len() {
                    assert(traj@[i] == before[i]);
                    assert(points_view(before)[i] == trajectory_of(pt@, (n - 1) as nat, mirror)[i]);
                } else if mirror {
                    assert(i == 2 * (n - 1) || i == 2 * (n - 1) + 1);
                }
            }
            assert(now =~= want);
        }
    }
    proof {
        if mirror {
            let plain = seed_trajectory(pt@, min as nat, max as nat, false);
            let mirrored = seed_trajectory(pt@, min as nat, max as nat, true);
            assert forall|i: int| 0 <= i && 2 * i + 1 < traj@.len() implies (#[trigger] traj@[2 * i + 1])@
                == conjugate(traj@[2 * i]@) by {
                assert(i < plain.len());
                assert(mirrored[2 * i + 1] == conjugate(mirrored[2 * i]));
                assert(points_view(traj@)[2 * i + 1] == traj@[2 * i + 1]@);
                assert(points_view(traj@)[2 * i] == traj@[2 * i]@);
            }
        }
    }
    traj
}

/// Counts each point of `traj` that lies in the view in its pixel; points
/// outside the grid are dropped.
pub fn record_trajectory(cam: &Camera, hist: &mut Histogram, traj: &Vec<ComplexPoint>)
    ensures
        final(hist)@ == deposit(
            old(hist)@,
            *cam,
            old(hist).spec_width(),
            old(hist).spec_height(),
            points_view(traj@),
        ),
        final(hist).spec_width() == old(hist).spec_width(),
        final(hist).spec_height() == old(hist).spec_height(),
        final(hist).wf(),
{
    let width: u32 = hist.width();
    let height: u32 = hist.height();
    let ghost start = hist@;
    let ghost points = points_view(traj@);
    let mut i: usize = 0;
    assert(points.take(0) =~= Seq::<PlanePoint>::empty());
    while i < traj.len()
        invariant
            i <= traj@.len(),
            width > 0,
            height > 0,
            hist.spec_width() == width,
            hist.spec_height() == height,
            hist.wf(),
            points == points_view(traj@),
            hist@ == deposit(start, *cam, width as int, height as int, points.take(i as int)),
        decreases traj@.len() - i,
    {
        let p: ComplexPoint = traj[i];
        proof {
            assert(points.take(i + 1).drop_last() =~= points.take(i as int));
            assert(points.take(i + 1).last() == p@);
        }
        match cam.to_discrete(p, width, height) {
            Some((x, y)) => {
                hist.record(x, y);
            },
            None => {},
        }
        i = i + 1;
    }
    assert(points.take(traj@.len() as int) =~= points);
}

/// The seed that a pair of drawn numbers selects: the centre of the pixel
/// whose coordinates are the numbers reduced modulo the grid's sides.
pub open spec fn seed_of(cam: Camera, cfg: SamplerConfig, draw: (u32, u32)) -> PlanePoint {
    cam.spec_transform(
        draw.0 as int % cfg.spec_width(),
        draw.1 as int % cfg.spec_height(),
        cfg.spec_width(),
        cfg.spec_height(),
    )
}

/// The grid after the sample selected by `draw` was recorded.
pub open spec fn after_sample(g: Seq<Seq<u32>>, cam: Camera, cfg: SamplerConfig, draw: (u32, u32)) -> Seq<Seq<u32>> {
    deposit(
        g,
        cam,
        cfg.spec_width(),
        cfg.spec_height(),
        seed_trajectory(seed_of(cam, cfg, draw), cfg.spec_min(), cfg.spec_max(), cfg.spec_mirror()),
    )
}

/// The grid after the samples selected by `draws` were recorded in turn.
pub open spec fn after_samples(g: Seq<Seq<u32>>, cam: Camera, cfg: SamplerConfig, draws: Seq<(u32, u32)>) -> Seq<
    Seq<u32>,
>
    decreases draws.len(),
{
    if draws.len() == 0 {
        g
    } else {
        after_sample(after_samples(g, cam, cfg, draws.drop_last()), cam, cfg, draws.last())
    }
}

/// Whether `g` is a histogram that `samples` random samples can leave.
pub open spec fn sampled(cam: Camera, cfg: SamplerConfig, samples: nat, g: Seq<Seq<u32>>) -> bool {
    exists|draws: Seq<(u32, u32)>|
        draws.len() == samples && g == after_samples(
            #[trigger] empty_grid(cfg.spec_width(), cfg.spec_height()),
            cam,
            cfg,
            draws,
        )
}

/// Records one sample: the seed selected by the two drawn numbers is
/// classified, and the trajectory of an accepted seed is counted.
pub fn record_sample(cam: &Camera, cfg: &SamplerConfig, hist: &mut Histogram, raw_x: u32, raw_y: u32)
    requires
        old(hist).spec_width() == cfg.spec_width(),
        old(hist).spec_height() == cfg.spec_height(),
    ensures
        final(hist)@ == after_sample(old(hist)@, *cam, *cfg, (raw_x, raw_y)),
        final(hist).spec_width() == old(hist).spec_width(),
        final(hist).spec_height() == old(hist).spec_height(),
        final(hist).wf(),
{
    let width: u32 = cfg.width();
    let height: u32 = cfg.height();
    let seed: ComplexPoint = cam.transform(raw_x % width, raw_y % height, width, height);
    let traj = emit_mandelbrot_trajectory(seed, cfg.max_iterations(), cfg.min_iterations(), cfg.mirror());
    record_trajectory(cam, hist, &traj);
}

/// Draws a number from the generator of the current thread, by
/// `rand::thread_rng` and `Rng::gen`. Nothing is known of the number.
#[verifier::external_body]
fn random_u32() -> u32 {
    rand::thread_rng().gen::<u32>()
}

/// The histogram of `samples` random samples. Whatever numbers are drawn,
/// the histogram is the empty grid after the samples they select were
/// recorded in turn.
pub fn make_hist(cam: &Camera, cfg: &SamplerConfig, samples: usize) -> (hist: Histogram)
    ensures
        hist.wf(),
        hist.spec_width() == cfg.spec_width(),
        hist.spec_height() == cfg.spec_height(),
        sampled(*cam, *cfg, samples as nat, hist@),
{
    let mut hist = init_hist(cfg.width(), cfg.height()).unwrap();
    let ghost zero = empty_grid(cfg.spec_width(), cfg.spec_height());
    let ghost mut draws: Seq<(u32, u32)> = Seq::empty();
    let mut done: usize = 0;
    while done < samples
        invariant
            done <= samples,
            hist.wf(),
            hist.spec_width() == cfg.spec_width(),
            hist.spec_height() == cfg.spec_height(),
            draws.len() == done,
            hist@ == after_samples(zero, *cam, *cfg, draws),
        decreases samples - done,
    {
        let raw_x: u32 = random_u32();
        let raw_y: u32 = random_u32();
        record_sample(cam, cfg, &mut hist, raw_x, raw_y);
        proof {
            let next = draws.push((raw_x, raw_y));
            assert(next.drop_last() =~= draws);
            assert(next.last() == (raw_x, raw_y));
            draws = next;
        }
        done = done + 1;
    }
    hist
}

/// How many points of the trajectories of the samples selected by `draws`
/// lie in the cell of pixel `(x, y)`.
pub open spec fn sample_hits(cam: Camera, cfg: SamplerConfig, draws: Seq<(u32, u32)>, x: int, y: int) -> nat
    decreases draws.len(),
{
    if draws.len() == 0 {
        0
    } else {
        sample_hits(cam, cfg, draws.drop_last(), x, y) + hits(
            cam,
            cfg.spec_width(),
            cfg.spec_height(),
            seed_trajectory(seed_of(cam, cfg, draws.last()), cfg.spec_min(), cfg.spec_max(), cfg.spec_mirror()),
            x,
            y,
        )
    }
}

/// After samples were recorded, each counter has grown by the number of
/// trajectory points that lie in its cell, unless it is full.
pub proof fn lemma_samples_count(g: Seq<Seq<u32>>, cam: Camera, cfg: SamplerConfig, draws: Seq<(u32, u32)>)
    requires
        is_grid(g, cfg.spec_width(), cfg.spec_height()),
    ensures
        is_grid(after_samples(g, cam, cfg, draws), cfg.spec_width(), cfg.spec_height()),
        forall|y: int, x: int|
            0 <= y < cfg.spec_height() && 0 <= x < cfg.spec_width() ==> #[trigger] after_samples(
                g,
                cam,
                cfg,
                draws,
            )[y][x] == bumped_by(g[y][x], sample_hits(cam, cfg, draws, x, y)),
    decreases draws.len(),
{
    if draws.len() > 0 {
        let before = after_samples(g, cam, cfg, draws.drop_last());
        lemma_samples_count(g, cam, cfg, draws.drop_last());
        let traj = seed_trajectory(
            seed_of(cam, cfg, draws.last()),
            cfg.spec_min(),
            cfg.spec_max(),
            cfg.spec_mirror(),
        );
        lemma_deposit_counts(before, cam, cfg.spec_width(), cfg.spec_height(), traj);
        assert forall|y: int, x: int|
            0 <= y < cfg.spec_height() && 0 <= x < cfg.spec_width() implies #[trigger] after_samples(
            g,
            cam,
            cfg,
            draws,
        )[y][x] == bumped_by(g[y][x], sample_hits(cam, cfg, draws, x, y)) by {
            assert(before[y][x] == bumped_by(g[y][x], sample_hits(cam, cfg, draws.drop_last(), x, y)));
            assert(deposit(before, cam, cfg.spec_width(), cfg.spec_height(), traj)[y][x] == bumped_by(
                before[y][x],
                hits(cam, cfg.spec_width(), cfg.spec_height(), traj, x, y),
            ));
        }
    }
}

/// The samples of two runs hit a cell as often as those of one run after
/// the other.
pub proof fn lemma_sample_hits_add(
    cam: Camera,
    cfg: SamplerConfig,
    first: Seq<(u32, u32)>,
    second: Seq<(u32, u32)>,
    x: int,
    y: int,
)
    ensures
        sample_hits(cam, cfg, first + second, x, y) == sample_hits(cam, cfg, first, x, y) + sample_hits(
            cam,
            cfg,
            second,
            x,
            y,
        ),
    decreases second.len(),
{
    if second.len() == 0 {
        assert(first + second =~= first);
    } else {
        assert((first + second).drop_last() =~= first + second.drop_last());
        assert((first + second).last() == second.last());
        lemma_sample_hits_add(cam, cfg, first, second.drop_last(), x, y);
    }
}

/// Samples may be recorded in separate histograms and the histograms
/// merged: the sum of what two runs leave is what one run with the samples
/// of both leaves.
pub proof fn lemma_shards_merge(
    cam: Camera,
    cfg: SamplerConfig,
    first: Seq<(u32, u32)>,
    second: Seq<(u32, u32)>,
    sum: Seq<Seq<u32>>,
)
    requires
        is_grid(sum, cfg.spec_width(), cfg.spec_height()),
        forall|y: int, x: int|
            0 <= y < cfg.spec_height() && 0 <= x < cfg.spec_width() ==> #[trigger] sum[y][x] == joint_count(
                after_samples(empty_grid(cfg.spec_width(), cfg.spec_height()), cam, cfg, first)[y][x],
                after_samples(empty_grid(cfg.spec_width(), cfg.spec_height()), cam, cfg, second)[y][x],
            ),
    ensures
        sum == after_samples(empty_grid(cfg.spec_width(), cfg.spec_height()), cam, cfg, first + second),
{
    let zero = empty_grid(cfg.spec_width(), cfg.spec_height());
    assert(is_grid(zero, cfg.spec_width(), cfg.spec_height()));
    lemma_samples_count(zero, cam, cfg, first);
    lemma_samples_count(zero, cam, cfg, second);
    lemma_samples_count(zero, cam, cfg, first + second);
    let both = after_samples(zero, cam, cfg, first + second);
    assert forall|y: int| 0 <= y < cfg.spec_height() implies #[trigger] sum[y] =~= both[y] by {
        assert forall|x: int| 0 <= x < cfg.spec_width() implies sum[y][x] == both[y][x] by {
            lemma_sample_hits_add(cam, cfg, first, second, x, y);
            assert(zero[y][x] == 0);
        }
    }
    assert(sum =~= both);
}

/// Whether `hist` is a histogram that the samples of `share` can leave.
pub open spec fn is_shard(cam: Camera, cfg: SamplerConfig, share: Span, hist: Histogram) -> bool {
    &&& hist.wf()
    &&& hist.spec_width() == cfg.spec_width()
    &&& hist.spec_height() == cfg.spec_height()
    &&& sampled(cam, cfg, (share.end - share.start) as nat, hist@)
}

/// The histogram of `samples` random samples, recorded by `workers`
/// workers: each records its share of the samples in a histogram of its
/// own, and the histograms are merged at the end. Whatever numbers are
/// drawn, the histogram is the empty grid after the samples they select
/// were recorded in turn.
pub fn make_hist_with_workers(cam: &Camera, cfg: &SamplerConfig, samples: usize, workers: usize) -> (hist: Histogram)
    ensures
        hist.wf(),
        hist.spec_width() == cfg.spec_width(),
        hist.spec_height() == cfg.spec_height(),
        sampled(*cam, *cfg, samples as nat, hist@),
{
    let shares = split_evenly(samples, workers);
    proof {
        assert forall|i: int| 0 <= i < shares@.len() implies (#[trigger] shares@[i]).start <= shares@[i].end by {}
    }
    let per_share = |share: &Span| -> (hist: Histogram)
        requires
            share.start <= share.end,
        ensures
            is_shard(*cam, *cfg, *share, hist),
        { make_hist(cam, cfg, share.end - share.start) };
    let shards = map_with_workers(&shares, &per_share, workers);
    let mut hist = init_hist(cfg.width(), cfg.height()).unwrap();
    let ghost zero = empty_grid(cfg.spec_width(), cfg.spec_height());
    let ghost mut draws: Seq<(u32, u32)> = Seq::empty();
    proof {
        lemma_spans_ascend(shares@, samples as int, shares@.len() - 1);
    }
    let mut i: usize = 0;
    while i < shards.len()
        invariant
            i <= shards@.len(),
            shards@.len() == shares@.len(),
            spans_cover(shares@, samples as int),
            forall|k: int| 0 <= k < shares@.len() ==> per_share.ensures((&shares@[k],), #[trigger] shards@[k]),
            forall|share: Span, h: Histogram| per_share.ensures((&share,), h) ==> is_shard(*cam, *cfg, share, h),
            hist.wf(),
            hist.spec_width() == cfg.spec_width(),
            hist.spec_height() == cfg.spec_height(),
            zero == empty_grid(cfg.spec_width(), cfg.spec_height()),
            draws.len() == if i == 0 {
                0
            } else {
                shares@[i - 1].end as int
            },
            hist@ == after_samples(zero, *cam, *cfg, draws),
        decreases shards@.len() - i,
    {
        let shard = &shards[i];
        proof {
            assert(per_share.ensures((&shares@[i as int],), shards@[i as int]));
            assert(is_shard(*cam, *cfg, shares@[i as int], *shard));
            if i > 0 {
                assert(shares@[i - 1].end == shares@[i as int].start);
            }
        }
        let sum = hist.merged(shard);
        proof {
            let more = choose|more: Seq<(u32, u32)>|
                more.len() == (shares@[i as int].end - shares@[i as int].start) as nat && shard@ == after_samples(
                    #[trigger] empty_grid(cfg.spec_width(), cfg.spec_height()),
                    *cam,
                    *cfg,
                    more,
                );
            lemma_shards_merge(*cam, *cfg, draws, more, sum@);
            draws = draws + more;
        }
        hist = sum;
        i = i + 1;
    }
    proof {
        if shares@.len() > 0 {
            assert(draws.len() == samples);
        }
    }
    hist
}

/// The escape times that make a seed worth recording: at least
/// `min_iterations`, and below `max_iterations`.
#[derive(Clone, Copy, Debug, PartialEq, Eq, Structural)]
pub struct Band {
    pub min_iterations: u32,
    pub max_iterations: u32,
}

/// Which channels a density rendering has.
#[derive(Clone, Copy, Debug, PartialEq, Eq, Structural)]
pub enum RenderMode {
    /// One histogram, shown as grey.
    Greyscale(Band),
    /// One histogram each for red, green and blue.
    Rgb(Band, Band, Band),
}

/// Whether `level` is the display level of `count` in the grid `g` under `policy`.
pub open spec fn is_display_level(policy: Normalization, g: Seq<Seq<u32>>, level: u8, count: u32) -> bool {
    match policy {
        Normalization::Linear => level == linear_level(count, grid_max(g)),
        Normalization::Equalized => is_equalized_level(level as int, g, count),
    }
}

/// Whether `levels` shows a histogram that `samples` random samples in
/// `band` can leave, under `policy`.
pub open spec fn shows_density(
    levels: Seq<Seq<u8>>,
    cam: Camera,
    width: u32,
    height: u32,
    band: Band,
    mirror: bool,
    samples: nat,
    policy: Normalization,
) -> bool {
    exists|cfg: SamplerConfig, g: Seq<Seq<u32>>|
        {
            &&& cfg.wf()
            &&& cfg.spec_width() == width
            &&& cfg.spec_height() == height
            &&& cfg.spec_min() == band.min_iterations
            &&& cfg.spec_max() == band.max_iterations
            &&& cfg.spec_mirror() == mirror
            &&& #[trigger] sampled(cam, cfg, samples, g)
            &&& is_grid(g, width as int, height as int)
            &&& is_grid(levels, width as int, height as int)
            &&& forall|y: int, x: int|
                0 <= y < height && 0 <= x < width ==> is_display_level(policy, g, #[trigger] levels[y][x], g[y][x])
        }
}

/// Whether `img` is a density rendering in `mode`: each channel shows a
/// histogram that `samples` random samples can leave.
pub open spec fn is_density_image(
    img: Image,
    cam: Camera,
    width: u32,
    height: u32,
    samples: nat,
    mode: RenderMode,
    mirror: bool,
    policy: Normalization,
) -> bool {
    &&& image_is(img, width, height)
    &&& match mode {
        RenderMode::Greyscale(band) => exists|levels: Seq<Seq<u8>>|
            {
                &&& #[trigger] shows_density(levels, cam, width, height, band, mirror, samples, policy)
                &&& forall|x: u32, y: u32|
                    x < width && y < height ==> #[trigger] image_pixels(img)[(x, y)] == (
                        levels[y as int][x as int],
                        levels[y as int][x as int],
                        levels[y as int][x as int],
                    )
            },
        RenderMode::Rgb(red, green, blue) => exists|reds: Seq<Seq<u8>>, greens: Seq<Seq<u8>>, blues: Seq<Seq<u8>>|
            {
                &&& #[trigger] shows_density(reds, cam, width, height, red, mirror, samples, policy)
                &&& #[trigger] shows_density(greens, cam, width, height, green, mirror, samples, policy)
                &&& #[trigger] shows_density(blues, cam, width, height, blue, mirror, samples, policy)
                &&& forall|x: u32, y: u32|
                    x < width && y < height ==> #[trigger] image_pixels(img)[(x, y)] == (
                        reds[y as int][x as int],
                        greens[y as int][x as int],
                        blues[y as int][x as int],
                    )
            },
    }
}

/// Whether every band of `mode` has its smallest accepted escape time
/// below its budget.
pub open spec fn bands_valid(mode: RenderMode) -> bool {
    match mode {
        RenderMode::Greyscale(band) => band.min_iterations < band.max_iterations,
        RenderMode::Rgb(red, green, blue) => red.min_iterations < red.max_iterations && green.min_iterations
            < green.max_iterations && blue.min_iterations < blue.max_iterations,
    }
}

/// The display levels of the histogram of `samples` random samples in
/// `band`, recorded by `workers` workers.
pub fn density_levels(
    cam: &Camera,
    width: u32,
    height: u32,
    band: Band,
    mirror: bool,
    samples: usize,
    policy: Normalization,
    workers: usize,
) -> (r: Result<Vec<Vec<u8>>, ConfigError>)
    ensures
        r is Ok <==> width > 0 && height > 0 && band.min_iterations < band.max_iterations,
        match r {
            Ok(levels) => shows_density(grid_view(levels), *cam, width, height, band, mirror, samples as nat, policy),
            Err(e) => e == if width == 0 || height == 0 {
                ConfigError::EmptyGrid
            } else {
                ConfigError::MinNotBelowMax
            },
        },
{
    let cfg = match SamplerConfig::new(width, height, band.min_iterations, band.max_iterations, mirror) {
        Ok(cfg) => cfg,
        Err(e) => {
            return Err(e);
        },
    };
    let hist = make_hist_with_workers(cam, &cfg, samples, workers);
    let levels = hist.normalize(policy);
    proof {
        assert forall|y: int, x: int| 0 <= y < height && 0 <= x < width implies is_display_level(
            policy,
            hist@,
            #[trigger] grid_view(levels)[y][x],
            hist@[y][x],
        ) by {}
    }
    Ok(levels)
}

/// The density rendering of the view in `mode`: the visits of the orbits
/// of `samples` random seeds per channel, counted per pixel by `workers`
/// workers and shown under `policy`. Refused when the grid has no cells
/// or is too large for an image, or when a band is empty.
pub fn make_render(
    cam: &Camera,
    width: u32,
    height: u32,
    samples: usize,
    mode: RenderMode,
    mirror: bool,
    policy: Normalization,
    workers: usize,
) -> (r: Result<Image, ConfigError>)
    ensures
        r is Ok <==> width > 0 && height > 0 && image_fits(width, height) && bands_valid(mode),
        match r {
            Ok(img) => is_density_image(img, *cam, width, height, samples as nat, mode, mirror, policy),
            Err(e) => e == if width == 0 || height == 0 {
                ConfigError::EmptyGrid
            } else if !image_fits(width, height) {
                ConfigError::GridTooLarge
            } else {
                ConfigError::MinNotBelowMax
            },
        },
{
    if width == 0 || height == 0 {
        return Err(ConfigError::EmptyGrid);
    }
    if !fits_image(width, height) {
        return Err(ConfigError::GridTooLarge);
    }
    match mode {
        RenderMode::Greyscale(band) => {
            let levels = match density_levels(cam, width, height, band, mirror, samples, policy, workers) {
                Ok(levels) => levels,
                Err(e) => {
                    return Err(e);
                },
            };
            let img = make_channels_image(&levels, &levels, &levels, width, height);
            proof {
                assert(shows_density(grid_view(levels), *cam, width, height, band, mirror, samples as nat, policy));
            }
            Ok(img)
        },
        RenderMode::Rgb(red, green, blue) => {
            if red.min_iterations >= red.max_iterations || green.min_iterations >= green.max_iterations
                || blue.min_iterations >= blue.max_iterations {
                return Err(ConfigError::MinNotBelowMax);
            }
            let reds = match density_levels(cam, width, height, red, mirror, samples, policy, workers) {
                Ok(levels) => levels,
                Err(e) => {
                    return Err(e);
                },
            };
            let greens = match density_levels(cam, width, height, green, mirror, samples, policy, workers) {
                Ok(levels) => levels,
                Err(e) => {
                    return Err(e);
                },
            };
            let blues = match density_levels(cam, width, height, blue, mirror, samples, policy, workers) {
                Ok(levels) => levels,
                Err(e) => {
                    return Err(e);
                },
            };
            let img = make_channels_image(&reds, &greens, &blues, width, height);
            proof {
                assert(shows_density(grid_view(reds), *cam, width, height, red, mirror, samples as nat, policy));
                assert(shows_density(grid_view(greens), *cam, width, height, green, mirror, samples as nat, policy));
                assert(shows_density(grid_view(blues), *cam, width, height, blue, mirror, samples as nat, policy));
            }
            Ok(img)
        },
    }
}

/// Smallest escape time that `make_buddha` records.
pub const BUDDHA_MIN_ITERATIONS: u32 = 10_000;

/// Iteration budget of `make_buddha`.
pub const BUDDHA_MAX_ITERATIONS: u32 = 1_000_000;

/// The grey density rendering of the view with the usual settings: seeds
/// that escape after 10,000 to 999,999 steps, orbits mirrored, levels
/// equalised.
pub fn make_buddha(cam: &Camera, width: u32, height: u32, samples: usize, workers: usize) -> (r: Result<
    Image,
    ConfigError,
>)
    ensures
        r is Ok <==> width > 0 && height > 0 && image_fits(width, height),
        match r {
            Ok(img) => is_density_image(
                img,
                *cam,
                width,
                height,
                samples as nat,
                RenderMode::Greyscale(
                    Band { min_iterations: BUDDHA_MIN_ITERATIONS, max_iterations: BUDDHA_MAX_ITERATIONS },
                ),
                true,
                Normalization::Equalized,
            ),
            Err(e) => e == if width == 0 || height == 0 {
                ConfigError::EmptyGrid
            } else {
                ConfigError::GridTooLarge
            },
        },
{
    let band = Band { min_iterations: BUDDHA_MIN_ITERATIONS, max_iterations: BUDDHA_MAX_ITERATIONS };
    make_render(cam, width, height, samples, RenderMode::Greyscale(band), true, Normalization::Equalized, workers)
}

} // verus!
