//! Terrain profiles between a radar and a target.
use crate::float::Binary64;
use crate::los::{CoverageError, Grid, LosConfig};
use vstd::prelude::*;

verus! {

#[derive(Clone, Copy, Debug, PartialEq, Eq, Structural)]
pub struct ProfilePoint {
    pub distance_m: Binary64,
    pub terrain_m: Binary64,
    pub apparent_terrain_m: Binary64,
    pub los_height_m: Binary64,
    pub horizon_slope: Binary64,
    pub target_height_m: Binary64,
    pub is_obstruction: bool,
    pub vertical_margin_m: Binary64,
}

#[derive(Clone, Debug)]
pub struct ProfileResult {
    pub points: Vec<ProfilePoint>,
    pub first_obstacle_distance_m: Option<Binary64>,
    pub visible: bool,
}

/// The way from the radar to the target, in cells.
#[derive(Clone, Copy, Debug)]
pub struct ProfilePlan<E> {
    pub radar_ground: E,
    pub target_ground: E,
    pub dx: i128,
    pub dy: i128,
    pub steps: usize,
    pub distance_squared_cells: u128,
}

/// What was measured at one step of a profile.
#[derive(Clone, Copy, Debug, PartialEq, Eq, Structural)]
pub struct ProfileSample {
    pub x: usize,
    pub y: usize,
    pub distance_m: Binary64,
    pub terrain_m: Binary64,
    pub apparent_terrain_m: Binary64,
    pub los_height_m: Binary64,
    pub vertical_margin_m: Binary64,
    pub slope: Binary64,
}

pub open spec fn distance(a: int, b: int) -> int {
    if a < b {
        b - a
    } else {
        a - b
    }
}

/// The number of steps to a target: the larger of the two distances.
pub open spec fn step_count(config: &LosConfig, target_x: int, target_y: int) -> int {
    let dx = distance(config.radar_x as int, target_x);
    let dy = distance(config.radar_y as int, target_y);
    if dx < dy {
        dy
    } else {
        dx
    }
}

/// The reason why there is no profile, if there is one.
pub open spec fn profile_error<E>(
    grid: &Grid<E>,
    config: &LosConfig,
    target_x: int,
    target_y: int,
) -> Option<CoverageError> {
    if config.radar_x >= grid.width || config.radar_y >= grid.height || target_x >= grid.width
        || target_y >= grid.height {
        Some(CoverageError::RadarOutsideGrid)
    } else if grid.elevations_m@[grid.spec_index(config.radar_x as int, config.radar_y as int)]
        is None {
        Some(CoverageError::RadarOnNoData)
    } else if grid.elevations_m@[grid.spec_index(target_x, target_y)] is None {
        Some(CoverageError::InvalidGrid)
    } else {
        None
    }
}

/// Checks the two ends of a profile and measures the way between them.
pub fn plan_profile<E: Copy>(
    grid: &Grid<E>,
    config: &LosConfig,
    target_x: usize,
    target_y: usize,
) -> (plan: Result<ProfilePlan<E>, CoverageError>)
    requires
        grid.wf(),
    ensures
        plan matches Err(e) ==> profile_error(grid, config, target_x as int, target_y as int)
            == Some(e),
        plan matches Ok(p) ==> {
            &&& profile_error(grid, config, target_x as int, target_y as int) is None
            &&& grid.elevations_m@[grid.spec_index(config.radar_x as int, config.radar_y as int)]
                == Some(p.radar_ground)
            &&& grid.elevations_m@[grid.spec_index(target_x as int, target_y as int)] == Some(
                p.target_ground,
            )
            &&& p.dx == target_x - config.radar_x
            &&& p.dy == target_y - config.radar_y
            &&& p.steps == step_count(config, target_x as int, target_y as int)
            &&& p.distance_squared_cells == p.dx * p.dx + p.dy * p.dy
        },
{
    if config.radar_x >= grid.width || config.radar_y >= grid.height || target_x >= grid.width
        || target_y >= grid.height {
        return Err(CoverageError::RadarOutsideGrid);
    }
    proof {
        grid.lemma_index(config.radar_x as int, config.radar_y as int);
        grid.lemma_index(target_x as int, target_y as int);
    }
    let len: usize = grid.elevations_m.len();
    let radar_ground = match grid.elevations_m[grid.index(config.radar_x, config.radar_y)] {
        Some(terrain) => terrain,
        None => {
            return Err(CoverageError::RadarOnNoData);
        },
    };
    let target_ground = match grid.elevations_m[grid.index(target_x, target_y)] {
        Some(terrain) => terrain,
        None => {
            return Err(CoverageError::InvalidGrid);
        },
    };
    let dx: i128 = target_x as i128 - config.radar_x as i128;
    let dy: i128 = target_y as i128 - config.radar_y as i128;
    let across: usize = if target_x < config.radar_x {
        config.radar_x - target_x
    } else {
        target_x - config.radar_x
    };
    let along: usize = if target_y < config.radar_y {
        config.radar_y - target_y
    } else {
        target_y - config.radar_y
    };
    let steps: usize = if across < along {
        along
    } else {
        across
    };
    let wide_x: u128 = across as u128;
    let wide_y: u128 = along as u128;
    proof {
        lemma_squares_fit(grid.width as int, grid.height as int, across as int, along as int);
        assert(dx * dx == across * across) by (nonlinear_arith)
            requires
                dx == across || dx == -across,
        ;
        assert(dy * dy == along * along) by (nonlinear_arith)
            requires
                dy == along || dy == -along,
        ;
    }
    let distance_squared_cells: u128 = wide_x * wide_x + wide_y * wide_y;
    Ok(ProfilePlan { radar_ground, target_ground, dx, dy, steps, distance_squared_cells })
}

proof fn lemma_squares_fit(width: int, height: int, across: int, along: int)
    requires
        0 <= across < width,
        0 <= along < height,
        width * height <= usize::MAX,
    ensures
        0 <= across * across,
        0 <= along * along,
        across * across + along * along <= u128::MAX,
{
    assert(0 <= across * across && 0 <= along * along && across * across + along * along
        <= 0xffff_ffff_ffff_ffff_ffff_ffff_ffff_ffff) by (nonlinear_arith)
        requires
            0 <= across < width,
            0 <= along < height,
            width * height <= 0xffff_ffff_ffff_ffff,
    {
        if along == 0 {
            assert(width <= width * height);
            assert(across * across <= 0xffff_ffff_ffff_ffff * 0xffff_ffff_ffff_ffff);
        } else if across == 0 {
            assert(height <= width * height);
            assert(along * along <= 0xffff_ffff_ffff_ffff * 0xffff_ffff_ffff_ffff);
        } else {
            assert(2 * width <= width * height);
            assert(2 * height <= width * height);
            assert(across * across <= 0x8000_0000_0000_0000 * 0x8000_0000_0000_0000);
            assert(along * along <= 0x8000_0000_0000_0000 * 0x8000_0000_0000_0000);
        }
    }
}

pub open spec fn samples_in_grid<E>(grid: &Grid<E>, samples: Seq<ProfileSample>) -> bool {
    forall|i: int|
        0 <= i < samples.len() ==> (#[trigger] samples[i]).x < grid.width && samples[i].y
            < grid.height
}

pub open spec fn has_terrain<E>(grid: &Grid<E>, sample: ProfileSample) -> bool {
    grid.elevations_m@[grid.spec_index(sample.x as int, sample.y as int)] is Some
}

/// The steepest slope among the first `n` samples that have terrain.
pub open spec fn horizon_after<E>(grid: &Grid<E>, samples: Seq<ProfileSample>, n: nat) -> Binary64
    decreases n,
{
    if n == 0 {
        Binary64::negative_infinity()
    } else {
        let before = horizon_after(grid, samples, (n - 1) as nat);
        if has_terrain(grid, samples[n - 1]) {
            before.spec_max(samples[n - 1].slope)
        } else {
            before
        }
    }
}

/// The point of one sample. Terrain above the line of sight obstructs it, except
/// at the target itself.
pub open spec fn point_of(
    sample: ProfileSample,
    horizon: Binary64,
    target_height_m: Binary64,
    is_target: bool,
) -> ProfilePoint {
    ProfilePoint {
        distance_m: sample.distance_m,
        terrain_m: sample.terrain_m,
        apparent_terrain_m: sample.apparent_terrain_m,
        los_height_m: sample.los_height_m,
        horizon_slope: horizon,
        target_height_m,
        is_obstruction: !is_target && sample.vertical_margin_m.spec_lt(Binary64::zero()),
        vertical_margin_m: sample.vertical_margin_m,
    }
}

/// The points of the first `n` samples: one for each that has terrain.
pub open spec fn points_after<E>(
    grid: &Grid<E>,
    samples: Seq<ProfileSample>,
    target_height_m: Binary64,
    n: nat,
) -> Seq<ProfilePoint>
    decreases n,
{
    if n == 0 {
        Seq::empty()
    } else {
        let before = points_after(grid, samples, target_height_m, (n - 1) as nat);
        if has_terrain(grid, samples[n - 1]) {
            before.push(
                point_of(
                    samples[n - 1],
                    horizon_after(grid, samples, (n - 1) as nat),
                    target_height_m,
                    n == samples.len(),
                ),
            )
        } else {
            before
        }
    }
}

/// `first` is the distance of the first obstruction among some points.
pub open spec fn is_first_obstacle(points: Seq<ProfilePoint>, first: Option<Binary64>) -> bool {
    match first {
        None => forall|i: int| 0 <= i < points.len() ==> !(#[trigger] points[i]).is_obstruction,
        Some(distance_m) => exists|i: int|
            {
                &&& 0 <= i < points.len()
                &&& (#[trigger] points[i]).is_obstruction
                &&& points[i].distance_m == distance_m
                &&& forall|j: int| 0 <= j < i ==> !(#[trigger] points[j]).is_obstruction
            },
    }
}

/// Assembles a profile from the samples of its steps.
pub fn compute_profile<E: Copy>(
    grid: &Grid<E>,
    config: &LosConfig,
    target_x: usize,
    target_y: usize,
    target_height_m: Binary64,
    samples: &[ProfileSample],
) -> (profile: Result<ProfileResult, CoverageError>)
    requires
        grid.wf(),
        profile_error(grid, config, target_x as int, target_y as int) is None ==> samples@.len()
            == step_count(config, target_x as int, target_y as int),
        samples_in_grid(grid, samples@),
    ensures
        profile matches Err(e) ==> profile_error(grid, config, target_x as int, target_y as int)
            == Some(e),
        profile matches Ok(p) ==> {
            &&& profile_error(grid, config, target_x as int, target_y as int) is None
            &&& p.points@ == points_after(grid, samples@, target_height_m, samples@.len())
            &&& is_first_obstacle(p.points@, p.first_obstacle_distance_m)
            &&& p.visible <==> p.first_obstacle_distance_m is None
        },
{
    match plan_profile(grid, config, target_x, target_y) {
        Err(error) => {
            return Err(error);
        },
        Ok(_) => {},
    }
    let len: usize = grid.elevations_m.len();
    let mut points: Vec<ProfilePoint> = Vec::new();
    let mut horizon = Binary64::negative_infinity();
    let mut first: Option<Binary64> = None;
    let mut i: usize = 0;
    while i < samples.len()
        invariant
            i <= samples@.len(),
            grid.wf(),
            len == grid.elevations_m@.len(),
            samples_in_grid(grid, samples@),
            horizon == horizon_after(grid, samples@, i as nat),
            points@ == points_after(grid, samples@, target_height_m, i as nat),
            is_first_obstacle(points@, first),
        decreases samples@.len() - i,
    {
        let sample = samples[i];
        let is_target = i + 1 == samples.len();
        i += 1;
        proof {
            grid.lemma_index(sample.x as int, sample.y as int);
        }
        if grid.elevations_m[grid.index(sample.x, sample.y)].is_none() {
            continue;
        }
        let obstruction = !is_target && sample.vertical_margin_m.lt(Binary64::zero());
        let ghost before = points@;
        points.push(
            ProfilePoint {
                distance_m: sample.distance_m,
                terrain_m: sample.terrain_m,
                apparent_terrain_m: sample.apparent_terrain_m,
                los_height_m: sample.los_height_m,
                horizon_slope: horizon,
                target_height_m,
                is_obstruction: obstruction,
                vertical_margin_m: sample.vertical_margin_m,
            },
        );
        proof {
            assert(forall|j: int| 0 <= j < before.len() ==> points@[j] == before[j]);
            match first {
                Some(distance_m) => {
                    let w = choose|w: int|
                        {
                            &&& 0 <= w < before.len()
                            &&& (#[trigger] before[w]).is_obstruction
                            &&& before[w].distance_m == distance_m
                            &&& forall|j: int| 0 <= j < w ==> !(#[trigger] before[j]).is_obstruction
                        };
                    assert(points@[w].is_obstruction);
                },
                None => {
                    assert(points@[before.len() as int].is_obstruction == obstruction);
                },
            }
        }
        if obstruction && first.is_none() {
            first = Some(sample.distance_m);
        }
        horizon = horizon.max(sample.slope);
    }
    Ok(ProfileResult { points, first_obstacle_distance_m: first, visible: first.is_none() })
}

/// A target on the radar's own cell is visible, and its profile is empty.
pub proof fn law_profile_to_self_is_visible<E>(
    grid: &Grid<E>,
    samples: Seq<ProfileSample>,
    target_height_m: Binary64,
    profile: ProfileResult,
)
    requires
        samples.len() == 0,
        profile.points@ == points_after(grid, samples, target_height_m, samples.len()),
        is_first_obstacle(profile.points@, profile.first_obstacle_distance_m),
        profile.visible <==> profile.first_obstacle_distance_m is None,
    ensures
        profile.visible,
        profile.points@.len() == 0,
{
}

/// A profile is visible exactly when no point of it obstructs.
pub proof fn law_visible_without_obstruction(profile: ProfileResult)
    requires
        is_first_obstacle(profile.points@, profile.first_obstacle_distance_m),
        profile.visible <==> profile.first_obstacle_distance_m is None,
    ensures
        profile.visible <==> forall|i: int|
            0 <= i < profile.points@.len() ==> !(#[trigger] profile.points@[i]).is_obstruction,
{
}

/// A sample whose cell has terrain that rises above the line of sight, before the
/// target.
pub open spec fn rises_between<E>(grid: &Grid<E>, samples: Seq<ProfileSample>, i: int) -> bool {
    &&& 0 <= i < samples.len() - 1
    &&& grid.elevations_m@[samples[i].y * grid.width + samples[i].x] is Some
    &&& samples[i].vertical_margin_m.spec_lt(Binary64::zero())
}

/// How many of the first `n` samples have terrain.
pub open spec fn terrain_before<E>(grid: &Grid<E>, samples: Seq<ProfileSample>, n: int) -> nat
    decreases n,
{
    if n <= 0 {
        0
    } else {
        terrain_before(grid, samples, n - 1) + if grid.elevations_m@[samples[n - 1].y * grid.width
            + samples[n - 1].x] is Some {
            1nat
        } else {
            0nat
        }
    }
}

proof fn lemma_terrain_before_grows<E>(
    grid: &Grid<E>,
    samples: Seq<ProfileSample>,
    low: int,
    high: int,
)
    requires
        0 <= low <= high <= samples.len(),
    ensures
        terrain_before(grid, samples, low) <= terrain_before(grid, samples, high),
    decreases high,
{
    if low < high {
        lemma_terrain_before_grows(grid, samples, low, high - 1);
    }
}

/// Each sample with terrain has its point, after those of the samples before it.
proof fn lemma_point_of_sample<E>(
    grid: &Grid<E>,
    samples: Seq<ProfileSample>,
    target_height_m: Binary64,
    n: nat,
    i: int,
)
    requires
        n <= samples.len(),
        0 <= i < n,
        has_terrain(grid, samples[i]),
    ensures
        points_after(grid, samples, target_height_m, n).len() == terrain_before(
            grid,
            samples,
            n as int,
        ),
        terrain_before(grid, samples, i) < terrain_before(grid, samples, n as int),
        points_after(grid, samples, target_height_m, n)[terrain_before(grid, samples, i) as int]
            == point_of(
            samples[i],
            horizon_after(grid, samples, i as nat),
            target_height_m,
            i + 1 == samples.len(),
        ),
    decreases n,
{
    lemma_points_counted(grid, samples, target_height_m, n);
    lemma_points_counted(grid, samples, target_height_m, (n - 1) as nat);
    if i < n - 1 {
        lemma_point_of_sample(grid, samples, target_height_m, (n - 1) as nat, i);
    }
}

proof fn lemma_points_counted<E>(
    grid: &Grid<E>,
    samples: Seq<ProfileSample>,
    target_height_m: Binary64,
    n: nat,
)
    requires
        n <= samples.len(),
    ensures
        points_after(grid, samples, target_height_m, n).len() == terrain_before(
            grid,
            samples,
            n as int,
        ),
    decreases n,
{
    if n > 0 {
        lemma_points_counted(grid, samples, target_height_m, (n - 1) as nat);
    }
}

/// Each point goes back to a sample with terrain.
proof fn lemma_sample_of_point<E>(
    grid: &Grid<E>,
    samples: Seq<ProfileSample>,
    target_height_m: Binary64,
    n: nat,
    k: int,
) -> (i: int)
    requires
        n <= samples.len(),
        0 <= k < points_after(grid, samples, target_height_m, n).len(),
    ensures
        0 <= i < n,
        has_terrain(grid, samples[i]),
        terrain_before(grid, samples, i) == k,
    decreases n,
{
    lemma_points_counted(grid, samples, target_height_m, n);
    lemma_points_counted(grid, samples, target_height_m, (n - 1) as nat);
    if k < points_after(grid, samples, target_height_m, (n - 1) as nat).len() {
        lemma_sample_of_point(grid, samples, target_height_m, (n - 1) as nat, k)
    } else {
        n - 1
    }
}

/// Every sample with terrain has one point, at the place that the number of such
/// samples before it gives, and there are no other points. The point shows what
/// was measured there, and obstructs just where terrain rises above the line of
/// sight before the target.
pub proof fn law_points_show_the_samples<E>(
    grid: &Grid<E>,
    samples: Seq<ProfileSample>,
    target_height_m: Binary64,
    i: int,
)
    requires
        0 <= i < samples.len(),
        grid.elevations_m@[samples[i].y * grid.width + samples[i].x] is Some,
    ensures
        points_after(grid, samples, target_height_m, samples.len()).len() == terrain_before(
            grid,
            samples,
            samples.len() as int,
        ),
        terrain_before(grid, samples, i) < terrain_before(grid, samples, samples.len() as int),
        ({
            let point = points_after(
                grid,
                samples,
                target_height_m,
                samples.len(),
            )[terrain_before(grid, samples, i) as int];
            &&& point.distance_m == samples[i].distance_m
            &&& point.terrain_m == samples[i].terrain_m
            &&& point.apparent_terrain_m == samples[i].apparent_terrain_m
            &&& point.los_height_m == samples[i].los_height_m
            &&& point.vertical_margin_m == samples[i].vertical_margin_m
            &&& point.target_height_m == target_height_m
            &&& point.is_obstruction <==> i < samples.len() - 1
                && samples[i].vertical_margin_m.spec_lt(Binary64::zero())
        }),
{
    lemma_point_of_sample(grid, samples, target_height_m, samples.len(), i);
}

/// The horizon of a point is the steepest slope of the terrain before it: no slope
/// there exceeds it, and it is one of them, or below everything where there is none.
pub proof fn law_profile_horizon_is_the_steepest_slope<E>(
    grid: &Grid<E>,
    samples: Seq<ProfileSample>,
    target_height_m: Binary64,
    i: int,
)
    requires
        0 <= i < samples.len(),
        grid.elevations_m@[samples[i].y * grid.width + samples[i].x] is Some,
    ensures
        ({
            let horizon = points_after(
                grid,
                samples,
                target_height_m,
                samples.len(),
            )[terrain_before(grid, samples, i) as int].horizon_slope;
            &&& forall|j: int|
                0 <= j < i && grid.elevations_m@[(#[trigger] samples[j]).y * grid.width
                    + samples[j].x] is Some && !samples[j].slope.spec_is_nan()
                    ==> samples[j].slope.spec_le(horizon)
            &&& horizon == Binary64::negative_infinity() || exists|j: int|
                0 <= j < i && grid.elevations_m@[(#[trigger] samples[j]).y * grid.width
                    + samples[j].x] is Some && samples[j].slope == horizon
        }),
{
    lemma_point_of_sample(grid, samples, target_height_m, samples.len(), i);
    lemma_horizon_bounds(grid, samples, i as nat);
}

proof fn lemma_horizon_bounds<E>(grid: &Grid<E>, samples: Seq<ProfileSample>, n: nat)
    requires
        n <= samples.len(),
    ensures
        forall|j: int|
            0 <= j < n && has_terrain(grid, #[trigger] samples[j])
                && !samples[j].slope.spec_is_nan() ==> samples[j].slope.spec_le(
                horizon_after(grid, samples, n),
            ),
        horizon_after(grid, samples, n) == Binary64::negative_infinity() || exists|j: int|
            0 <= j < n && has_terrain(grid, #[trigger] samples[j]) && samples[j].slope
                == horizon_after(grid, samples, n),
    decreases n,
{
    if n > 0 {
        lemma_horizon_bounds(grid, samples, (n - 1) as nat);
        assert(samples[n - 1] == samples[n - 1]);
    }
}

/// A profile is visible exactly when no terrain before the target rises above the
/// line of sight. Otherwise the first obstacle is the nearest such sample: it
/// stands at that sample's distance, and no sample that rises lies before it.
pub proof fn law_first_rise_is_the_first_obstacle<E>(
    grid: &Grid<E>,
    samples: Seq<ProfileSample>,
    target_height_m: Binary64,
    profile: ProfileResult,
)
    requires
        profile.points@ == points_after(grid, samples, target_height_m, samples.len()),
        is_first_obstacle(profile.points@, profile.first_obstacle_distance_m),
        profile.visible <==> profile.first_obstacle_distance_m is None,
    ensures
        profile.visible <==> forall|i: int|
            0 <= i < samples.len() - 1 && grid.elevations_m@[(#[trigger] samples[i]).y * grid.width
                + samples[i].x] is Some ==> !samples[i].vertical_margin_m.spec_lt(Binary64::zero()),
        profile.visible <==> profile.first_obstacle_distance_m is None,
        profile.first_obstacle_distance_m matches Some(distance_m) ==> exists|i: int| #[trigger]
            rises_between(grid, samples, i) && samples[i].distance_m == distance_m && forall|j: int|
             #[trigger] rises_between(grid, samples, j) ==> i <= j,
{
    let points = profile.points@;
    let n = samples.len();
    assert forall|i: int| rises_between(grid, samples, i) implies !profile.visible by {
        lemma_point_of_sample(grid, samples, target_height_m, n, i);
        assert(points[terrain_before(grid, samples, i) as int].is_obstruction);
    }
    if !profile.visible {
        let w = choose|w: int|
            {
                &&& 0 <= w < points.len()
                &&& (#[trigger] points[w]).is_obstruction
                &&& points[w].distance_m == profile.first_obstacle_distance_m->0
                &&& forall|j: int| 0 <= j < w ==> !(#[trigger] points[j]).is_obstruction
            };
        let i = lemma_sample_of_point(grid, samples, target_height_m, n, w);
        lemma_point_of_sample(grid, samples, target_height_m, n, i);
        assert(rises_between(grid, samples, i));
        assert forall|j: int| rises_between(grid, samples, j) implies i <= j by {
            lemma_point_of_sample(grid, samples, target_height_m, n, j);
            if j < i {
                lemma_terrain_before_grows(grid, samples, j + 1, i);
                assert(points[terrain_before(grid, samples, j) as int].is_obstruction);
            }
        }
    } else {
        assert forall|i: int|
            0 <= i < samples.len() - 1 && grid.elevations_m@[(#[trigger] samples[i]).y * grid.width
                + samples[i].x] is Some implies !samples[i].vertical_margin_m.spec_lt(
            Binary64::zero(),
        ) by {
            if samples[i].vertical_margin_m.spec_lt(Binary64::zero()) {
                assert(rises_between(grid, samples, i));
            }
        }
    }
}

/// Where samples do not come nearer as they go on, no terrain that rises above the
/// line of sight lies nearer than the first obstacle.
pub proof fn law_first_obstacle_is_nearest<E>(
    grid: &Grid<E>,
    samples: Seq<ProfileSample>,
    target_height_m: Binary64,
    profile: ProfileResult,
    k: int,
)
    requires
        profile.points@ == points_after(grid, samples, target_height_m, samples.len()),
        is_first_obstacle(profile.points@, profile.first_obstacle_distance_m),
        profile.visible <==> profile.first_obstacle_distance_m is None,
        forall|i: int, j: int|
            0 <= i <= j < samples.len() ==> (#[trigger] samples[i]).distance_m.spec_le(
                (#[trigger] samples[j]).distance_m,
            ),
        rises_between(grid, samples, k),
    ensures
        !profile.visible,
        profile.first_obstacle_distance_m is Some,
        profile.first_obstacle_distance_m->0.spec_le(samples[k].distance_m),
{
    law_first_rise_is_the_first_obstacle(grid, samples, target_height_m, profile);
    assert(samples[k].vertical_margin_m.spec_lt(Binary64::zero()));
    let i = choose|i: int| #[trigger]
        rises_between(grid, samples, i) && samples[i].distance_m
            == profile.first_obstacle_distance_m->0 && forall|j: int| #[trigger]
            rises_between(grid, samples, j) ==> i <= j;
    assert(i <= k);
    assert(samples[i].distance_m.spec_le(samples[k].distance_m));
}

/// A profile has as many steps as the larger of its two extents, whichever way it
/// runs: no fewer than either, and no more than both need.
pub proof fn law_profile_steps_cover_the_way(config: &LosConfig, target_x: int, target_y: int)
    ensures
        ({
            let steps = step_count(config, target_x, target_y);
            &&& -steps <= target_x - config.radar_x <= steps
            &&& -steps <= target_y - config.radar_y <= steps
            &&& steps == target_x - config.radar_x || steps == config.radar_x - target_x || steps
                == target_y - config.radar_y || steps == config.radar_y - target_y
        }),
{
}

/// A profile is refused just where radar or target lies outside the grid, or has no
/// terrain under it.
pub proof fn law_profile_is_refused_for_cause<E>(
    grid: &Grid<E>,
    config: &LosConfig,
    target_x: int,
    target_y: int,
)
    ensures
        ({
            let inside = config.radar_x < grid.width && config.radar_y < grid.height && target_x
                < grid.width && target_y < grid.height;
            let radar = grid.elevations_m@[config.radar_y * grid.width + config.radar_x];
            let target = grid.elevations_m@[target_y * grid.width + target_x];
            let error = profile_error(grid, config, target_x, target_y);
            &&& error is None <==> inside && radar is Some && target is Some
            &&& error == Some(CoverageError::RadarOutsideGrid) <==> !inside
            &&& error == Some(CoverageError::RadarOnNoData) <==> inside && radar is None
            &&& error == Some(CoverageError::InvalidGrid) <==> inside && radar is Some && target
                is None
        }),
{
}

} // verus!
