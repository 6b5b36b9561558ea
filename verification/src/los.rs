//! Terrain line of sight: grids, rays and the coverage that they leave behind.
//!
//! The model is geometric intervisibility only. It does **not** model RF power,
//! free-space or atmospheric loss, Fresnel zones, diffraction or clutter.
use crate::bitset::{how_many, lemma_how_many_agrees, BitSet};
use crate::float::Binary64;
use std::sync::Arc;
use vstd::arithmetic::power2::{lemma2_to64, lemma_pow2_adds, lemma_pow2_strictly_increases,
    lemma_pow2_unfold, pow2};
use vstd::prelude::*;

verus! {

/// The stored height of a cell that no ray has reached.
pub const NO_DATA_HEIGHT: u16 = 65535;

/// Increment whenever LOS semantics change in a way that invalidates persisted results.
pub const LOS_ALGORITHM_VERSION: u16 = 3;

#[derive(Clone, Copy, Debug, PartialEq, Eq, Structural)]
pub enum CoverageError {
    InvalidGrid,
    RadarOutsideGrid,
    RadarOnNoData,
    InvalidConfig,
}

impl CoverageError {
    pub fn message(&self) -> (text: &'static str)
        ensures
            text@ == (match *self {
                CoverageError::InvalidGrid => "InvalidGrid"@,
                CoverageError::RadarOutsideGrid => "RadarOutsideGrid"@,
                CoverageError::RadarOnNoData => "RadarOnNoData"@,
                CoverageError::InvalidConfig => "InvalidConfig"@,
            }),
    {
        match self {
            CoverageError::InvalidGrid => "InvalidGrid",
            CoverageError::RadarOutsideGrid => "RadarOutsideGrid",
            CoverageError::RadarOnNoData => "RadarOnNoData",
            CoverageError::InvalidConfig => "InvalidConfig",
        }
    }
}

/// A raster of optional elevations, row by row.
#[derive(Clone, Debug)]
pub struct Grid<E> {
    pub width: usize,
    pub height: usize,
    pub elevations_m: Arc<[Option<E>]>,
}

/// `Vec<T>` into `Arc<[T]>` (`From<Vec<T>> for Arc<[T]>`): the slice holds the
/// items of the vector in their order.
#[verifier::external_body]
fn share<E>(items: Vec<Option<E>>) -> (shared: Arc<[Option<E>]>)
    ensures
        shared@ == items@,
{
    Arc::from(items)
}

impl<E> Grid<E> {
    /// There is one elevation slot per cell.
    pub open spec fn wf(&self) -> bool {
        self.width * self.height == self.elevations_m@.len()
    }

    pub open spec fn spec_index(&self, x: int, y: int) -> int {
        y * self.width + x
    }

    pub fn new(width: usize, height: usize, elevations_m: Vec<Option<E>>) -> (grid: Result<
        Self,
        CoverageError,
    >)
        ensures
            grid is Ok <==> width * height == elevations_m@.len(),
            grid matches Ok(g) ==> g.wf() && g.width == width && g.height == height
                && g.elevations_m@ == elevations_m@,
            grid matches Err(e) ==> e == CoverageError::InvalidGrid,
    {
        Self::from_shared(width, height, share(elevations_m))
    }

    pub fn from_shared(width: usize, height: usize, elevations_m: Arc<[Option<E>]>) -> (grid:
        Result<Self, CoverageError>)
        ensures
            grid is Ok <==> width * height == elevations_m@.len(),
            grid matches Ok(g) ==> g.wf() && g.width == width && g.height == height
                && g.elevations_m == elevations_m,
            grid matches Err(e) ==> e == CoverageError::InvalidGrid,
    {
        let len: usize = elevations_m.len();
        match width.checked_mul(height) {
            Some(cells) => if cells != len {
                Err(CoverageError::InvalidGrid)
            } else {
                Ok(Grid { width, height, elevations_m })
            },
            None => Err(CoverageError::InvalidGrid),
        }
    }

    pub fn index(&self, x: usize, y: usize) -> (i: usize)
        requires
            self.spec_index(x as int, y as int) <= usize::MAX,
        ensures
            i == self.spec_index(x as int, y as int),
    {
        assert(0 <= y * self.width) by (nonlinear_arith)
            requires
                y >= 0,
                self.width >= 0,
        ;
        y * self.width + x
    }

    /// A cell inside the grid has its own slot.
    pub proof fn lemma_index(&self, x: int, y: int)
        requires
            self.wf(),
            0 <= x < self.width,
            0 <= y < self.height,
        ensures
            0 <= self.spec_index(x, y) < self.elevations_m@.len(),
    {
        lemma_row_major(self.width as int, self.height as int, x, y);
    }
}

pub proof fn lemma_row_major(width: int, height: int, x: int, y: int)
    requires
        0 <= x < width,
        0 <= y < height,
    ensures
        0 <= y * width + x < width * height,
{
    assert(0 <= y * width + x < width * height) by (nonlinear_arith)
        requires
            0 <= x < width,
            0 <= y < height,
    ;
}

#[derive(Clone, Copy, Debug)]
pub struct LosConfig {
    pub radar_x: usize,
    pub radar_y: usize,
    pub antenna_agl_m: Binary64,
    pub cell_size_m: Binary64,
    pub range_m: Binary64,
    pub effective_earth_k: Binary64,
}

impl LosConfig {
    /// The cell size and the effective-Earth factor are positive, and the range
    /// is not negative.
    pub open spec fn usable(&self) -> bool {
        Binary64::zero().spec_lt(self.cell_size_m) && Binary64::zero().spec_le(self.range_m) && Binary64::zero().spec_lt(
            self.effective_earth_k,
        )
    }
}

/// Where the radar stands: its cell, and the terrain under it.
#[derive(Clone, Copy, Debug)]
pub struct RadarSite<E> {
    pub index: usize,
    pub terrain: E,
}

/// The reason why no coverage can be computed, if there is one.
pub open spec fn site_error<E>(grid: &Grid<E>, config: &LosConfig) -> Option<CoverageError> {
    if config.radar_x >= grid.width || config.radar_y >= grid.height {
        Some(CoverageError::RadarOutsideGrid)
    } else if !config.usable() {
        Some(CoverageError::InvalidConfig)
    } else if grid.elevations_m@[grid.spec_index(config.radar_x as int, config.radar_y as int)]
        is None {
        Some(CoverageError::RadarOnNoData)
    } else {
        None
    }
}

/// Checks the configuration against the grid and finds the radar's cell.
pub fn radar_site<E: Copy>(grid: &Grid<E>, config: &LosConfig) -> (site: Result<
    RadarSite<E>,
    CoverageError,
>)
    requires
        grid.wf(),
    ensures
        site matches Err(e) ==> site_error(grid, config) == Some(e),
        site matches Ok(s) ==> site_error(grid, config) is None && s.index == grid.spec_index(
            config.radar_x as int,
            config.radar_y as int,
        ) && s.index < grid.elevations_m@.len() && grid.elevations_m@[s.index as int] == Some(
            s.terrain,
        ),
{
    if config.radar_x >= grid.width || config.radar_y >= grid.height {
        return Err(CoverageError::RadarOutsideGrid);
    }
    if !(Binary64::zero().lt(config.cell_size_m) && Binary64::zero().le(config.range_m) && Binary64::zero().lt(
        config.effective_earth_k,
    )) {
        return Err(CoverageError::InvalidConfig);
    }
    proof {
        grid.lemma_index(config.radar_x as int, config.radar_y as int);
    }
    let len: usize = grid.elevations_m.len();
    let index: usize = grid.index(config.radar_x, config.radar_y);
    match grid.elevations_m[index] {
        Some(terrain) => Ok(RadarSite { index, terrain }),
        None => Err(CoverageError::RadarOnNoData),
    }
}

/// A height that one ray needs at one cell.
#[derive(Clone, Copy, Debug, PartialEq, Eq, Structural)]
pub struct Visit {
    pub index: usize,
    pub agl: u16,
}

/// Which cells a radar sees at ground level, and the lowest height above ground
/// that it sees in each.
#[derive(Clone, Debug)]
pub struct Coverage {
    pub ground_visible: BitSet,
    pub minimum_agl_m: Vec<u16>,
}

pub open spec fn visited_at(visits: Seq<Visit>, i: int) -> bool {
    exists|v: int| 0 <= v < visits.len() && (#[trigger] visits[v]).index == i
}

/// `value` is what a cell stores after some visits: the largest height that any
/// of them needs. The radar's own cell starts at zero, and a cell without visits
/// keeps [`NO_DATA_HEIGHT`].
pub open spec fn is_settled(radar_index: int, visits: Seq<Visit>, i: int, value: u16) -> bool {
    if i != radar_index && !visited_at(visits, i) {
        value == NO_DATA_HEIGHT
    } else {
        &&& forall|v: int|
            0 <= v < visits.len() && (#[trigger] visits[v]).index == i ==> visits[v].agl <= value
        &&& (i == radar_index && value == 0) || exists|v: int|
            0 <= v < visits.len() && (#[trigger] visits[v]).index == i && visits[v].agl == value
    }
}

/// The heights are real ones and the cells exist.
pub open spec fn visits_wf(visits: Seq<Visit>, cells: int) -> bool {
    forall|v: int|
        0 <= v < visits.len() ==> (#[trigger] visits[v]).index < cells && visits[v].agl
            < NO_DATA_HEIGHT
}

impl Coverage {
    /// The coverage of a grid with `cells` cells that a sequence of visits
    /// leaves behind.
    pub open spec fn is_result(&self, cells: int, radar_index: int, visits: Seq<Visit>) -> bool {
        &&& self.minimum_agl_m@.len() == cells
        &&& self.ground_visible.wf()
        &&& self.ground_visible.tail_clear()
        &&& self.ground_visible.spec_len() == cells
        &&& forall|i: int|
            0 <= i < cells ==> is_settled(
                radar_index,
                visits,
                i,
                #[trigger] self.minimum_agl_m@[i],
            )
        &&& forall|i: int|
            0 <= i < cells ==> #[trigger] self.ground_visible@[i] == (self.minimum_agl_m@[i] == 0)
    }
}

/// Collects visits into a coverage.
pub struct CoverageBuilder {
    radar_index: usize,
    minimum_agl_m: Vec<u16>,
    history: Ghost<Seq<Visit>>,
}

impl CoverageBuilder {
    pub closed spec fn spec_cells(&self) -> int {
        self.minimum_agl_m@.len() as int
    }

    pub closed spec fn spec_radar_index(&self) -> int {
        self.radar_index as int
    }

    /// All visits that were recorded, in order.
    pub closed spec fn visits(&self) -> Seq<Visit> {
        self.history@
    }

    pub closed spec fn wf(&self) -> bool {
        &&& self.radar_index < self.minimum_agl_m@.len()
        &&& visits_wf(self.history@, self.minimum_agl_m@.len() as int)
        &&& forall|i: int|
            0 <= i < self.minimum_agl_m@.len() ==> is_settled(
                self.radar_index as int,
                self.history@,
                i,
                #[trigger] self.minimum_agl_m@[i],
            )
    }

    pub fn new(cells: usize, radar_index: usize) -> (builder: Self)
        requires
            radar_index < cells,
        ensures
            builder.wf(),
            builder.spec_cells() == cells,
            builder.spec_radar_index() == radar_index,
            builder.visits() == Seq::<Visit>::empty(),
    {
        let mut minimum_agl_m: Vec<u16> = vec![NO_DATA_HEIGHT; cells];
        minimum_agl_m[radar_index] = 0;
        CoverageBuilder { radar_index, minimum_agl_m, history: Ghost(Seq::empty()) }
    }

    /// Takes in one visit. Whatever the order of the visits, the largest height
    /// of each cell stays.
    pub fn record(&mut self, visit: Visit)
        requires
            old(self).wf(),
            visit.index < old(self).spec_cells(),
            visit.agl < NO_DATA_HEIGHT,
        ensures
            final(self).wf(),
            final(self).spec_cells() == old(self).spec_cells(),
            final(self).spec_radar_index() == old(self).spec_radar_index(),
            final(self).visits() == old(self).visits().push(visit),
    {
        let stored: u16 = self.minimum_agl_m[visit.index];
        let kept: u16 = if stored == NO_DATA_HEIGHT || stored < visit.agl {
            visit.agl
        } else {
            stored
        };
        self.minimum_agl_m[visit.index] = kept;
        let ghost before = self.history@;
        let ghost after = before.push(visit);
        self.history = Ghost(after);
        proof {
            assert forall|i: int| 0 <= i < self.minimum_agl_m@.len() implies is_settled(
                self.radar_index as int,
                after,
                i,
                #[trigger] self.minimum_agl_m@[i],
            ) by {
                let old_value = old(self).minimum_agl_m@[i];
                assert(is_settled(self.radar_index as int, before, i, old_value));
                assert(after[before.len() as int] == visit);
                assert(forall|v: int| 0 <= v < before.len() ==> after[v] == before[v]);
                if i == visit.index {
                    assert(visited_at(after, i));
                    if old_value != NO_DATA_HEIGHT {
                        if i != self.radar_index || old_value != 0 {
                            let w = choose|v: int|
                                0 <= v < before.len() && (#[trigger] before[v]).index == i
                                    && before[v].agl == old_value;
                            assert(after[w].agl == old_value);
                        }
                    } else {
                        assert(i != self.radar_index || old_value == 0 || exists|v: int|
                            0 <= v < before.len() && (#[trigger] before[v]).index == i
                                && before[v].agl == old_value);
                        assert(!visited_at(before, i));
                    }
                } else {
                    if visited_at(after, i) {
                        let w = choose|v: int|
                            0 <= v < after.len() && (#[trigger] after[v]).index == i;
                        assert(before[w].index == i);
                        assert(visited_at(before, i));
                    }
                    if visited_at(before, i) {
                        let w = choose|v: int|
                            0 <= v < before.len() && (#[trigger] before[v]).index == i;
                        assert(after[w].index == i);
                    }
                    if i == self.radar_index || visited_at(before, i) {
                        if !(i == self.radar_index && old_value == 0) {
                            let w = choose|v: int|
                                0 <= v < before.len() && (#[trigger] before[v]).index == i
                                    && before[v].agl == old_value;
                            assert(after[w].agl == old_value);
                        }
                    }
                }
            }
        }
    }

    /// Takes in visits in their order.
    pub fn record_all(&mut self, visits: &[Visit])
        requires
            old(self).wf(),
            visits_wf(visits@, old(self).spec_cells()),
        ensures
            final(self).wf(),
            final(self).spec_cells() == old(self).spec_cells(),
            final(self).spec_radar_index() == old(self).spec_radar_index(),
            final(self).visits() == old(self).visits() + visits@,
    {
        let mut i: usize = 0;
        assert(self.visits() =~= old(self).visits() + visits@.take(0));
        while i < visits.len()
            invariant
                i <= visits@.len(),
                self.wf(),
                visits_wf(visits@, old(self).spec_cells()),
                self.spec_cells() == old(self).spec_cells(),
                self.spec_radar_index() == old(self).spec_radar_index(),
                self.visits() == old(self).visits() + visits@.take(i as int),
            decreases visits@.len() - i,
        {
            self.record(visits[i]);
            i += 1;
            assert(self.visits() =~= old(self).visits() + visits@.take(i as int));
        }
        assert(visits@.take(i as int) =~= visits@);
    }

    /// Marks the cells that need no height at all as visible from the ground.
    pub fn finish(self) -> (coverage: Coverage)
        requires
            self.wf(),
        ensures
            coverage.is_result(self.spec_cells(), self.spec_radar_index(), self.visits()),
    {
        let cells: usize = self.minimum_agl_m.len();
        let mut ground_visible = BitSet::new(cells);
        let mut i: usize = 0;
        while i < cells
            invariant
                i <= cells,
                cells == self.minimum_agl_m@.len(),
                ground_visible.wf(),
                ground_visible.tail_clear(),
                ground_visible.spec_len() == cells,
                forall|j: int|
                    0 <= j < cells ==> #[trigger] ground_visible@[j] == (j < i
                        && self.minimum_agl_m@[j] == 0),
            decreases cells - i,
        {
            if self.minimum_agl_m[i] == 0 {
                ground_visible.set(i);
            }
            i += 1;
        }
        Coverage { ground_visible, minimum_agl_m: self.minimum_agl_m }
    }
}

/// Computes the coverage that the visits of all rays give.
pub fn compute_coverage<E: Copy>(
    grid: &Grid<E>,
    config: &LosConfig,
    visits: &[Visit],
) -> (coverage: Result<Coverage, CoverageError>)
    requires
        grid.wf(),
        visits_wf(visits@, grid.elevations_m@.len() as int),
    ensures
        coverage matches Err(e) ==> site_error(grid, config) == Some(e),
        coverage matches Ok(c) ==> site_error(grid, config) is None && c.is_result(
            grid.elevations_m@.len() as int,
            grid.spec_index(config.radar_x as int, config.radar_y as int),
            visits@,
        ),
{
    match radar_site(grid, config) {
        Err(error) => Err(error),
        Ok(site) => {
            let mut builder = CoverageBuilder::new(grid.elevations_m.len(), site.index);
            builder.record_all(visits);
            assert(builder.visits() =~= visits@);
            Ok(builder.finish())
        },
    }
}

/// One ray of a sector: its bearing and width, the steepest terrain slope that
/// it has met, and the distance of its last cell.
#[derive(Clone, Copy, Debug, PartialEq, Eq, Structural)]
pub struct PolarRay {
    pub angle: Binary64,
    pub width: Binary64,
    pub horizon: Binary64,
    pub last_distance_m: Binary64,
}

impl PolarRay {
    /// A ray that has met nothing yet.
    pub fn new(angle: Binary64, width: Binary64) -> (ray: Self)
        ensures
            ray == (PolarRay {
                angle,
                width,
                horizon: Binary64::negative_infinity(),
                last_distance_m: Binary64::zero(),
            }),
    {
        PolarRay { angle, width, horizon: Binary64::negative_infinity(), last_distance_m: Binary64::zero() }
    }
}

/// The bearings and the width of the two halves of a ray.
#[derive(Clone, Copy, Debug, PartialEq, Eq, Structural)]
pub struct RaySplit {
    pub left_angle: Binary64,
    pub right_angle: Binary64,
    pub width: Binary64,
}

/// Rays are bisected until their transverse width is at most half a cell.
pub fn must_subdivide(transverse_m: Binary64, half_cell_m: Binary64) -> (b: bool)
    ensures
        b == half_cell_m.spec_lt(transverse_m),
{
    half_cell_m.lt(transverse_m)
}

/// How many rays there are after some bisections of the eight sectors.
pub open spec fn rays_after(bisections: nat) -> nat {
    8 * pow2(bisections)
}

/// The number of bisections after which rays can no longer be counted.
pub const MAX_BISECTIONS: usize = 61;

/// Number of adaptive polar sectors at maximum range. `transverse_m` holds their
/// transverse width there after each number of bisections.
///
/// Sectors are repeatedly bisected, so their transverse width never exceeds half
/// a Cartesian grid cell. The half-cell margin, combined with a one-cell radial
/// step, ensures nearest-cell projection covers square cell centres at every
/// bearing. Where they can no longer be counted, the largest number stands for
/// theirs.
pub fn dynamic_ray_count(
    range_m: Binary64,
    cell_size_m: Binary64,
    transverse_m: &[Binary64],
    half_cell_m: Binary64,
) -> (rays: usize)
    requires
        transverse_m@.len() == MAX_BISECTIONS,
    ensures
        range_m.spec_le(Binary64::zero()) || cell_size_m.spec_le(Binary64::zero()) ==> rays == 8,
        !range_m.spec_le(Binary64::zero()) && !cell_size_m.spec_le(Binary64::zero()) ==> {
            ||| exists|k: int|
                {
                    &&& 0 <= k < MAX_BISECTIONS
                    &&& rays == rays_after(k as nat)
                    &&& !half_cell_m.spec_lt(#[trigger] transverse_m@[k])
                    &&& forall|j: int|
                        0 <= j < k ==> half_cell_m.spec_lt(#[trigger] transverse_m@[j])
                }
            ||| {
                &&& rays == usize::MAX
                &&& forall|k: int|
                    0 <= k < MAX_BISECTIONS && rays_after(k as nat) <= usize::MAX
                        ==> half_cell_m.spec_lt(#[trigger] transverse_m@[k])
            }
        },
{
    if range_m.le(Binary64::zero()) || cell_size_m.le(Binary64::zero()) {
        return 8;
    }
    let mut rays: usize = 8;
    let mut i: usize = 0;
    proof {
        lemma2_to64();
        lemma_pow2_adds(32, 29);
        lemma2_to64();
    }
    while must_subdivide(transverse_m[i], half_cell_m)
        invariant
            i < MAX_BISECTIONS,
            transverse_m@.len() == MAX_BISECTIONS,
            !range_m.spec_le(Binary64::zero()),
            !cell_size_m.spec_le(Binary64::zero()),
            rays == rays_after(i as nat),
            pow2(61) == 0x2000_0000_0000_0000,
            forall|j: int| 0 <= j < i ==> half_cell_m.spec_lt(#[trigger] transverse_m@[j]),
        decreases MAX_BISECTIONS - i,
    {
        proof {
            lemma_pow2_unfold((i + 1) as nat);
        }
        match rays.checked_mul(2) {
            Some(next) => {
                rays = next;
                i += 1;
            },
            None => {
                proof {
                    assert forall|k: int|
                        0 <= k < MAX_BISECTIONS && rays_after(k as nat)
                            <= usize::MAX implies half_cell_m.spec_lt(
                        #[trigger] transverse_m@[k],
                    ) by {
                        if k > i + 1 {
                            lemma_pow2_strictly_increases((i + 1) as nat, k as nat);
                        }
                    }
                }
                return usize::MAX;
            },
        }
    }
    rays
}

/// One half of a ray.
pub open spec fn half_ray(ray: PolarRay, split: RaySplit, left: bool) -> PolarRay {
    PolarRay {
        angle: if left {
            split.left_angle
        } else {
            split.right_angle
        },
        width: split.width,
        horizon: ray.horizon,
        last_distance_m: ray.last_distance_m,
    }
}

/// Replaces each ray by its two halves, which inherit its horizon and its last
/// distance.
pub fn subdivide_rays(rays: &[PolarRay], splits: &[RaySplit]) -> (children: Vec<PolarRay>)
    requires
        rays@.len() == splits@.len(),
    ensures
        children@.len() == 2 * rays@.len(),
        forall|c: int|
            0 <= c < children@.len() ==> #[trigger] children@[c] == half_ray(
                rays@[c / 2],
                splits@[c / 2],
                c % 2 == 0,
            ),
{
    let mut children: Vec<PolarRay> = Vec::new();
    let mut i: usize = 0;
    while i < rays.len()
        invariant
            i <= rays@.len(),
            rays@.len() == splits@.len(),
            children@.len() == 2 * i,
            forall|c: int|
                0 <= c < children@.len() ==> #[trigger] children@[c] == half_ray(
                    rays@[c / 2],
                    splits@[c / 2],
                    c % 2 == 0,
                ),
        decreases rays@.len() - i,
    {
        let ray = rays[i];
        let split = splits[i];
        children.push(
            PolarRay {
                angle: split.left_angle,
                width: split.width,
                horizon: ray.horizon,
                last_distance_m: ray.last_distance_m,
            },
        );
        children.push(
            PolarRay {
                angle: split.right_angle,
                width: split.width,
                horizon: ray.horizon,
                last_distance_m: ray.last_distance_m,
            },
        );
        i += 1;
    }
    children
}

/// The grid cell that a ray samples, with its squared distance in cells.
#[derive(Clone, Copy, Debug, PartialEq, Eq, Structural)]
pub struct CellTarget {
    pub index: usize,
    pub distance_squared_cells: u64,
}

/// The target at an offset from the radar, if it lies in the grid.
pub open spec fn target_at(
    width: int,
    height: int,
    radar_x: int,
    radar_y: int,
    offset: (i32, i32),
) -> Option<CellTarget> {
    let x = radar_x + offset.0;
    let y = radar_y + offset.1;
    if 0 <= x < width && 0 <= y < height {
        Some(
            CellTarget {
                index: (y * width + x) as usize,
                distance_squared_cells: (offset.0 * offset.0 + offset.1 * offset.1) as u64,
            },
        )
    } else {
        None
    }
}

fn locate_cell<E>(grid: &Grid<E>, config: &LosConfig, offset: (i32, i32)) -> (target: Option<
    CellTarget,
>)
    requires
        grid.wf(),
    ensures
        target == target_at(
            grid.width as int,
            grid.height as int,
            config.radar_x as int,
            config.radar_y as int,
            offset,
        ),
        target matches Some(t) ==> t.index < grid.elevations_m@.len(),
{
    let (dx, dy) = offset;
    match (config.radar_x.checked_add_signed(dx as isize), config.radar_y.checked_add_signed(
        dy as isize,
    )) {
        (Some(x), Some(y)) => {
            if x >= grid.width || y >= grid.height {
                return None;
            }
            proof {
                grid.lemma_index(x as int, y as int);
            }
            let len: usize = grid.elevations_m.len();
            let index: usize = grid.index(x, y);
            let wide_x: i128 = dx as i128;
            let wide_y: i128 = dy as i128;
            assert(0 <= wide_x * wide_x <= 0x8000_0000 * 0x8000_0000) by (nonlinear_arith)
                requires
                    -0x8000_0000 <= wide_x <= 0x8000_0000,
            ;
            assert(0 <= wide_y * wide_y <= 0x8000_0000 * 0x8000_0000) by (nonlinear_arith)
                requires
                    -0x8000_0000 <= wide_y <= 0x8000_0000,
            ;
            let squared: i128 = wide_x * wide_x + wide_y * wide_y;
            Some(CellTarget { index, distance_squared_cells: squared as u64 })
        },
        _ => None,
    }
}

/// Finds the cell of each ray from its offset to the radar.
pub fn locate_cells<E>(grid: &Grid<E>, config: &LosConfig, offsets: &[(i32, i32)]) -> (targets: Vec<
    Option<CellTarget>,
>)
    requires
        grid.wf(),
    ensures
        targets@.len() == offsets@.len(),
        forall|i: int|
            0 <= i < offsets@.len() ==> #[trigger] targets@[i] == target_at(
                grid.width as int,
                grid.height as int,
                config.radar_x as int,
                config.radar_y as int,
                offsets@[i],
            ),
        targets_wf(targets@, grid.elevations_m@.len() as int),
        own_cell_is_near(grid, config, targets@),
{
    let mut targets: Vec<Option<CellTarget>> = Vec::new();
    let cells: usize = grid.elevations_m.len();
    let mut i: usize = 0;
    while i < offsets.len()
        invariant
            i <= offsets@.len(),
            grid.wf(),
            cells == grid.elevations_m@.len(),
            targets@.len() == i,
            forall|j: int|
                0 <= j < i ==> #[trigger] targets@[j] == target_at(
                    grid.width as int,
                    grid.height as int,
                    config.radar_x as int,
                    config.radar_y as int,
                    offsets@[j],
                ),
            targets_wf(targets@, grid.elevations_m@.len() as int),
            own_cell_is_near(grid, config, targets@),
        decreases offsets@.len() - i,
    {
        let target = locate_cell(grid, config, offsets[i]);
        proof {
            lemma_own_cell(grid, config, offsets@[i as int]);
        }
        targets.push(target);
        i += 1;
    }
    targets
}

pub open spec fn targets_wf(targets: Seq<Option<CellTarget>>, cells: int) -> bool {
    forall|i: int|
        0 <= i < targets.len() ==> ((#[trigger] targets[i]) matches Some(t) ==> t.index < cells)
}

/// The radar stands on a cell of the grid.
pub open spec fn radar_in_grid<E>(grid: &Grid<E>, config: &LosConfig) -> bool {
    config.radar_x < grid.width && config.radar_y < grid.height
}

/// The index of the radar's own cell.
pub open spec fn radar_index<E>(grid: &Grid<E>, config: &LosConfig) -> int {
    grid.spec_index(config.radar_x as int, config.radar_y as int)
}

/// A target on the radar's own cell is at no distance.
pub open spec fn own_cell_is_near<E>(
    grid: &Grid<E>,
    config: &LosConfig,
    targets: Seq<Option<CellTarget>>,
) -> bool {
    radar_in_grid(grid, config) ==> forall|i: int|
        0 <= i < targets.len() ==> ((#[trigger] targets[i]) matches Some(t) ==> t.index
            == radar_index(grid, config) ==> t.distance_squared_cells == 0)
}

proof fn lemma_own_cell<E>(grid: &Grid<E>, config: &LosConfig, offset: (i32, i32))
    requires
        grid.wf(),
        grid.elevations_m@.len() <= usize::MAX,
    ensures
        radar_in_grid(grid, config) ==> (target_at(
            grid.width as int,
            grid.height as int,
            config.radar_x as int,
            config.radar_y as int,
            offset,
        ) matches Some(t) ==> t.index == radar_index(grid, config) ==> t.distance_squared_cells
            == 0),
{
    let width = grid.width as int;
    let (rx, ry) = (config.radar_x as int, config.radar_y as int);
    let (x, y) = (rx + offset.0, ry + offset.1);
    if radar_in_grid(grid, config) && 0 <= x < width && 0 <= y < grid.height {
        grid.lemma_index(x, y);
        if y * width + x == ry * width + rx {
            assert(y == ry) by (nonlinear_arith)
                requires
                    y * width + x == ry * width + rx,
                    0 <= x < width,
                    0 <= rx < width,
            ;
            assert(offset.0 == 0 && offset.1 == 0);
            assert(offset.0 * offset.0 + offset.1 * offset.1 == 0) by (nonlinear_arith)
                requires
                    offset.0 == 0,
                    offset.1 == 0,
            ;
        }
    }
}

/// What was measured at a ray's cell: the distance and its square, the height
/// that the ray's horizon asks for, and the slope of the terrain.
#[derive(Clone, Copy, Debug, PartialEq, Eq, Structural)]
pub struct Measure {
    pub distance_squared: Binary64,
    pub distance: Binary64,
    pub needed: Binary64,
    pub slope: Binary64,
}

/// A ray moves to a cell that is in range and farther than its last one. It never
/// moves to the radar's own cell, which is at no distance.
pub open spec fn ray_moves(
    ray: PolarRay,
    target: Option<CellTarget>,
    measure: Measure,
    range_squared: Binary64,
) -> bool {
    target is Some && target->0.distance_squared_cells > 0 && !range_squared.spec_lt(
        measure.distance_squared,
    ) && !measure.distance.spec_le(ray.last_distance_m)
}

/// A ray sees the cell that it moves to where that cell has terrain.
pub open spec fn ray_sees<E>(
    elevations: Seq<Option<E>>,
    ray: PolarRay,
    target: Option<CellTarget>,
    measure: Measure,
    range_squared: Binary64,
) -> bool {
    ray_moves(ray, target, measure, range_squared) && elevations[target->0.index as int] is Some
}

/// A ray after one radial step. Only terrain raises the horizon.
pub open spec fn ray_after<E>(
    elevations: Seq<Option<E>>,
    ray: PolarRay,
    target: Option<CellTarget>,
    measure: Measure,
    range_squared: Binary64,
) -> PolarRay {
    PolarRay {
        angle: ray.angle,
        width: ray.width,
        horizon: if ray_sees(elevations, ray, target, measure, range_squared) {
            ray.horizon.spec_max(measure.slope)
        } else {
            ray.horizon
        },
        last_distance_m: if ray_moves(ray, target, measure, range_squared) {
            measure.distance
        } else {
            ray.last_distance_m
        },
    }
}

/// The visits of the first `n` rays in one radial step.
pub open spec fn step_visits<E>(
    elevations: Seq<Option<E>>,
    rays: Seq<PolarRay>,
    targets: Seq<Option<CellTarget>>,
    measures: Seq<Measure>,
    range_squared: Binary64,
    n: nat,
) -> Seq<Visit>
    decreases n,
{
    if n == 0 {
        Seq::empty()
    } else {
        let before = step_visits(
            elevations,
            rays,
            targets,
            measures,
            range_squared,
            (n - 1) as nat,
        );
        if ray_sees(elevations, rays[n - 1], targets[n - 1], measures[n - 1], range_squared) {
            before.push(
                Visit {
                    index: targets[n - 1]->0.index,
                    agl: measures[n - 1].needed.spec_ceil_height(),
                },
            )
        } else {
            before
        }
    }
}

/// What a visit goes back to: the cell, what was measured there, and the square of
/// the range.
pub struct Sighting {
    pub target: CellTarget,
    pub measure: Measure,
    pub range_squared: Binary64,
}

/// A visit is that of a cell with terrain, in range, that is not the radar's own.
pub open spec fn is_sighting<E>(
    elevations: Seq<Option<E>>,
    sighting: Sighting,
    visit: Visit,
) -> bool {
    &&& visit.index == sighting.target.index
    &&& visit.index < elevations.len()
    &&& elevations[visit.index as int] is Some
    &&& sighting.target.distance_squared_cells > 0
    &&& !sighting.range_squared.spec_lt(sighting.measure.distance_squared)
    &&& visit.agl == sighting.measure.needed.spec_ceil_height()
}

/// Every visit goes back to a sighting, and none is one of the radar's own cell.
pub open spec fn are_sightings<E>(
    grid: &Grid<E>,
    config: &LosConfig,
    sightings: Seq<Sighting>,
    visits: Seq<Visit>,
) -> bool {
    &&& sightings.len() == visits.len()
    &&& forall|v: int|
        0 <= v < visits.len() ==> is_sighting(
            grid.elevations_m@,
            sightings[v],
            #[trigger] visits[v],
        )
    &&& radar_in_grid(grid, config) ==> forall|v: int|
        0 <= v < visits.len() ==> (#[trigger] visits[v]).index != radar_index(grid, config)
}

/// The sightings of the first `n` rays in one radial step.
pub open spec fn step_sightings<E>(
    elevations: Seq<Option<E>>,
    rays: Seq<PolarRay>,
    targets: Seq<Option<CellTarget>>,
    measures: Seq<Measure>,
    range_squared: Binary64,
    n: nat,
) -> Seq<Sighting>
    decreases n,
{
    if n == 0 {
        Seq::empty()
    } else {
        let before = step_sightings(
            elevations,
            rays,
            targets,
            measures,
            range_squared,
            (n - 1) as nat,
        );
        if ray_sees(elevations, rays[n - 1], targets[n - 1], measures[n - 1], range_squared) {
            before.push(
                Sighting { target: targets[n - 1]->0, measure: measures[n - 1], range_squared },
            )
        } else {
            before
        }
    }
}

/// The visits of a radial step go back to its sightings.
pub proof fn lemma_step_sightings<E>(
    grid: &Grid<E>,
    config: &LosConfig,
    rays: Seq<PolarRay>,
    targets: Seq<Option<CellTarget>>,
    measures: Seq<Measure>,
    range_squared: Binary64,
    n: nat,
)
    requires
        n <= targets.len(),
        targets_wf(targets, grid.elevations_m@.len() as int),
        own_cell_is_near(grid, config, targets),
    ensures
        are_sightings(
            grid,
            config,
            step_sightings(grid.elevations_m@, rays, targets, measures, range_squared, n),
            step_visits(grid.elevations_m@, rays, targets, measures, range_squared, n),
        ),
    decreases n,
{
    if n > 0 {
        lemma_step_sightings(
            grid,
            config,
            rays,
            targets,
            measures,
            range_squared,
            (n - 1) as nat,
        );
        assert(targets[n - 1] matches Some(t) ==> t.index < grid.elevations_m@.len());
    }
}

/// Walks every ray of a sector one radial step outwards. Rounding a polar sample
/// to the nearest cell centre can give the same or a nearer centre at the next
/// step; such samples are passed over, so that horizons stay ordered by distance.
pub fn advance_rays<E>(
    grid: &Grid<E>,
    rays: &mut Vec<PolarRay>,
    targets: &[Option<CellTarget>],
    measures: &[Measure],
    range_squared: Binary64,
) -> (visits: Vec<Visit>)
    requires
        grid.wf(),
        old(rays)@.len() == targets@.len(),
        old(rays)@.len() == measures@.len(),
        targets_wf(targets@, grid.elevations_m@.len() as int),
    ensures
        final(rays)@.len() == old(rays)@.len(),
        forall|i: int|
            0 <= i < final(rays)@.len() ==> #[trigger] final(rays)@[i] == ray_after(
                grid.elevations_m@,
                old(rays)@[i],
                targets@[i],
                measures@[i],
                range_squared,
            ),
        visits@ == step_visits(
            grid.elevations_m@,
            old(rays)@,
            targets@,
            measures@,
            range_squared,
            old(rays)@.len(),
        ),
        visits_wf(visits@, grid.elevations_m@.len() as int),
{
    let mut visits: Vec<Visit> = Vec::new();
    let mut i: usize = 0;
    while i < rays.len()
        invariant
            i <= rays@.len(),
            grid.wf(),
            rays@.len() == old(rays)@.len(),
            rays@.len() == targets@.len(),
            rays@.len() == measures@.len(),
            targets_wf(targets@, grid.elevations_m@.len() as int),
            forall|j: int|
                0 <= j < i ==> #[trigger] rays@[j] == ray_after(
                    grid.elevations_m@,
                    old(rays)@[j],
                    targets@[j],
                    measures@[j],
                    range_squared,
                ),
            forall|j: int| i <= j < rays@.len() ==> #[trigger] rays@[j] == old(rays)@[j],
            visits@ == step_visits(
                grid.elevations_m@,
                old(rays)@,
                targets@,
                measures@,
                range_squared,
                i as nat,
            ),
            visits_wf(visits@, grid.elevations_m@.len() as int),
        decreases rays@.len() - i,
    {
        let ray = rays[i];
        let measure = measures[i];
        let mut horizon = ray.horizon;
        let mut last_distance_m = ray.last_distance_m;
        match targets[i] {
            Some(target) => {
                if target.distance_squared_cells > 0 && !range_squared.lt(measure.distance_squared)
                    && !measure.distance.le(ray.last_distance_m) {
                    last_distance_m = measure.distance;
                    if grid.elevations_m[target.index].is_some() {
                        let agl: u16 = measure.needed.ceil_height();
                        visits.push(Visit { index: target.index, agl });
                        horizon = ray.horizon.max(measure.slope);
                    }
                }
            },
            None => {},
        }
        rays[i] = PolarRay { angle: ray.angle, width: ray.width, horizon, last_distance_m };
        i += 1;
    }
    visits
}

/// The coverage does not depend on the order of the visits, nor on how often one
/// is repeated.
pub proof fn law_visit_order_is_irrelevant(
    radar_index: int,
    a: Seq<Visit>,
    b: Seq<Visit>,
    i: int,
    value_a: u16,
    value_b: u16,
)
    requires
        forall|visit: Visit| a.contains(visit) <==> b.contains(visit),
        is_settled(radar_index, a, i, value_a),
        is_settled(radar_index, b, i, value_b),
    ensures
        value_a == value_b,
{
    lemma_settled_below(radar_index, a, b, i, value_a, value_b);
    lemma_settled_below(radar_index, b, a, i, value_b, value_a);
}

proof fn lemma_settled_below(
    radar_index: int,
    a: Seq<Visit>,
    b: Seq<Visit>,
    i: int,
    value_a: u16,
    value_b: u16,
)
    requires
        forall|visit: Visit| a.contains(visit) <==> b.contains(visit),
        is_settled(radar_index, a, i, value_a),
        is_settled(radar_index, b, i, value_b),
    ensures
        visited_at(a, i) ==> visited_at(b, i),
        i == radar_index || visited_at(a, i) ==> value_a <= value_b,
        i != radar_index && !visited_at(a, i) ==> value_a == NO_DATA_HEIGHT,
{
    if visited_at(a, i) {
        let w = choose|v: int| 0 <= v < a.len() && (#[trigger] a[v]).index == i;
        assert(a.contains(a[w]));
        let w2 = choose|v: int| 0 <= v < b.len() && b[v] == a[w];
        assert(b[w2].index == i);
    }
    if (i == radar_index || visited_at(a, i)) && !(i == radar_index && value_a == 0) {
        let w = choose|v: int|
            0 <= v < a.len() && (#[trigger] a[v]).index == i && a[v].agl == value_a;
        assert(a.contains(a[w]));
        let w2 = choose|v: int| 0 <= v < b.len() && b[v] == a[w];
        assert(b[w2].index == i);
        assert(visited_at(b, i));
    }
}

/// The radar sees the ground under it unless a ray asks for more there, and a
/// cell that no ray has reached stays reserved.
pub proof fn law_unreached_cells_stay_reserved(
    coverage: Coverage,
    cells: int,
    radar_index: int,
    visits: Seq<Visit>,
    i: int,
)
    requires
        coverage.is_result(cells, radar_index, visits),
        visits_wf(visits, cells),
        0 <= i < cells,
    ensures
        coverage.minimum_agl_m@[i] == NO_DATA_HEIGHT <==> i != radar_index && !visited_at(
            visits,
            i,
        ),
        coverage.minimum_agl_m@[i] == NO_DATA_HEIGHT ==> !coverage.ground_visible@[i],
        i == radar_index && !visited_at(visits, i) ==> coverage.ground_visible@[i],
{
    assert(is_settled(radar_index, visits, i, coverage.minimum_agl_m@[i]));
}

/// A cell is visible at a height when its minimum is known and not above it.
pub open spec fn visible_at(minimum: u16, height: u16) -> bool {
    minimum != NO_DATA_HEIGHT && minimum <= height
}

/// How many cells are visible at a height.
pub open spec fn visible_count(minimum: Seq<u16>, height: u16) -> nat
    decreases minimum.len(),
{
    if minimum.len() == 0 {
        0
    } else {
        visible_count(minimum.drop_last(), height) + if visible_at(minimum.last(), height) {
            1nat
        } else {
            0nat
        }
    }
}

/// What is visible at a height is visible at every greater height.
pub proof fn law_agl_layers_are_monotonic(minimum: Seq<u16>, low: u16, high: u16)
    requires
        low <= high,
    ensures
        forall|i: int|
            0 <= i < minimum.len() && visible_at(#[trigger] minimum[i], low) ==> visible_at(
                minimum[i],
                high,
            ),
        visible_count(minimum, low) <= visible_count(minimum, high),
    decreases minimum.len(),
{
    if minimum.len() > 0 {
        law_agl_layers_are_monotonic(minimum.drop_last(), low, high);
    }
}

/// A ray never lowers its horizon, never turns, and only moves outwards.
pub proof fn law_rays_move_outwards<E>(
    elevations: Seq<Option<E>>,
    ray: PolarRay,
    target: Option<CellTarget>,
    measure: Measure,
    range_squared: Binary64,
)
    requires
        !ray.horizon.spec_is_nan(),
        !ray.last_distance_m.spec_is_nan(),
        !measure.distance.spec_is_nan(),
    ensures
        ({
            let after = ray_after(elevations, ray, target, measure, range_squared);
            &&& after.angle == ray.angle
            &&& after.width == ray.width
            &&& ray.horizon.spec_le(after.horizon)
            &&& after.last_distance_m == ray.last_distance_m || ray.last_distance_m.spec_lt(
                after.last_distance_m,
            )
        }),
{
}

/// One step of one ray. A ray that samples no cell, its own radar's cell, a cell
/// out of range or one no farther than its last is left alone. Otherwise it has
/// moved to the cell's distance. Where that cell has terrain, no slope measured
/// there exceeds the new horizon, and the horizon is the old one or that slope.
pub proof fn law_horizon_rises_to_the_slope<E>(
    elevations: Seq<Option<E>>,
    ray: PolarRay,
    cell: CellTarget,
    measure: Measure,
    range_squared: Binary64,
)
    ensures
        ray_after(elevations, ray, None, measure, range_squared) == ray,
        ({
            let after = ray_after(elevations, ray, Some(cell), measure, range_squared);
            let moved = cell.distance_squared_cells > 0 && !range_squared.spec_lt(
                measure.distance_squared,
            ) && !measure.distance.spec_le(ray.last_distance_m);
            let terrain = elevations[cell.index as int] is Some;
            &&& after.angle == ray.angle && after.width == ray.width
            &&& !moved ==> after == ray
            &&& moved ==> after.last_distance_m == measure.distance
            &&& !terrain ==> after.horizon == ray.horizon
            &&& moved && terrain && !measure.slope.spec_is_nan() ==> measure.slope.spec_le(
                after.horizon,
            )
            &&& !ray.horizon.spec_is_nan() ==> ray.horizon.spec_le(after.horizon)
            &&& after.horizon == ray.horizon || (moved && terrain && after.horizon
                == measure.slope)
        }),
{
}

/// A step visits the cell of every ray that moves onto terrain, with the height
/// that the ray needs there, and nothing else.
pub proof fn law_step_visits_what_the_rays_meet<E>(
    elevations: Seq<Option<E>>,
    rays: Seq<PolarRay>,
    targets: Seq<Option<CellTarget>>,
    measures: Seq<Measure>,
    range_squared: Binary64,
    visit: Visit,
)
    requires
        targets.len() == rays.len(),
        measures.len() == rays.len(),
    ensures
        step_visits(elevations, rays, targets, measures, range_squared, rays.len()).contains(visit)
            <==> exists|i: int|
            0 <= i < rays.len() && ((#[trigger] targets[i]) matches Some(cell)
                && cell.distance_squared_cells > 0 && !range_squared.spec_lt(
                measures[i].distance_squared,
            ) && !measures[i].distance.spec_le(rays[i].last_distance_m)
                && elevations[cell.index as int] is Some && visit.index == cell.index && visit.agl
                == measures[i].needed.spec_ceil_height()),
{
    lemma_step_visits_upto(
        elevations,
        rays,
        targets,
        measures,
        range_squared,
        rays.len(),
        visit,
    );
}

proof fn lemma_step_visits_upto<E>(
    elevations: Seq<Option<E>>,
    rays: Seq<PolarRay>,
    targets: Seq<Option<CellTarget>>,
    measures: Seq<Measure>,
    range_squared: Binary64,
    n: nat,
    visit: Visit,
)
    requires
        n <= rays.len(),
        targets.len() == rays.len(),
        measures.len() == rays.len(),
    ensures
        step_visits(elevations, rays, targets, measures, range_squared, n).contains(visit)
            <==> exists|i: int|
            0 <= i < n && ((#[trigger] targets[i]) matches Some(cell) && cell.distance_squared_cells
                > 0 && !range_squared.spec_lt(measures[i].distance_squared)
                && !measures[i].distance.spec_le(rays[i].last_distance_m)
                && elevations[cell.index as int] is Some && visit.index == cell.index && visit.agl
                == measures[i].needed.spec_ceil_height()),
    decreases n,
{
    if n > 0 {
        let m = (n - 1) as nat;
        lemma_step_visits_upto(elevations, rays, targets, measures, range_squared, m, visit);
        let before = step_visits(elevations, rays, targets, measures, range_squared, m);
        let after = step_visits(elevations, rays, targets, measures, range_squared, n);
        if after != before {
            let last = after.last();
            assert(after == before.push(last));
            assert(after[before.len() as int] == last);
            if before.contains(visit) {
                let w = choose|w: int| 0 <= w < before.len() && before[w] == visit;
                assert(after[w] == visit);
            }
            if after.contains(visit) && !before.contains(visit) {
                let w = choose|w: int| 0 <= w < after.len() && after[w] == visit;
                assert(w == before.len());
                assert(targets[n - 1] is Some);
            }
        }
    }
}

/// A cell's stored minimum serves every ray that met it: none needs more, and
/// one needs exactly that much, unless it is the radar's own. The ground is
/// visible just where nothing above it is needed.
pub proof fn law_minimum_serves_every_ray(
    coverage: Coverage,
    cells: int,
    radar_index: int,
    visits: Seq<Visit>,
    i: int,
)
    requires
        coverage.is_result(cells, radar_index, visits),
        0 <= i < cells,
    ensures
        coverage.minimum_agl_m@.len() == cells,
        coverage.ground_visible@.len() == cells,
        forall|v: int|
            0 <= v < visits.len() && (#[trigger] visits[v]).index == i ==> visits[v].agl
                <= coverage.minimum_agl_m@[i],
        coverage.minimum_agl_m@[i] == NO_DATA_HEIGHT || (i == radar_index
            && coverage.minimum_agl_m@[i] == 0) || exists|v: int|
            0 <= v < visits.len() && (#[trigger] visits[v]).index == i && visits[v].agl
                == coverage.minimum_agl_m@[i],
        coverage.ground_visible@[i] <==> coverage.minimum_agl_m@[i] == 0,
{
    assert(is_settled(radar_index, visits, i, coverage.minimum_agl_m@[i]));
}

/// Cells are numbered row by row: a step to the east adds one, a step to the
/// south adds a row, and no two cells of a grid share a number.
pub proof fn law_cells_are_numbered_by_row<E>(grid: Grid<E>, x: int, y: int, u: int, v: int)
    requires
        0 <= x < grid.width,
        0 <= u < grid.width,
        0 <= y < grid.height,
        0 <= v < grid.height,
    ensures
        grid.spec_index(0, 0) == 0,
        grid.spec_index(x + 1, y) == grid.spec_index(x, y) + 1,
        grid.spec_index(x, y + 1) == grid.spec_index(x, y) + grid.width,
        grid.spec_index(x, y) == grid.spec_index(u, v) ==> x == u && y == v,
{
    let w = grid.width as int;
    assert((y + 1) * w == y * w + w) by (nonlinear_arith);
    assert(y * w + x == v * w + u ==> x == u && y == v) by (nonlinear_arith)
        requires
            0 <= x < w,
            0 <= u < w,
    ;
}

/// A ray's cell lies at its offset from the radar: reading the cell's number back
/// into a column and a row gives the radar's plus the offset, and its squared
/// distance is that of the offset. An offset that leaves the grid names no cell.
pub proof fn law_target_lies_at_its_offset(
    width: int,
    height: int,
    radar_x: int,
    radar_y: int,
    offset: (i32, i32),
)
    requires
        0 < width,
        0 < height,
        width * height <= usize::MAX,
        0 <= radar_x < width,
        0 <= radar_y < height,
    ensures
        target_at(width, height, radar_x, radar_y, offset) is Some <==> 0 <= radar_x + offset.0
            < width && 0 <= radar_y + offset.1 < height,
        target_at(width, height, radar_x, radar_y, offset) matches Some(cell) ==> {
            &&& cell.index as int % width == radar_x + offset.0
            &&& cell.index as int / width == radar_y + offset.1
            &&& cell.distance_squared_cells == offset.0 * offset.0 + offset.1 * offset.1
        },
{
    let x = radar_x + offset.0;
    let y = radar_y + offset.1;
    if 0 <= x < width && 0 <= y < height {
        lemma_row_major(width, height, x, y);
        let n = y * width + x;
        vstd::arithmetic::div_mod::lemma_fundamental_div_mod_converse(n, width, y, x);
        let (a, b) = (offset.0 as int, offset.1 as int);
        assert(0 <= a * a <= 0x8000_0000 * 0x8000_0000) by (nonlinear_arith)
            requires
                -0x8000_0000 <= a <= 0x8000_0000,
        ;
        assert(0 <= b * b <= 0x8000_0000 * 0x8000_0000) by (nonlinear_arith)
            requires
                -0x8000_0000 <= b <= 0x8000_0000,
        ;
    }
}

/// A coverage can be computed just where the radar stands on terrain inside the
/// grid, with a positive cell size and effective-Earth factor and a range that is
/// not negative. A position outside is reported before a bad number, and that
/// before a lack of terrain.
pub proof fn law_site_is_refused_for_cause<E>(grid: &Grid<E>, config: &LosConfig)
    ensures
        site_error(grid, config) is None <==> {
            &&& config.radar_x < grid.width
            &&& config.radar_y < grid.height
            &&& config.cell_size_m.key() > 0 && !config.cell_size_m.spec_is_nan()
            &&& config.range_m.key() >= 0 && !config.range_m.spec_is_nan()
            &&& config.effective_earth_k.key() > 0 && !config.effective_earth_k.spec_is_nan()
            &&& grid.elevations_m@[config.radar_y * grid.width + config.radar_x] is Some
        },
        site_error(grid, config) == Some(CoverageError::RadarOutsideGrid) <==> !(config.radar_x
            < grid.width && config.radar_y < grid.height),
        site_error(grid, config) == Some(CoverageError::RadarOnNoData) ==> grid.elevations_m@[
        config.radar_y * grid.width + config.radar_x] is None,
        site_error(grid, config) != Some(CoverageError::InvalidGrid),
{
}

/// Eight sectors, and twice as many rays after each bisection.
pub proof fn law_each_bisection_doubles_the_rays(bisections: nat)
    ensures
        rays_after(0) == 8,
        rays_after(bisections + 1) == 2 * rays_after(bisections),
{
    lemma2_to64();
    lemma_pow2_unfold(bisections + 1);
}

/// The visible cells are counted: those whose minimum is known and not above the
/// height.
pub proof fn law_visible_cells_are_counted(minimum: Seq<u16>, height: u16)
    ensures
        visible_count(minimum, height) == how_many(
            minimum.len(),
            |i: int| minimum[i] != 65535 && minimum[i] <= height,
        ),
    decreases minimum.len(),
{
    if minimum.len() > 0 {
        let rest = minimum.drop_last();
        law_visible_cells_are_counted(rest, height);
        lemma_how_many_agrees(
            rest.len(),
            |i: int| rest[i] != 65535 && rest[i] <= height,
            |i: int| minimum[i] != 65535 && minimum[i] <= height,
        );
    }
}

} // verus!
