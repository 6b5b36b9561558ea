//! The walk of one polar sector outwards from a radar.
use crate::float::Binary64;
use crate::los::{advance_rays, are_sightings, half_ray, is_sighting, lemma_step_sightings,
    locate_cells, must_subdivide, own_cell_is_near, radar_in_grid, radar_index, ray_after,
    step_sightings, step_visits, subdivide_rays, target_at, targets_wf, visited_at, visits_wf,
    CellTarget, Grid, LosConfig, Measure, PolarRay, RaySplit, Sighting, Visit};
use vstd::prelude::*;

verus! {

/// What a walk asks for next. The numbers are those of the current radial cell.
#[derive(Clone, Copy, Debug, PartialEq, Eq, Structural)]
pub enum WalkStep {
    /// The transverse width of the rays, and half a cell.
    Width,
    /// The halves of the rays, which are too wide.
    Halves,
    /// The offsets of the cells that the rays sample.
    Offsets,
    /// The measures at those cells.
    Measures,
    /// Nothing: the walk has reached the range.
    Done,
}

/// A polar sector that is walked cell by cell, nearest first. Rays are bisected
/// before a cell is sampled, until they are narrow enough there.
pub struct PolarSector<'a, E> {
    grid: &'a Grid<E>,
    config: LosConfig,
    radius_cells: usize,
    radial_cell: usize,
    rays: Vec<PolarRay>,
    targets: Vec<Option<CellTarget>>,
    step: WalkStep,
    visits: Ghost<Seq<Visit>>,
    sightings: Ghost<Seq<Sighting>>,
    origin: Ghost<Binary64>,
    slopes: Ghost<Seq<Seq<Binary64>>>,
}

/// `horizon` is the steepest of some slopes and the horizon that a ray started
/// with: it is one of them, and none that is a number exceeds it.
pub open spec fn is_steepest(origin: Binary64, slopes: Seq<Binary64>, horizon: Binary64) -> bool {
    &&& horizon == origin || slopes.contains(horizon)
    &&& !origin.spec_is_nan() ==> origin.spec_le(horizon)
    &&& forall|j: int|
        0 <= j < slopes.len() && !(#[trigger] slopes[j]).spec_is_nan() ==> slopes[j].spec_le(
            horizon,
        )
}

/// The slopes of the terrain that a ray has passed, after one more sample. Only a
/// cell with terrain that lies in range and beyond the ray's last adds its slope.
pub open spec fn slopes_after<E>(
    elevations: Seq<Option<E>>,
    slopes: Seq<Binary64>,
    ray: PolarRay,
    target: Option<CellTarget>,
    measure: Measure,
    range_squared: Binary64,
) -> Seq<Binary64> {
    match target {
        Some(cell) => if cell.distance_squared_cells > 0 && !range_squared.spec_lt(
            measure.distance_squared,
        ) && !measure.distance.spec_le(ray.last_distance_m) && elevations[cell.index as int]
            is Some {
            slopes.push(measure.slope)
        } else {
            slopes
        },
        None => slopes,
    }
}

impl<'a, E> PolarSector<'a, E> {
    pub closed spec fn spec_grid(&self) -> Grid<E> {
        *self.grid
    }

    pub closed spec fn spec_config(&self) -> LosConfig {
        self.config
    }

    pub closed spec fn spec_radius(&self) -> int {
        self.radius_cells as int
    }

    /// The distance from the radar in cells.
    pub closed spec fn spec_radial(&self) -> int {
        self.radial_cell as int
    }

    pub closed spec fn spec_rays(&self) -> Seq<PolarRay> {
        self.rays@
    }

    pub closed spec fn spec_targets(&self) -> Seq<Option<CellTarget>> {
        self.targets@
    }

    pub closed spec fn spec_step(&self) -> WalkStep {
        self.step
    }

    /// All visits so far.
    pub closed spec fn visits(&self) -> Seq<Visit> {
        self.visits@
    }

    /// What the visits go back to, one by one.
    pub closed spec fn sightings(&self) -> Seq<Sighting> {
        self.sightings@
    }

    /// The horizon that the walk started with.
    pub closed spec fn spec_origin(&self) -> Binary64 {
        self.origin@
    }

    /// The slopes of the terrain that each ray has passed, nearest first. Those
    /// that a ray had passed before it was bisected are passed by both halves.
    pub closed spec fn spec_slopes(&self) -> Seq<Seq<Binary64>> {
        self.slopes@
    }

    /// Only cells with terrain are visited, in range, and never the radar's own.
    /// Each ray's horizon is the steepest slope that it has passed.
    pub open spec fn wf(&self) -> bool {
        &&& are_sightings(
            &self.spec_grid(),
            &self.spec_config(),
            self.sightings(),
            self.visits(),
        )
        &&& own_cell_is_near(&self.spec_grid(), &self.spec_config(), self.spec_targets())
        &&& self.spec_grid().wf()
        &&& self.spec_rays().len() > 0
        &&& self.spec_step() !is Done ==> 1 <= self.spec_radial() <= self.spec_radius()
        &&& self.spec_step() is Measures ==> self.spec_targets().len() == self.spec_rays().len()
        &&& targets_wf(self.spec_targets(), self.spec_grid().elevations_m@.len() as int)
        &&& visits_wf(self.visits(), self.spec_grid().elevations_m@.len() as int)
        &&& self.spec_slopes().len() == self.spec_rays().len()
        &&& forall|i: int|
            0 <= i < self.spec_rays().len() ==> is_steepest(
                self.spec_origin(),
                self.spec_slopes()[i],
                (#[trigger] self.spec_rays()[i]).horizon,
            )
    }

    /// Another state of the same walk.
    pub open spec fn continues(&self, before: &Self) -> bool {
        &&& self.wf()
        &&& self.spec_grid() == before.spec_grid()
        &&& self.spec_config() == before.spec_config()
        &&& self.spec_radius() == before.spec_radius()
        &&& self.spec_origin() == before.spec_origin()
    }

    /// Starts a walk with one ray that is as wide as the sector.
    pub fn new(grid: &'a Grid<E>, config: LosConfig, ray: PolarRay, radius_cells: usize) -> (sector:
        Self)
        requires
            grid.wf(),
        ensures
            sector.wf(),
            sector.spec_grid() == *grid,
            sector.spec_config() == config,
            sector.spec_radius() == radius_cells,
            sector.spec_radial() == 1,
            sector.spec_rays() == seq![ray],
            sector.visits() == Seq::<Visit>::empty(),
            sector.spec_origin() == ray.horizon,
            sector.spec_slopes() == Seq::<Seq<Binary64>>::empty().push(Seq::empty()),
            sector.spec_step() == (if radius_cells >= 1 {
                WalkStep::Width
            } else {
                WalkStep::Done
            }),
    {
        let rays: Vec<PolarRay> = vec![ray];
        assert(rays@ =~= seq![ray]);
        PolarSector {
            grid,
            config,
            radius_cells,
            radial_cell: 1,
            rays,
            targets: Vec::new(),
            step: if radius_cells >= 1 {
                WalkStep::Width
            } else {
                WalkStep::Done
            },
            visits: Ghost(Seq::empty()),
            sightings: Ghost(Seq::empty()),
            origin: Ghost(ray.horizon),
            slopes: Ghost(Seq::empty().push(Seq::empty())),
        }
    }

    pub fn step(&self) -> (step: WalkStep)
        ensures
            step == self.spec_step(),
    {
        self.step
    }

    pub fn radial_cell(&self) -> (n: usize)
        ensures
            n == self.spec_radial(),
    {
        self.radial_cell
    }

    pub fn rays(&self) -> (rays: &[PolarRay])
        ensures
            rays@ == self.spec_rays(),
    {
        self.rays.as_slice()
    }

    /// The cells that the rays sample, where they lie in the grid.
    pub fn targets(&self) -> (targets: &[Option<CellTarget>])
        ensures
            targets@ == self.spec_targets(),
    {
        self.targets.as_slice()
    }

    /// Takes in the transverse width of the rays. Rays that are wider than half a
    /// cell are bisected.
    pub fn take_width(&mut self, transverse_m: Binary64, half_cell_m: Binary64)
        requires
            old(self).wf(),
            old(self).spec_step() is Width,
        ensures
            final(self).continues(old(self)),
            final(self).spec_radial() == old(self).spec_radial(),
            final(self).spec_rays() == old(self).spec_rays(),
            final(self).visits() == old(self).visits(),
            final(self).spec_slopes() == old(self).spec_slopes(),
            final(self).spec_step() == (if half_cell_m.spec_lt(transverse_m) {
                WalkStep::Halves
            } else {
                WalkStep::Offsets
            }),
    {
        self.step = if must_subdivide(transverse_m, half_cell_m) {
            WalkStep::Halves
        } else {
            WalkStep::Offsets
        };
    }

    /// Takes in the halves of the rays, which replace them.
    pub fn take_halves(&mut self, splits: &[RaySplit])
        requires
            old(self).wf(),
            old(self).spec_step() is Halves,
            splits@.len() == old(self).spec_rays().len(),
        ensures
            final(self).continues(old(self)),
            final(self).spec_radial() == old(self).spec_radial(),
            final(self).spec_rays().len() == 2 * old(self).spec_rays().len(),
            forall|c: int|
                0 <= c < final(self).spec_rays().len() ==> #[trigger] final(self).spec_rays()[c]
                    == half_ray(old(self).spec_rays()[c / 2], splits@[c / 2], c % 2 == 0),
            final(self).visits() == old(self).visits(),
            forall|c: int|
                0 <= c < final(self).spec_rays().len() ==> #[trigger] final(self).spec_slopes()[c]
                    == old(self).spec_slopes()[c / 2],
            final(self).spec_step() is Width,
    {
        self.rays = subdivide_rays(self.rays.as_slice(), splits);
        self.slopes = Ghost(
            Seq::new(2 * self.slopes@.len(), |c: int| self.slopes@[c / 2]),
        );
        self.step = WalkStep::Width;
    }

    /// Takes in the offsets of the rays' cells, and finds those cells.
    pub fn take_offsets(&mut self, offsets: &[(i32, i32)])
        requires
            old(self).wf(),
            old(self).spec_step() is Offsets,
            offsets@.len() == old(self).spec_rays().len(),
        ensures
            final(self).continues(old(self)),
            final(self).spec_radial() == old(self).spec_radial(),
            final(self).spec_rays() == old(self).spec_rays(),
            final(self).visits() == old(self).visits(),
            final(self).spec_slopes() == old(self).spec_slopes(),
            final(self).spec_targets().len() == offsets@.len(),
            forall|i: int|
                0 <= i < offsets@.len() ==> #[trigger] final(self).spec_targets()[i] == target_at(
                    old(self).spec_grid().width as int,
                    old(self).spec_grid().height as int,
                    old(self).spec_config().radar_x as int,
                    old(self).spec_config().radar_y as int,
                    offsets@[i],
                ),
            final(self).spec_step() is Measures,
    {
        self.targets = locate_cells(self.grid, &self.config, offsets);
        self.step = WalkStep::Measures;
    }

    /// Takes in the measures at the rays' cells, and goes on to the next radial
    /// cell. What the rays saw is handed out.
    pub fn take_measures(&mut self, measures: &[Measure], range_squared: Binary64) -> (seen: Vec<
        Visit,
    >)
        requires
            old(self).wf(),
            old(self).spec_step() is Measures,
            measures@.len() == old(self).spec_rays().len(),
        ensures
            final(self).continues(old(self)),
            final(self).spec_rays().len() == old(self).spec_rays().len(),
            forall|i: int|
                0 <= i < final(self).spec_rays().len() ==> #[trigger] final(self).spec_rays()[i]
                    == ray_after(
                    old(self).spec_grid().elevations_m@,
                    old(self).spec_rays()[i],
                    old(self).spec_targets()[i],
                    measures@[i],
                    range_squared,
                ),
            forall|i: int|
                0 <= i < final(self).spec_rays().len() ==> #[trigger] final(self).spec_slopes()[i]
                    == slopes_after(
                    old(self).spec_grid().elevations_m@,
                    old(self).spec_slopes()[i],
                    old(self).spec_rays()[i],
                    old(self).spec_targets()[i],
                    measures@[i],
                    range_squared,
                ),
            seen@ == step_visits(
                old(self).spec_grid().elevations_m@,
                old(self).spec_rays(),
                old(self).spec_targets(),
                measures@,
                range_squared,
                old(self).spec_rays().len(),
            ),
            visits_wf(seen@, old(self).spec_grid().elevations_m@.len() as int),
            final(self).visits() == old(self).visits() + seen@,
            final(self).sightings() == old(self).sightings() + step_sightings(
                old(self).spec_grid().elevations_m@,
                old(self).spec_rays(),
                old(self).spec_targets(),
                measures@,
                range_squared,
                old(self).spec_rays().len(),
            ),
            if old(self).spec_radial() < old(self).spec_radius() {
                final(self).spec_step() is Width && final(self).spec_radial() == old(
                    self,
                ).spec_radial() + 1
            } else {
                final(self).spec_step() is Done
            },
    {
        let ghost before = *self;
        let seen = advance_rays(
            self.grid,
            &mut self.rays,
            self.targets.as_slice(),
            measures,
            range_squared,
        );
        let ghost sighted = step_sightings(
            before.spec_grid().elevations_m@,
            before.rays@,
            before.targets@,
            measures@,
            range_squared,
            before.rays@.len(),
        );
        self.visits = Ghost(self.visits@ + seen@);
        self.sightings = Ghost(self.sightings@ + sighted);
        self.slopes = Ghost(
            Seq::new(
                before.rays@.len(),
                |i: int|
                    slopes_after(
                        before.grid.elevations_m@,
                        before.slopes@[i],
                        before.rays@[i],
                        before.targets@[i],
                        measures@[i],
                        range_squared,
                    ),
            ),
        );
        proof {
            lemma_step_sightings(
                before.grid,
                &before.config,
                before.rays@,
                before.targets@,
                measures@,
                range_squared,
                before.rays@.len(),
            );
            let (all, sources) = (self.visits@, self.sightings@);
            let n = before.visits@.len() as int;
            assert forall|v: int| 0 <= v < all.len() implies is_sighting(
                before.grid.elevations_m@,
                sources[v],
                #[trigger] all[v],
            ) && (radar_in_grid(before.grid, &before.config) ==> all[v].index != radar_index(
                before.grid,
                &before.config,
            )) by {
                if v < n {
                    assert(all[v] == before.visits@[v]);
                } else {
                    assert(all[v] == seen@[v - n]);
                }
            }
            assert forall|i: int| 0 <= i < self.rays@.len() implies is_steepest(
                self.origin@,
                self.slopes@[i],
                (#[trigger] self.rays@[i]).horizon,
            ) by {
                let (old_ray, old_slopes) = (before.spec_rays()[i], before.spec_slopes()[i]);
                let (new_ray, new_slopes) = (self.rays@[i], self.slopes@[i]);
                assert(is_steepest(self.origin@, old_slopes, old_ray.horizon));
                if new_slopes != old_slopes {
                    assert(new_slopes == old_slopes.push(measures@[i].slope));
                    assert(new_slopes[old_slopes.len() as int] == measures@[i].slope);
                    if old_slopes.contains(old_ray.horizon) {
                        let w = choose|w: int|
                            0 <= w < old_slopes.len() && old_slopes[w] == old_ray.horizon;
                        assert(new_slopes[w] == old_ray.horizon);
                    }
                    assert forall|j: int|
                        0 <= j < new_slopes.len()
                            && !(#[trigger] new_slopes[j]).spec_is_nan() implies new_slopes[j].spec_le(
                        new_ray.horizon,
                    ) by {
                        if j < old_slopes.len() {
                            assert(new_slopes[j] == old_slopes[j]);
                        }
                    }
                }
            }
        }
        if self.radial_cell < self.radius_cells {
            self.radial_cell = self.radial_cell + 1;
            self.step = WalkStep::Width;
        } else {
            self.step = WalkStep::Done;
        }
        seen
    }
}

/// No walk visits a cell without terrain, nor the radar's own, nor one that was
/// measured out of range.
pub proof fn law_only_terrain_in_range_is_visited<E>(sector: PolarSector<E>, i: int)
    requires
        sector.wf(),
        0 <= i < sector.spec_grid().elevations_m@.len(),
    ensures
        sector.spec_grid().elevations_m@[i] is None ==> !visited_at(sector.visits(), i),
        radar_in_grid(&sector.spec_grid(), &sector.spec_config()) && i == radar_index(
            &sector.spec_grid(),
            &sector.spec_config(),
        ) ==> !visited_at(sector.visits(), i),
        visited_at(sector.visits(), i) ==> exists|v: int|
            0 <= v < sector.sightings().len() && (#[trigger] sector.sightings()[v]).target.index
                == i && !sector.sightings()[v].range_squared.spec_lt(
                sector.sightings()[v].measure.distance_squared,
            ),
{
    if visited_at(sector.visits(), i) {
        let v = choose|v: int|
            0 <= v < sector.visits().len() && (#[trigger] sector.visits()[v]).index == i;
        assert(is_sighting(
            sector.spec_grid().elevations_m@,
            sector.sightings()[v],
            sector.visits()[v],
        ));
    }
}

/// Over a whole walk each ray's horizon is an upper bound of the slopes of all
/// the terrain that it has passed, and is one of them, or the horizon that the
/// walk started with.
pub proof fn law_horizon_is_the_steepest_slope<E>(sector: PolarSector<E>, i: int)
    requires
        sector.wf(),
        0 <= i < sector.spec_rays().len(),
    ensures
        ({
            let (horizon, slopes) = (sector.spec_rays()[i].horizon, sector.spec_slopes()[i]);
            &&& forall|j: int|
                0 <= j < slopes.len() && !(#[trigger] slopes[j]).spec_is_nan()
                    ==> slopes[j].spec_le(horizon)
            &&& horizon == sector.spec_origin() || exists|j: int|
                0 <= j < slopes.len() && #[trigger] slopes[j] == horizon
        }),
{
    assert(is_steepest(
        sector.spec_origin(),
        sector.spec_slopes()[i],
        sector.spec_rays()[i].horizon,
    ));
    let (horizon, slopes) = (sector.spec_rays()[i].horizon, sector.spec_slopes()[i]);
    if slopes.contains(horizon) {
        let j = choose|j: int| 0 <= j < slopes.len() && slopes[j] == horizon;
        assert(slopes[j] == horizon);
    }
}

/// Bisecting a ray forgets nothing that was in its way: both halves have its
/// horizon, and neither samples a cell again that it has passed.
pub proof fn law_halves_keep_the_horizon(ray: PolarRay, split: RaySplit, left: bool)
    ensures
        half_ray(ray, split, left).horizon == ray.horizon,
        half_ray(ray, split, left).last_distance_m == ray.last_distance_m,
        half_ray(ray, split, left).width == split.width,
        half_ray(ray, split, true).angle == split.left_angle,
        half_ray(ray, split, false).angle == split.right_angle,
{
}

} // verus!
