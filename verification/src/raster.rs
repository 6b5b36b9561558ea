//! Metric rasters of terrain, sampled from a mosaic.
use crate::float::Binary64;
use crate::terrain::{TerrainError, TerrainMosaic};
use vstd::prelude::*;

verus! {

/// A raster of some width and height.
#[derive(Clone, Copy, Debug, PartialEq, Eq, Structural)]
pub struct RasterSize {
    pub width: usize,
    pub height: usize,
    pub cells: usize,
}

impl RasterSize {
    pub open spec fn wf(&self) -> bool {
        self.cells == self.width * self.height
    }
}

/// A range that is not negative, with a positive resolution.
pub open spec fn range_wf(range: Binary64, resolution: Binary64) -> bool {
    !range.spec_lt(Binary64::zero()) && !resolution.spec_le(Binary64::zero())
}

/// The size of a square raster with a radius in cells.
pub fn square_size(range: Binary64, resolution: Binary64, radius: usize) -> (size: Result<
    RasterSize,
    TerrainError,
>)
    ensures
        size is Ok <==> range_wf(range, resolution) && (2 * radius + 1) * (2 * radius + 1)
            <= usize::MAX,
        size matches Ok(s) ==> s.width == 2 * radius + 1 && s.height == 2 * radius + 1 && s.cells
            == (2 * radius + 1) * (2 * radius + 1),
        size matches Err(e) ==> e == TerrainError::Projection,
{
    if range.lt(Binary64::zero()) || resolution.le(Binary64::zero()) {
        return Err(TerrainError::Projection);
    }
    proof {
        assert((2 * radius + 1) * (2 * radius + 1) >= 2 * radius + 1) by (nonlinear_arith)
            requires
                radius >= 0,
        ;
    }
    let width: usize = match radius.checked_mul(2) {
        Some(double) => match double.checked_add(1) {
            Some(width) => width,
            None => {
                return Err(TerrainError::Projection);
            },
        },
        None => {
            return Err(TerrainError::Projection);
        },
    };
    match width.checked_mul(width) {
        Some(cells) => Ok(RasterSize { width, height: width, cells }),
        None => Err(TerrainError::Projection),
    }
}

/// A disk by its centre and its radius.
pub open spec fn disk_wf(disk: [Binary64; 3]) -> bool {
    disk@[0].spec_is_finite() && disk@[1].spec_is_finite() && disk@[2].spec_is_finite()
        && !disk@[2].spec_lt(Binary64::zero())
}

/// Bounds that are in order, with at least one disk to cover.
pub open spec fn bounds_wf(
    bounds: [Binary64; 4],
    disks: Seq<[Binary64; 3]>,
    resolution: Binary64,
) -> bool {
    &&& !resolution.spec_le(Binary64::zero())
    &&& !bounds@[2].spec_lt(bounds@[0])
    &&& !bounds@[3].spec_lt(bounds@[1])
    &&& disks.len() > 0
    &&& forall|i: int| 0 <= i < disks.len() ==> disk_wf(#[trigger] disks[i])
}

fn check_bounds(bounds: [Binary64; 4], disks: &[[Binary64; 3]], resolution: Binary64) -> (b: bool)
    ensures
        b == bounds_wf(bounds, disks@, resolution),
{
    if resolution.le(Binary64::zero()) || bounds[2].lt(bounds[0]) || bounds[3].lt(bounds[1])
        || disks.len() == 0 {
        return false;
    }
    let mut i: usize = 0;
    while i < disks.len()
        invariant
            i <= disks@.len(),
            forall|j: int| 0 <= j < i ==> disk_wf(#[trigger] disks@[j]),
        decreases disks@.len() - i,
    {
        let disk = disks[i];
        if !disk[0].is_finite() || !disk[1].is_finite() || !disk[2].is_finite() || disk[2].lt(
            Binary64::zero(),
        ) {
            assert(!disk_wf(disks@[i as int]));
            return false;
        }
        i += 1;
    }
    true
}

/// The size of a raster over some bounds, which are a number of columns and rows
/// apart. Rasters with too many cells are refused.
pub fn bounded_size(
    bounds: [Binary64; 4],
    disks: &[[Binary64; 3]],
    resolution: Binary64,
    columns: usize,
    rows: usize,
    max_cells: usize,
) -> (size: Result<RasterSize, TerrainError>)
    requires
        columns < usize::MAX,
        rows < usize::MAX,
    ensures
        size is Ok <==> bounds_wf(bounds, disks@, resolution) && (columns + 1) * (rows + 1)
            <= max_cells,
        size matches Ok(s) ==> s.width == columns + 1 && s.height == rows + 1 && s.cells == (columns
            + 1) * (rows + 1),
        size matches Err(e) ==> e == TerrainError::Projection,
{
    if !check_bounds(bounds, disks, resolution) {
        return Err(TerrainError::Projection);
    }
    let width: usize = columns + 1;
    let height: usize = rows + 1;
    match width.checked_mul(height) {
        Some(cells) => if cells <= max_cells {
            Ok(RasterSize { width, height, cells })
        } else {
            Err(TerrainError::Projection)
        },
        None => Err(TerrainError::Projection),
    }
}

/// The place of a raster cell: beyond the range, without a place on the globe, or
/// at a latitude and longitude, with its row and column in the tile there.
#[derive(Clone, Copy, Debug, PartialEq, Eq, Structural)]
pub enum RasterPoint {
    Outside,
    Lost,
    At { latitude: Binary64, longitude: Binary64, row: usize, col: usize },
}

/// A cell is sampled unless its squared distance exceeds that of the range.
pub fn within_range(distance_squared: Binary64, range_squared: Binary64) -> (b: bool)
    ensures
        b == !range_squared.spec_lt(distance_squared),
{
    !range_squared.lt(distance_squared)
}

/// A cell is sampled where one of the disks reaches it: its squared distance to
/// the centre is at most the squared radius.
pub fn within_disks(distances_squared: &[Binary64], radii_squared: &[Binary64]) -> (b: bool)
    requires
        distances_squared@.len() == radii_squared@.len(),
    ensures
        b <==> exists|i: int|
            0 <= i < radii_squared@.len() && (#[trigger] distances_squared@[i]).spec_le(
                radii_squared@[i],
            ),
{
    let mut i: usize = 0;
    while i < radii_squared.len()
        invariant
            i <= radii_squared@.len(),
            distances_squared@.len() == radii_squared@.len(),
            forall|j: int|
                0 <= j < i ==> !(#[trigger] distances_squared@[j]).spec_le(radii_squared@[j]),
        decreases radii_squared@.len() - i,
    {
        if distances_squared[i].le(radii_squared[i]) {
            return true;
        }
        i += 1;
    }
    false
}

/// `value` is the elevation of a cell, or the error that ends the sampling.
pub open spec fn is_cell(
    mosaic: &TerrainMosaic,
    point: RasterPoint,
    value: Result<Option<i16>, TerrainError>,
) -> bool {
    match point {
        RasterPoint::Outside => value == Ok::<Option<i16>, TerrainError>(None),
        RasterPoint::Lost => value == Err::<Option<i16>, TerrainError>(TerrainError::Projection),
        RasterPoint::At { latitude, longitude, row, col } => mosaic.is_sample(
            latitude,
            longitude,
            row,
            col,
            value,
        ),
    }
}

/// Every cell has its elevation.
pub open spec fn are_cells(
    mosaic: &TerrainMosaic,
    points: Seq<RasterPoint>,
    elevations: Seq<Option<i16>>,
) -> bool {
    &&& points.len() == elevations.len()
    &&& forall|i: int|
        0 <= i < points.len() ==> is_cell(mosaic, #[trigger] points[i], Ok(elevations[i]))
}

/// `error` is that of the first cell that has one.
pub open spec fn is_first_failure(
    mosaic: &TerrainMosaic,
    points: Seq<RasterPoint>,
    error: TerrainError,
) -> bool {
    exists|before: Seq<Option<i16>>| #[trigger] fails_after(mosaic, points, before, error)
}

/// The first cells have the elevations `before`, and the next one fails.
pub open spec fn fails_after(
    mosaic: &TerrainMosaic,
    points: Seq<RasterPoint>,
    before: Seq<Option<i16>>,
    error: TerrainError,
) -> bool {
    &&& before.len() < points.len()
    &&& are_cells(mosaic, points.take(before.len() as int), before)
    &&& is_cell(mosaic, points[before.len() as int], Err(error))
}

/// A raster that is filled cell by cell, row by row from the north.
#[derive(Debug)]
pub struct RasterBuilder {
    size: RasterSize,
    elevations_m: Vec<Option<i16>>,
}

impl RasterBuilder {
    pub closed spec fn spec_size(&self) -> RasterSize {
        self.size
    }

    pub closed spec fn spec_elevations(&self) -> Seq<Option<i16>> {
        self.elevations_m@
    }

    pub fn new(size: RasterSize) -> (builder: Self)
        requires
            size.wf(),
        ensures
            builder.spec_size().wf(),
            builder.spec_size() == size,
            builder.spec_elevations() == Seq::<Option<i16>>::empty(),
    {
        RasterBuilder { size, elevations_m: Vec::new() }
    }

    /// Samples the next cells. A builder that has failed holds the cells before
    /// the first that has no elevation.
    pub fn add(&mut self, mosaic: &TerrainMosaic, points: &[RasterPoint]) -> (added: Result<
        (),
        TerrainError,
    >)
        requires
            mosaic.wf(),
            mosaic.tiles_wf(),
        ensures
            final(self).spec_size() == old(self).spec_size(),
            final(self).spec_elevations().len() >= old(self).spec_elevations().len(),
            final(self).spec_elevations().take(old(self).spec_elevations().len() as int) == old(
                self,
            ).spec_elevations(),
            added is Ok ==> are_cells(
                mosaic,
                points@,
                final(self).spec_elevations().skip(old(self).spec_elevations().len() as int),
            ),
            added matches Err(e) ==> is_first_failure(mosaic, points@, e) && fails_after(
                mosaic,
                points@,
                final(self).spec_elevations().skip(old(self).spec_elevations().len() as int),
                e,
            ),
    {
        let ghost start = self.elevations_m@;
        let mut i: usize = 0;
        while i < points.len()
            invariant
                i <= points@.len(),
                mosaic.wf(),
                mosaic.tiles_wf(),
                self.size == old(self).size,
                start == old(self).elevations_m@,
                self.elevations_m@.len() == start.len() + i,
                self.elevations_m@.take(start.len() as int) == start,
                forall|j: int|
                    0 <= j < i ==> is_cell(
                        mosaic,
                        #[trigger] points@[j],
                        Ok(self.elevations_m@[start.len() + j]),
                    ),
            decreases points@.len() - i,
        {
            let sampled = match points[i] {
                RasterPoint::Outside => Ok(None),
                RasterPoint::Lost => Err(TerrainError::Projection),
                RasterPoint::At { latitude, longitude, row, col } => mosaic.sample(
                    latitude,
                    longitude,
                    row,
                    col,
                ),
            };
            match sampled {
                Ok(elevation) => {
                    let ghost before = self.elevations_m@;
                    self.elevations_m.push(elevation);
                    proof {
                        assert(self.elevations_m@.take(start.len() as int) =~= before.take(
                            start.len() as int,
                        ));
                    }
                },
                Err(error) => {
                    proof {
                        let before = self.elevations_m@.skip(start.len() as int);
                        assert(before.len() == i);
                        assert(fails_after(mosaic, points@, before, error));
                    }
                    return Err(error);
                },
            }
            i += 1;
        }
        Ok(())
    }

    /// The raster, once every cell has been sampled.
    pub fn finish(
        self,
        projection: String,
        origin_m: [Binary64; 2],
        resolution_m: Binary64,
    ) -> (raster: MetricRaster)
        requires
            self.spec_size().wf(),
            self.spec_elevations().len() == self.spec_size().cells,
        ensures
            raster.elevations_m@.len() == raster.width * raster.height,
            raster == (MetricRaster {
                projection,
                origin_m,
                resolution_m,
                width: self.spec_size().width,
                height: self.spec_size().height,
                elevations_m: raster.elevations_m,
            }),
            raster.elevations_m@ == self.spec_elevations(),
    {
        MetricRaster {
            projection,
            origin_m,
            resolution_m,
            width: self.size.width,
            height: self.size.height,
            elevations_m: self.elevations_m,
        }
    }
}

/// Terrain on a metric grid, row by row from the north.
#[derive(Debug)]
pub struct MetricRaster {
    pub projection: String,
    pub origin_m: [Binary64; 2],
    pub resolution_m: Binary64,
    pub width: usize,
    pub height: usize,
    pub elevations_m: Vec<Option<i16>>,
}

/// `raster` holds what a mosaic says of some points, or `raster` is the first
/// error there.
pub open spec fn is_sampled(
    mosaic: &TerrainMosaic,
    points: Seq<RasterPoint>,
    projection: String,
    origin_m: [Binary64; 2],
    resolution_m: Binary64,
    width: int,
    height: int,
    raster: Result<MetricRaster, TerrainError>,
) -> bool {
    match raster {
        Ok(r) => {
            &&& r.projection == projection
            &&& r.origin_m == origin_m
            &&& r.resolution_m == resolution_m
            &&& r.width == width
            &&& r.height == height
            &&& r.elevations_m@.len() == width * height
            &&& are_cells(mosaic, points, r.elevations_m@)
        },
        Err(e) => is_first_failure(mosaic, points, e),
    }
}

impl MetricRaster {
    fn fill(
        mosaic: &TerrainMosaic,
        size: RasterSize,
        projection: String,
        origin_m: [Binary64; 2],
        resolution_m: Binary64,
        points: &[RasterPoint],
    ) -> (raster: Result<Self, TerrainError>)
        requires
            mosaic.wf(),
            mosaic.tiles_wf(),
            size.wf(),
            points@.len() == size.cells,
        ensures
            is_sampled(
                mosaic,
                points@,
                projection,
                origin_m,
                resolution_m,
                size.width as int,
                size.height as int,
                raster,
            ),
    {
        let mut builder = RasterBuilder::new(size);
        match builder.add(mosaic, points) {
            Ok(()) => {
                proof {
                    assert(builder.spec_elevations().skip(0) =~= builder.spec_elevations());
                }
                Ok(builder.finish(projection, origin_m, resolution_m))
            },
            Err(error) => Err(error),
        }
    }

    /// A square raster round a radar, `radius` cells to each side. The points are
    /// those of its cells.
    pub fn from_mosaic(
        mosaic: &TerrainMosaic,
        projection: String,
        range: Binary64,
        resolution: Binary64,
        radius: usize,
        origin_m: [Binary64; 2],
        points: &[RasterPoint],
    ) -> (raster: Result<Self, TerrainError>)
        requires
            mosaic.wf(),
            mosaic.tiles_wf(),
            range_wf(range, resolution) && (2 * radius + 1) * (2 * radius + 1) <= usize::MAX
                ==> points@.len() == (2 * radius + 1) * (2 * radius + 1),
        ensures
            if range_wf(range, resolution) && (2 * radius + 1) * (2 * radius + 1) <= usize::MAX {
                is_sampled(
                    mosaic,
                    points@,
                    projection,
                    origin_m,
                    resolution,
                    2 * radius + 1,
                    2 * radius + 1,
                    raster,
                )
            } else {
                raster == Err::<Self, TerrainError>(TerrainError::Projection)
            },
    {
        match square_size(range, resolution, radius) {
            Ok(size) => Self::fill(mosaic, size, projection, origin_m, resolution, points),
            Err(error) => Err(error),
        }
    }

    /// A raster over some bounds, which are a number of columns and rows apart.
    /// The points are those of its cells.
    pub fn from_bounds(
        mosaic: &TerrainMosaic,
        projection: String,
        bounds: [Binary64; 4],
        coverage_disks: &[[Binary64; 3]],
        resolution: Binary64,
        columns: usize,
        rows: usize,
        max_cells: usize,
        points: &[RasterPoint],
    ) -> (raster: Result<Self, TerrainError>)
        requires
            mosaic.wf(),
            mosaic.tiles_wf(),
            columns < usize::MAX,
            rows < usize::MAX,
            bounds_wf(bounds, coverage_disks@, resolution) && (columns + 1) * (rows + 1)
                <= max_cells ==> points@.len() == (columns + 1) * (rows + 1),
        ensures
            if bounds_wf(bounds, coverage_disks@, resolution) && (columns + 1) * (rows + 1)
                <= max_cells {
                is_sampled(
                    mosaic,
                    points@,
                    projection,
                    [bounds[0], bounds[1]],
                    resolution,
                    columns + 1,
                    rows + 1,
                    raster,
                )
            } else {
                raster == Err::<Self, TerrainError>(TerrainError::Projection)
            },
    {
        match bounded_size(bounds, coverage_disks, resolution, columns, rows, max_cells) {
            Ok(size) => Self::fill(
                mosaic,
                size,
                projection,
                [bounds[0], bounds[1]],
                resolution,
                points,
            ),
            Err(error) => Err(error),
        }
    }
}

/// A range must not be negative, and a resolution must not be zero or less.
pub proof fn law_raster_is_refused_for_cause(range: Binary64, resolution: Binary64)
    ensures
        range_wf(range, resolution) <==> (range.key() >= 0 || range.spec_is_nan()) && (
        resolution.key() > 0 || resolution.spec_is_nan()),
{
}

/// Bounds are taken where they run from the lower left to the upper right, with at
/// least one disk, and every disk is finite and has no negative radius.
pub proof fn law_bounds_are_refused_for_cause(
    bounds: [Binary64; 4],
    disks: Seq<[Binary64; 3]>,
    resolution: Binary64,
)
    requires
        forall|i: int| 0 <= i < 4 ==> !(#[trigger] bounds@[i]).spec_is_nan(),
        !resolution.spec_is_nan(),
    ensures
        bounds_wf(bounds, disks, resolution) <==> {
            &&& resolution.key() > 0
            &&& bounds@[0].key() <= bounds@[2].key()
            &&& bounds@[1].key() <= bounds@[3].key()
            &&& disks.len() > 0
            &&& forall|i: int|
                0 <= i < disks.len() ==> (#[trigger] disks[i])@[0].spec_is_finite()
                    && disks[i]@[1].spec_is_finite() && disks[i]@[2].spec_is_finite()
                    && disks[i]@[2].key() >= 0
        },
{
    assert(!bounds@[0].spec_is_nan() && !bounds@[1].spec_is_nan() && !bounds@[2].spec_is_nan()
        && !bounds@[3].spec_is_nan());
    if bounds_wf(bounds, disks, resolution) {
        assert forall|i: int| 0 <= i < disks.len() implies (#[trigger] disks[i])@[0].spec_is_finite()
            && disks[i]@[1].spec_is_finite() && disks[i]@[2].spec_is_finite() && disks[i]@[2].key()
            >= 0 by {
            assert(disk_wf(disks[i]));
        }
    }
}

/// Every cell of a sampled raster is the terrain at its point: nothing outside the
/// range, and inside it what the mosaic has there.
pub proof fn law_raster_cells_are_sampled_in_place(
    mosaic: &TerrainMosaic,
    points: Seq<RasterPoint>,
    elevations: Seq<Option<i16>>,
    i: int,
)
    requires
        are_cells(mosaic, points, elevations),
        0 <= i < points.len(),
    ensures
        elevations.len() == points.len(),
        points[i] !is Lost,
        points[i] is Outside ==> elevations[i] is None,
        points[i] matches RasterPoint::At { latitude, longitude, row, col } ==> mosaic.is_sample(
            latitude,
            longitude,
            row,
            col,
            Ok(elevations[i]),
        ),
{
    assert(is_cell(mosaic, points[i], Ok(elevations[i])));
}

/// A raster fails with the first point that has no terrain: one that cannot be
/// projected, or one that the mosaic refuses. All points before it have theirs.
pub proof fn law_first_bad_point_is_reported(
    mosaic: &TerrainMosaic,
    points: Seq<RasterPoint>,
    error: TerrainError,
)
    requires
        is_first_failure(mosaic, points, error),
    ensures
        exists|i: int|
            {
                &&& 0 <= i < points.len()
                &&& #[trigger] points[i] !is Outside
                &&& points[i] is Lost ==> error == TerrainError::Projection
                &&& points[i] matches RasterPoint::At { latitude, longitude, row, col }
                    ==> mosaic.is_sample(latitude, longitude, row, col, Err(error))
                &&& forall|j: int| 0 <= j < i ==> #[trigger] points[j] !is Lost
            },
{
    let before = choose|before: Seq<Option<i16>>| #[trigger]
        fails_after(mosaic, points, before, error);
    let i = before.len() as int;
    assert(is_cell(mosaic, points[i], Err(error)));
    assert forall|j: int| 0 <= j < i implies #[trigger] points[j] !is Lost by {
        assert(points.take(i)[j] == points[j]);
        assert(is_cell(mosaic, points.take(i)[j], Ok(before[j])));
    }
}

} // verus!
