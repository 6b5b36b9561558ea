use radial::float::Binary64;
use radial::los::{
    advance_rays, compute_coverage, locate_cells, must_subdivide, radar_site, subdivide_rays,
    CellTarget, Coverage, CoverageBuilder, CoverageError, Grid, LosConfig, Measure, PolarRay,
    RaySplit, Visit, NO_DATA_HEIGHT,
};
use radial::parallel::ParallelConfig;
use radial::profile::{compute_profile, plan_profile, ProfileResult, ProfileSample};
use radial::sector::{PolarSector, WalkStep};
use rayon::prelude::{IntoParallelRefIterator, ParallelIterator};
use std::f64::consts::TAU;

const EARTH_RADIUS_M: f64 = 6_371_000.0;

fn bits(value: f64) -> Binary64 {
    Binary64::from_bits(value.to_bits())
}

fn value(bits: Binary64) -> f64 {
    f64::from_bits(bits.to_bits())
}

fn apparent_height(terrain_m: f64, distance_squared_m2: f64, k: f64) -> f64 {
    terrain_m - distance_squared_m2 / (2.0 * k * EARTH_RADIUS_M)
}

fn config(x: usize, y: usize, agl: f64, cell: f64, range: f64, k: f64) -> LosConfig {
    LosConfig {
        radar_x: x,
        radar_y: y,
        antenna_agl_m: bits(agl),
        cell_size_m: bits(cell),
        range_m: bits(range),
        effective_earth_k: bits(k),
    }
}

/// Walks all rays of one sector with the arithmetic of the machine.
fn walk(grid: &Grid<f32>, config: &LosConfig, radar_height: f64, number: usize) -> Vec<Visit> {
    let (cell, range) = (value(config.cell_size_m), value(config.range_m));
    let k = value(config.effective_earth_k);
    let width = TAU / 8.0;
    let first = PolarRay::new(bits(width * number as f64), bits(width));
    let mut sector = PolarSector::new(grid, *config, first, (range / cell).ceil() as usize);
    let mut all = Vec::new();
    loop {
        let radial = sector.radial_cell() as f64;
        match sector.step() {
            WalkStep::Width => {
                let transverse = radial * cell * value(sector.rays()[0].width);
                sector.take_width(bits(transverse), bits(cell * 0.5));
            }
            WalkStep::Halves => {
                let splits: Vec<RaySplit> = sector
                    .rays()
                    .iter()
                    .map(|ray| {
                        let child = value(ray.width) * 0.5;
                        RaySplit {
                            left_angle: bits((value(ray.angle) - child * 0.5).rem_euclid(TAU)),
                            right_angle: bits((value(ray.angle) + child * 0.5).rem_euclid(TAU)),
                            width: bits(child),
                        }
                    })
                    .collect();
                sector.take_halves(&splits);
            }
            WalkStep::Offsets => {
                let offsets: Vec<(i32, i32)> = sector
                    .rays()
                    .iter()
                    .map(|ray| {
                        let angle = value(ray.angle);
                        ((radial * angle.cos()).round() as i32, (radial * angle.sin()).round() as i32)
                    })
                    .collect();
                sector.take_offsets(&offsets);
            }
            WalkStep::Measures => {
                let measures: Vec<Measure> = sector
                    .rays()
                    .iter()
                    .zip(sector.targets())
                    .map(|(ray, target)| {
                        let target = target
                            .unwrap_or(CellTarget { index: 0, distance_squared_cells: 0 });
                        let squared = target.distance_squared_cells as f64 * cell * cell;
                        let distance = squared.sqrt();
                        let terrain = grid.elevations_m[target.index].unwrap_or(0.0) as f64;
                        let rise = apparent_height(terrain, squared, k) - radar_height;
                        Measure {
                            distance_squared: bits(squared),
                            distance: bits(distance),
                            needed: bits(value(ray.horizon) * distance - rise),
                            slope: bits(rise / distance),
                        }
                    })
                    .collect();
                all.extend(sector.take_measures(&measures, bits(range * range)));
            }
            WalkStep::Done => return all,
        }
    }
}

fn coverage(grid: &Grid<f32>, config: &LosConfig) -> Result<Coverage, CoverageError> {
    let site = radar_site(grid, config)?;
    let radar_height = site.terrain as f64 + value(config.antenna_agl_m);
    let mut builder = CoverageBuilder::new(grid.width * grid.height, site.index);
    let mut visits = Vec::new();
    for sector in 0..8 {
        let found = walk(grid, config, radar_height, sector);
        builder.record_all(&found);
        visits.extend(found);
    }
    let built = builder.finish();
    let whole = compute_coverage(grid, config, &visits)?;
    assert_eq!(built.minimum_agl_m, whole.minimum_agl_m);
    assert_eq!(built.ground_visible, whole.ground_visible);
    Ok(built)
}

fn line(values: &[Option<f32>], k: f64) -> Coverage {
    let g = Grid::new(values.len(), 1, values.to_vec()).unwrap();
    let range = (values.len() as f64 - 1.0) * 1000.0;
    coverage(&g, &config(0, 0, 0.0, 1000.0, range, k)).unwrap()
}

#[test]
fn flat_ground_and_curvature() {
    let c = line(&[Some(0.0); 4], 4.0 / 3.0);
    assert!(c.ground_visible.contains(0));
    assert!(c.minimum_agl_m[3] > 0);
}

#[test]
fn ridge_masks_cell_and_minimum_height_is_positive() {
    let c = line(&[Some(0.), Some(100.), Some(0.)], 1e30);
    assert!(c.ground_visible.contains(1));
    assert!(!c.ground_visible.contains(2));
    assert_eq!(c.minimum_agl_m[2], 200);
}

#[test]
fn equal_horizon_is_visible() {
    let c = line(&[Some(0.), Some(10.), Some(20.)], 1e30);
    assert!(c.ground_visible.contains(2));
}

#[test]
fn no_data_stays_reserved() {
    assert_eq!(line(&[Some(0.), None], 1.0).minimum_agl_m[1], NO_DATA_HEIGHT);
}

#[test]
fn exact_range_and_outside() {
    let g = Grid::new(4, 1, vec![Some(0.); 4]).unwrap();
    let c = coverage(&g, &config(0, 0, 1., 10., 20., 1.)).unwrap();
    assert_ne!(c.minimum_agl_m[2], NO_DATA_HEIGHT);
    assert_eq!(c.minimum_agl_m[3], NO_DATA_HEIGHT);
}

#[test]
fn agl_layers_are_monotonic() {
    let c = line(&[Some(0.), Some(10.), Some(0.), Some(0.)], 1e30);
    for &h in &[0, 30, 50, 100] {
        let count = c.minimum_agl_m.iter().filter(|&&v| v != NO_DATA_HEIGHT && v <= h).count();
        if h == 0 {
            assert!(count <= c.minimum_agl_m.iter().filter(|&&v| v <= 30).count());
        }
    }
}

#[test]
fn ray_traversal_covers_flat_disk_without_spokes() {
    let radius = 32usize;
    let side = radius * 2 + 1;
    let grid = Grid::new(side, side, vec![Some(0.0); side * side]).unwrap();
    let coverage =
        coverage(&grid, &config(radius, radius, 1000.0, 1.0, radius as f64, 1e30)).unwrap();
    for y in 0..side {
        for x in 0..side {
            let dx = x.abs_diff(radius);
            let dy = y.abs_diff(radius);
            if dx * dx + dy * dy <= radius * radius {
                assert!(coverage.ground_visible.contains(grid.index(x, y)), "{x},{y}");
            }
        }
    }
}

#[test]
fn memory_budget_limits_workers() {
    let p = ParallelConfig { max_threads: 8, memory_budget_bytes: 300, bytes_per_cell: 3 };
    assert_eq!(p.concurrent_radars(100, 8), 1)
}

#[test]
fn parallel_matches_sequential() {
    let grid = Grid::new(5, 3, vec![Some(0.); 15]).unwrap();
    let configs = [config(1, 1, 10., 90., 180., 4. / 3.), config(3, 1, 10., 90., 180., 4. / 3.)];
    let expected = configs.iter().map(|c| coverage(&grid, c).unwrap()).collect::<Vec<_>>();
    let parallel = ParallelConfig { max_threads: 2, memory_budget_bytes: 10000, bytes_per_cell: 3 };
    let pool = rayon::ThreadPoolBuilder::new()
        .num_threads(parallel.workers(grid.width, grid.height, configs.len()))
        .build()
        .unwrap();
    let actual: Vec<Coverage> =
        pool.install(|| configs.par_iter().map(|c| coverage(&grid, c).unwrap()).collect());
    for (i, c) in actual.iter().enumerate() {
        assert_eq!(c.ground_visible, expected[i].ground_visible);
        assert_eq!(c.minimum_agl_m, expected[i].minimum_agl_m)
    }
}

#[test]
fn workers_are_bounded_by_radars_threads_and_memory() {
    let p = ParallelConfig { max_threads: 4, memory_budget_bytes: 1000, bytes_per_cell: 1 };
    assert_eq!(p.concurrent_radars(100, 3), 3);
    assert_eq!(p.concurrent_radars(100, 30), 4);
    assert_eq!(p.concurrent_radars(400, 30), 2);
    assert_eq!(p.concurrent_radars(0, 0), 1);
    assert_eq!(p.concurrent_radars(usize::MAX, 9), 1);
    assert_eq!(p.workers(usize::MAX, 2, 9), 1);
    let none = ParallelConfig { max_threads: 0, memory_budget_bytes: 0, bytes_per_cell: 0 };
    assert_eq!(none.concurrent_radars(10, 5), 1);
    assert_eq!(ParallelConfig::with_threads(6).concurrent_radars(1000, 5), 5);
}

#[test]
fn grids_need_one_slot_per_cell() {
    assert!(Grid::new(2, 2, vec![Some(1u8); 4]).is_ok());
    assert_eq!(Grid::new(2, 2, vec![Some(1u8); 3]).err(), Some(CoverageError::InvalidGrid));
    assert!(Grid::new(usize::MAX, 2, vec![Some(1u8); 3]).is_err());
    assert!(Grid::<u8>::new(0, 7, vec![]).is_ok());
    let shared = Grid::new(3, 2, vec![Some(1u8); 6]).unwrap();
    let again = Grid::from_shared(2, 3, shared.elevations_m.clone()).unwrap();
    assert_eq!(again.index(1, 2), 5);
}

#[test]
fn radar_site_errors_come_in_order() {
    let grid = Grid::new(2, 1, vec![Some(1.0f32), None]).unwrap();
    let error = |c: LosConfig| radar_site(&grid, &c).err();
    assert_eq!(error(config(2, 0, 0., 1., 1., 1.)), Some(CoverageError::RadarOutsideGrid));
    assert_eq!(error(config(0, 1, 0., -1., 1., 1.)), Some(CoverageError::RadarOutsideGrid));
    assert_eq!(error(config(1, 0, 0., 0., 1., 1.)), Some(CoverageError::InvalidConfig));
    assert_eq!(error(config(0, 0, 0., 1., -1., 1.)), Some(CoverageError::InvalidConfig));
    assert_eq!(error(config(0, 0, 0., 1., 1., f64::NAN)), Some(CoverageError::InvalidConfig));
    assert_eq!(error(config(1, 0, 0., 1., 1., 1.)), Some(CoverageError::RadarOnNoData));
    assert_eq!(error(config(0, 0, 0., 1., 0., 1.)), None);
    assert_eq!(CoverageError::RadarOnNoData.message(), "RadarOnNoData");
}

#[test]
fn largest_height_of_a_cell_stays_in_any_order() {
    let visits = [
        Visit { index: 1, agl: 5 },
        Visit { index: 1, agl: 9 },
        Visit { index: 3, agl: 0 },
        Visit { index: 1, agl: 7 },
    ];
    let mut reversed = visits;
    reversed.reverse();
    let grid = Grid::new(4, 1, vec![Some(0.0f32); 4]).unwrap();
    let c = config(0, 0, 0., 1., 1., 1.);
    for order in [visits, reversed] {
        let result = compute_coverage(&grid, &c, &order).unwrap();
        assert_eq!(result.minimum_agl_m, vec![0, 9, NO_DATA_HEIGHT, 0]);
        assert!(result.ground_visible.contains(0));
        assert!(!result.ground_visible.contains(1));
        assert!(!result.ground_visible.contains(2));
        assert!(result.ground_visible.contains(3));
    }
    assert_eq!(
        compute_coverage(&grid, &config(9, 0, 0., 1., 1., 1.), &visits).err(),
        Some(CoverageError::RadarOutsideGrid)
    );
}

#[test]
fn cells_are_located_inside_the_grid_only() {
    let grid = Grid::new(4, 3, vec![Some(0.0f32); 12]).unwrap();
    let c = config(1, 1, 0., 1., 1., 1.);
    let targets = locate_cells(&grid, &c, &[(2, 1), (-1, -1), (-2, 0), (3, 0), (0, 2), (0, 0)]);
    assert_eq!(
        targets,
        vec![
            Some(CellTarget { index: 11, distance_squared_cells: 5 }),
            Some(CellTarget { index: 0, distance_squared_cells: 2 }),
            None,
            None,
            None,
            Some(CellTarget { index: 5, distance_squared_cells: 0 }),
        ]
    );
}

#[test]
fn halves_inherit_horizon_and_distance() {
    let ray = PolarRay {
        angle: bits(1.0),
        width: bits(0.5),
        horizon: bits(0.25),
        last_distance_m: bits(90.0),
    };
    let split = RaySplit { left_angle: bits(0.9), right_angle: bits(1.1), width: bits(0.25) };
    let children = subdivide_rays(&[ray], &[split]);
    assert_eq!(children.len(), 2);
    assert_eq!(value(children[0].angle), 0.9);
    assert_eq!(value(children[1].angle), 1.1);
    for child in children {
        assert_eq!(value(child.width), 0.25);
        assert_eq!(value(child.horizon), 0.25);
        assert_eq!(value(child.last_distance_m), 90.0);
    }
    assert!(must_subdivide(bits(16.0), bits(15.0)));
    assert!(!must_subdivide(bits(15.0), bits(15.0)));
}

/// Every cell in range is reached, off the axes too, and no other cell is.
#[test]
fn cells_in_range_are_reached_and_others_stay_reserved() {
    let grid = Grid::new(9, 9, vec![Some(0.0f32); 81]).unwrap();
    let c = coverage(&grid, &config(4, 4, 1., 10., 29., 1e30)).unwrap();
    for y in 0..9i32 {
        for x in 0..9i32 {
            let (dx, dy) = (x - 4, y - 4);
            let in_range = 100 * (dx * dx + dy * dy) <= 29 * 29;
            let height = c.minimum_agl_m[(y * 9 + x) as usize];
            assert_eq!(height != NO_DATA_HEIGHT, in_range, "{dx},{dy}");
        }
    }
}

#[test]
fn the_radars_own_cell_is_never_visited() {
    let grid = Grid::new(3, 1, vec![Some(0.0f32); 3]).unwrap();
    let c = config(1, 0, 0., 1., 2., 1.);
    let mut sector = PolarSector::new(&grid, c, PolarRay::new(bits(0.0), bits(0.25)), 1);
    sector.take_width(bits(0.25), bits(0.5));
    sector.take_offsets(&[(0, 0)]);
    let measure = Measure {
        distance_squared: bits(1.0),
        distance: bits(1.0),
        needed: bits(7.0),
        slope: bits(0.125),
    };
    assert_eq!(sector.take_measures(&[measure], bits(4.0)), vec![]);
    assert_eq!(value(sector.rays()[0].last_distance_m), 0.0);
}

#[test]
fn sectors_are_walked_cell_by_cell() {
    let grid = Grid::new(3, 1, vec![Some(0.0f32); 3]).unwrap();
    let c = config(0, 0, 0., 1., 2., 1.);
    let ray = PolarRay::new(bits(0.0), bits(1.0));
    assert_eq!(PolarSector::new(&grid, c, ray, 0).step(), WalkStep::Done);
    let mut sector = PolarSector::new(&grid, c, ray, 2);
    assert_eq!((sector.step(), sector.radial_cell()), (WalkStep::Width, 1));
    sector.take_width(bits(0.6), bits(0.5));
    assert_eq!(sector.step(), WalkStep::Halves);
    sector.take_halves(&[RaySplit {
        left_angle: bits(0.25),
        right_angle: bits(-0.25),
        width: bits(0.5),
    }]);
    assert_eq!((sector.step(), sector.rays().len()), (WalkStep::Width, 2));
    sector.take_width(bits(0.5), bits(0.5));
    assert_eq!(sector.step(), WalkStep::Offsets);
    sector.take_offsets(&[(1, 0), (0, 5)]);
    assert_eq!(sector.targets()[0], Some(CellTarget { index: 1, distance_squared_cells: 1 }));
    assert_eq!(sector.targets()[1], None);
    let at = |distance: f64| Measure {
        distance_squared: bits(distance * distance),
        distance: bits(distance),
        needed: bits(0.5),
        slope: bits(0.125),
    };
    let seen = sector.take_measures(&[at(1.0), at(1.0)], bits(4.0));
    assert_eq!(seen, vec![Visit { index: 1, agl: 1 }]);
    assert_eq!((sector.step(), sector.radial_cell()), (WalkStep::Width, 2));
    assert_eq!(value(sector.rays()[0].horizon), 0.125);
    sector.take_width(bits(0.5), bits(0.5));
    sector.take_offsets(&[(2, 0), (2, 0)]);
    let seen = sector.take_measures(&[at(2.0), at(2.0)], bits(4.0));
    assert_eq!(seen.len(), 2);
    assert_eq!(sector.step(), WalkStep::Done);
}

#[test]
fn nearer_samples_and_missing_terrain_do_not_raise_the_horizon() {
    let grid = Grid::new(3, 1, vec![Some(0.0f32), None, Some(0.0)]).unwrap();
    let start = PolarRay::new(bits(0.0), bits(1.0));
    let measure = |distance: f64| Measure {
        distance_squared: bits(distance * distance),
        distance: bits(distance),
        needed: bits(3.5),
        slope: bits(0.125),
    };
    let target = |index| Some(CellTarget { index, distance_squared_cells: 1 });
    let range = bits(100.0);
    // no terrain: the distance moves on, nothing is seen
    let mut rays = vec![start];
    assert!(advance_rays(&grid, &mut rays, &[target(1)], &[measure(2.0)], range).is_empty());
    assert_eq!(value(rays[0].last_distance_m), 2.0);
    assert_eq!(value(rays[0].horizon), f64::NEG_INFINITY);
    // the same distance again is passed over
    assert!(advance_rays(&grid, &mut rays, &[target(2)], &[measure(2.0)], range).is_empty());
    // farther terrain is seen
    let seen = advance_rays(&grid, &mut rays, &[target(2)], &[measure(3.0)], range);
    assert_eq!(seen, vec![Visit { index: 2, agl: 4 }]);
    assert_eq!(value(rays[0].horizon), 0.125);
    // beyond the range nothing happens
    assert!(advance_rays(&grid, &mut rays, &[target(2)], &[measure(11.0)], range).is_empty());
    assert_eq!(value(rays[0].last_distance_m), 3.0);
    // outside the grid nothing happens
    assert!(advance_rays(&grid, &mut rays, &[None], &[measure(4.0)], range).is_empty());
    assert_eq!(value(rays[0].last_distance_m), 3.0);
}

fn profile(
    grid: &Grid<f32>,
    config: &LosConfig,
    target_x: usize,
    target_y: usize,
    target_agl_m: f64,
) -> Result<ProfileResult, CoverageError> {
    let plan = plan_profile(grid, config, target_x, target_y)?;
    let (cell, k) = (value(config.cell_size_m), value(config.effective_earth_k));
    let radar_h = plan.radar_ground as f64 + value(config.antenna_agl_m);
    let total_d2 = plan.distance_squared_cells as f64 * cell.powi(2);
    let total_d = total_d2.sqrt();
    let target_apparent =
        apparent_height(plan.target_ground as f64, total_d2, k) + target_agl_m;
    let samples: Vec<ProfileSample> = (1..=plan.steps)
        .map(|step| {
            let fraction = step as f64 / plan.steps as f64;
            let x = (config.radar_x as f64 + plan.dx as f64 * fraction).round() as usize;
            let y = (config.radar_y as f64 + plan.dy as f64 * fraction).round() as usize;
            let terrain = grid.elevations_m[grid.index(x, y)].unwrap_or(0.0) as f64;
            let distance = total_d * fraction;
            let apparent = apparent_height(terrain, distance * distance, k);
            let los = radar_h + (target_apparent - radar_h) * fraction;
            ProfileSample {
                x,
                y,
                distance_m: bits(distance),
                terrain_m: bits(terrain),
                apparent_terrain_m: bits(apparent),
                los_height_m: bits(los),
                vertical_margin_m: bits(los - apparent),
                slope: bits((apparent - radar_h) / distance),
            }
        })
        .collect();
    compute_profile(grid, config, target_x, target_y, bits(target_apparent), &samples)
}

#[test]
fn ridge_obstructs_profile() {
    let grid = Grid::new(3, 1, vec![Some(0.), Some(100.), Some(0.)]).unwrap();
    let cfg = config(0, 0, 0., 1000., 2000., 1e30);
    let p = profile(&grid, &cfg, 2, 0, 0.).unwrap();
    assert!(!p.visible);
    assert_eq!(p.first_obstacle_distance_m.map(value), Some(1000.));
}

#[test]
fn profile_keeps_running_horizon_and_skips_missing_terrain() {
    let grid =
        Grid::new(5, 1, vec![Some(0.), Some(10.), None, Some(5.), Some(100.)]).unwrap();
    let cfg = config(0, 0, 50., 1000., 4000., 1e30);
    let p = profile(&grid, &cfg, 4, 0, 0.).unwrap();
    assert!(p.visible);
    assert_eq!(p.first_obstacle_distance_m, None);
    assert_eq!(p.points.len(), 3);
    assert_eq!(value(p.points[0].horizon_slope), f64::NEG_INFINITY);
    assert_eq!(value(p.points[1].horizon_slope), -40.0 / 1000.0);
    assert_eq!(value(p.points[2].horizon_slope), -45.0 / 3000.0);
    assert_eq!(value(p.points[2].terrain_m), 100.0);
    assert!(p.points.iter().all(|point| !point.is_obstruction));
}

#[test]
fn profile_to_the_radar_is_empty_and_visible() {
    let grid = Grid::new(2, 1, vec![Some(3.0f32), None]).unwrap();
    let p = profile(&grid, &config(0, 0, 0., 1., 1., 1.), 0, 0, 0.).unwrap();
    assert!(p.visible && p.points.is_empty());
}

#[test]
fn profile_errors_come_in_order() {
    let grid = Grid::new(3, 1, vec![Some(3.0f32), None, None]).unwrap();
    let error = |x: usize, tx: usize, ty: usize| {
        plan_profile(&grid, &config(x, 0, 0., 1., 1., 1.), tx, ty).err()
    };
    assert_eq!(error(0, 3, 0), Some(CoverageError::RadarOutsideGrid));
    assert_eq!(error(3, 0, 0), Some(CoverageError::RadarOutsideGrid));
    assert_eq!(error(1, 0, 1), Some(CoverageError::RadarOutsideGrid));
    assert_eq!(error(1, 2, 0), Some(CoverageError::RadarOnNoData));
    assert_eq!(error(0, 2, 0), Some(CoverageError::InvalidGrid));
    assert_eq!(error(0, 0, 0), None);
    let far = Grid::new(4, 3, vec![Some(0.0f32); 12]).unwrap();
    let plan = plan_profile(&far, &config(3, 0, 0., 1., 1., 1.), 1, 2).unwrap();
    assert_eq!((plan.dx, plan.dy, plan.steps, plan.distance_squared_cells), (-2, 2, 2, 8));
}
