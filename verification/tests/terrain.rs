use flate2::write::GzEncoder;
use flate2::Compression;
use radial::angle::{fold, table_steps, AngularTable, Quadrant};
use radial::float::Binary64;
use radial::los::{dynamic_ray_count, MAX_BISECTIONS};
use radial::raster::{
    bounded_size, square_size, within_disks, within_range, MetricRaster, RasterPoint,
};
use radial::srtm::{
    after_failure, check_announced, check_body, tile_file_name, tile_name, tile_url, DownloadStep,
    Retry, SrtmCacheConfig, TileDownload,
};
use radial::terrain::{
    check_latitude, check_longitude, merge_coordinates, tile_of, tiles_for_radius, HgtTile,
    TerrainError, TerrainMosaic, TileCoordinate,
};
use rayon::prelude::{IntoParallelIterator, ParallelIterator};
use std::f64::consts::{FRAC_PI_2, FRAC_PI_4, PI, TAU};
use std::io::Write;
use std::sync::Arc;

const EARTH_RADIUS_M: f64 = 6_371_000.0;

fn bits(value: f64) -> Binary64 {
    Binary64::from_bits(value.to_bits())
}

fn value(bits: Binary64) -> f64 {
    f64::from_bits(bits.to_bits())
}

fn tile(lat: i16, lon: i16, height: i16) -> Arc<HgtTile> {
    Arc::new(HgtTile {
        coordinate: TileCoordinate { lat, lon },
        dimension: 1201,
        heights: vec![height; 1201 * 1201],
    })
}

/// The row and column of a place in its tile.
fn place(mosaic: &TerrainMosaic, latitude: f64, longitude: f64) -> (usize, usize) {
    let Ok(c) = tile_of(bits(latitude), bits(longitude)) else {
        return (0, 0);
    };
    let Ok(tile) = mosaic.tile(c) else {
        return (0, 0);
    };
    let scale = (tile.dimension - 1) as f64;
    (
        ((1.0 - (latitude - f64::from(c.lat))) * scale).round() as usize,
        ((longitude - f64::from(c.lon)) * scale).round() as usize,
    )
}

fn sample(mosaic: &TerrainMosaic, lat: f64, lon: f64) -> Result<Option<i16>, TerrainError> {
    let (row, col) = place(mosaic, lat, lon);
    mosaic.sample(bits(lat), bits(lon), row, col)
}

fn radius_tiles(lat: f64, lon: f64, range: f64) -> Result<Vec<TileCoordinate>, TerrainError> {
    let angular = range / EARTH_RADIUS_M;
    let min_lat = (lat.to_radians() - angular).max(-FRAC_PI_2);
    let max_lat = (lat.to_radians() + angular).min(FRAC_PI_2);
    let touches_pole = min_lat <= -FRAC_PI_2 || max_lat >= FRAC_PI_2;
    let lon_delta = if touches_pole {
        PI
    } else {
        (angular.sin() / lat.to_radians().cos().abs()).clamp(-1.0, 1.0).asin()
    };
    let west = lon.to_radians() - lon_delta;
    let east = lon.to_radians() + lon_delta;
    let columns: Vec<bool> = (-180..=179)
        .map(|column: i16| {
            let center = (column as f64 + 0.5).to_radians();
            let relative = (center - lon.to_radians() + PI).rem_euclid(TAU) - PI;
            let half_tile = 0.5f64.to_radians();
            lon_delta >= PI
                || (relative >= west - lon.to_radians() - half_tile
                    && relative <= east - lon.to_radians() + half_tile)
        })
        .collect();
    tiles_for_radius(
        bits(lat),
        bits(lon),
        bits(range),
        min_lat.to_degrees().floor() as i16,
        max_lat.to_degrees().floor().min(89.0) as i16,
        &columns,
    )
}

/// A radar at a pole gets the tiles round it, and its own among them.
#[test]
fn the_tile_of_a_radar_is_always_needed() {
    let at_the_pole = radius_tiles(90., 0., 0.).unwrap();
    assert!(at_the_pole.contains(&TileCoordinate { lat: 89, lon: 0 }));
    assert_eq!(at_the_pole.len(), 360);
    let south = radius_tiles(-90., 0., 0.).unwrap();
    assert!(south.contains(&TileCoordinate { lat: -90, lon: 0 }));
    for (lat, lon) in [(0., 0.), (45.5, -180.), (-0.5, 180.), (12., 7.)] {
        let own = tile_of(bits(lat), bits(lon)).unwrap();
        assert!(radius_tiles(lat, lon, 0.).unwrap().contains(&own));
    }
    let none = [false; 360];
    assert_eq!(
        tiles_for_radius(bits(10.5), bits(20.5), bits(0.), 0, 0, &none).unwrap(),
        vec![TileCoordinate { lat: 10, lon: 20 }]
    );
}

#[test]
fn missing_is_explicit() {
    assert!(matches!(
        TerrainMosaic::default().tile(TileCoordinate { lat: 0, lon: 0 }),
        Err(TerrainError::Missing(_))
    ))
}

#[test]
fn concurrent_reads() {
    let t = Arc::new(HgtTile {
        coordinate: TileCoordinate { lat: 0, lon: 0 },
        dimension: 1201,
        heights: vec![1; 1201 * 1201],
    });
    let m = Arc::new(TerrainMosaic::new(vec![t]));
    let heights: Vec<Option<i16>> = (0..4)
        .into_par_iter()
        .map(|_| m.tile(TileCoordinate { lat: 0, lon: 0 }).unwrap().sample(1, 1))
        .collect();
    assert_eq!(heights.len(), 4);
    for h in heights {
        assert_eq!(h, Some(1));
    }
}

#[test]
fn radius_loads_multiple_tiles_and_crosses_dateline() {
    let local = radius_tiles(45.0, 2.0, 400_000.0).unwrap();
    assert!(local.len() > 1);
    assert!(local.iter().any(|c| c.lat == 41));
    assert!(local.iter().any(|c| c.lat == 48));
    let dateline = radius_tiles(0.0, 179.8, 100_000.0).unwrap();
    assert!(dateline.iter().any(|c| c.lon == 179));
    assert!(dateline.iter().any(|c| c.lon == -180));
}

#[test]
fn radius_tiles_are_ordered_and_bounded() {
    let pole = radius_tiles(89.9, 0.0, 50_000.0).unwrap();
    assert_eq!(pole.len(), 360);
    assert!(pole.windows(2).all(|pair| pair[0] < pair[1]));
    assert_eq!(pole[0], TileCoordinate { lat: 89, lon: -180 });
    for (lat, lon, range) in [
        (90.1, 0.0, 1.0),
        (0.0, -180.5, 1.0),
        (0.0, 0.0, 1_000_000.5),
        (0.0, 0.0, -1.0),
        (f64::NAN, 0.0, 1.0),
    ] {
        assert!(matches!(radius_tiles(lat, lon, range), Err(TerrainError::Coordinates)));
    }
    let merged = merge_coordinates(&[radius_tiles(45.5, 2.5, 1.0).unwrap(), pole]);
    assert!(merged.windows(2).all(|pair| pair[0] < pair[1]));
    assert_eq!(merged.len(), 361);
}

#[test]
fn content_hash_changes_with_terrain() {
    let coordinate = TileCoordinate { lat: 0, lon: 0 };
    let a = TerrainMosaic::new(vec![Arc::new(HgtTile {
        coordinate,
        dimension: 1201,
        heights: vec![1; 1201 * 1201],
    })]);
    let b = TerrainMosaic::new(vec![Arc::new(HgtTile {
        coordinate,
        dimension: 1201,
        heights: vec![2; 1201 * 1201],
    })]);
    assert_ne!(a.content_hash(), b.content_hash());
    assert_eq!(a.content_hash(), a.content_hash());
}

#[test]
fn content_hash_reads_the_tiles_in_order() {
    let small = |lat: i16, height: i16| {
        Arc::new(HgtTile {
            coordinate: TileCoordinate { lat, lon: -3 },
            dimension: 2,
            heights: vec![height; 4],
        })
    };
    let mosaic = TerrainMosaic::new(vec![small(7, 5), small(-1, 9), small(7, -2)]);
    let mut expected = blake3::Hasher::new();
    expected.update(&2u16.to_le_bytes());
    for (lat, height) in [(-1i16, 9i16), (7, -2)] {
        expected.update(&lat.to_le_bytes());
        expected.update(&(-3i16).to_le_bytes());
        expected.update(&2u64.to_le_bytes());
        for _ in 0..4 {
            expected.update(&height.to_le_bytes());
        }
    }
    assert_eq!(mosaic.content_hash(), expected.finalize().to_hex().to_string());
    let reordered = TerrainMosaic::new(vec![small(-1, 9), small(7, 5), small(7, -2)]);
    assert_eq!(mosaic.content_hash(), reordered.content_hash());
}

#[test]
fn bathymetry_is_clamped_to_water_surface() {
    let coordinate = TileCoordinate { lat: 0, lon: 0 };
    let mut heights = vec![10; 1201 * 1201];
    heights[600 * 1201 + 600] = -1763;
    let mosaic = TerrainMosaic::new(vec![Arc::new(HgtTile {
        coordinate,
        dimension: 1201,
        heights,
    })]);
    assert_eq!(sample(&mosaic, 0.5, 0.5).unwrap(), Some(0));
}

#[test]
fn later_tiles_replace_earlier_ones() {
    let mosaic = TerrainMosaic::new(vec![tile(1, 1, 5), tile(0, 3, 7), tile(1, 1, 6)]);
    assert_eq!(mosaic.len(), 2);
    assert!(!mosaic.is_empty());
    assert!(TerrainMosaic::new(vec![]).is_empty());
    assert_eq!(sample(&mosaic, 1.5, 1.5).unwrap(), Some(6));
    assert_eq!(sample(&mosaic, 0.5, 3.5).unwrap(), Some(7));
    assert!(matches!(
        sample(&mosaic, 1.5, 3.5),
        Err(TerrainError::Missing(TileCoordinate { lat: 1, lon: 3 }))
    ));
    assert!(matches!(sample(&mosaic, 91.0, 0.0), Err(TerrainError::Coordinates)));
}

#[test]
fn pole_and_antimeridian_belong_to_the_last_tile() {
    let at = |lat: f64, lon: f64| tile_of(bits(lat), bits(lon)).unwrap();
    assert_eq!(at(90.0, 180.0), TileCoordinate { lat: 89, lon: 179 });
    assert_eq!(at(-90.0, -180.0), TileCoordinate { lat: -90, lon: -180 });
    assert_eq!(at(-0.5, -0.25), TileCoordinate { lat: -1, lon: -1 });
    assert_eq!(at(0.0, 179.999), TileCoordinate { lat: 0, lon: 179 });
    assert!(check_latitude(bits(90.0)) && !check_latitude(bits(90.00001)));
    assert!(check_longitude(bits(-180.0)) && !check_longitude(bits(f64::NAN)));
}

#[test]
fn tiles_are_decoded_from_big_endian_samples() {
    let coordinate = TileCoordinate { lat: 3, lon: 4 };
    let mut bytes = vec![0u8; 1201 * 1201 * 2];
    bytes[2..4].copy_from_slice(&300i16.to_be_bytes());
    bytes[4..6].copy_from_slice(&(-7i16).to_be_bytes());
    bytes[6..8].copy_from_slice(&i16::MIN.to_be_bytes());
    let tile = HgtTile::decode(coordinate, &bytes).unwrap();
    assert_eq!(tile.dimension, 1201);
    assert_eq!(tile.sample(0, 1), Some(300));
    assert_eq!(tile.sample(0, 2), Some(-7));
    assert_eq!(tile.sample(0, 3), None);
    assert_eq!(tile.sample(1201, 0), None);
    assert_eq!(tile.sample(usize::MAX, 2), None);
    assert!(matches!(
        HgtTile::decode(coordinate, &bytes[1..]),
        Err(TerrainError::InvalidLength)
    ));
    assert!(matches!(HgtTile::decode(coordinate, &bytes[2..]), Err(TerrainError::Dimension)));
    assert!(matches!(HgtTile::decode(coordinate, &[]), Err(TerrainError::Dimension)));
}

#[test]
fn compressed_tiles_are_unpacked() {
    let coordinate = TileCoordinate { lat: 3, lon: 4 };
    let mut encoder = GzEncoder::new(Vec::new(), Compression::fast());
    let bytes: Vec<u8> = (0..1201 * 1201).flat_map(|i| ((i % 911) as i16).to_be_bytes()).collect();
    encoder.write_all(&bytes).unwrap();
    let compressed = encoder.finish().unwrap();
    let tile = HgtTile::decode_gzip(coordinate, &compressed).unwrap();
    assert_eq!(tile.sample(2, 5), Some(((2 * 1201 + 5) % 911) as i16));
    assert_eq!(tile.coordinate, coordinate);
    let half = &compressed[..compressed.len() / 2];
    assert!(matches!(HgtTile::decode_gzip(coordinate, half), Err(TerrainError::Io(_))));
    let mut encoder = GzEncoder::new(Vec::new(), Compression::fast());
    encoder.write_all(&[1, 2, 3]).unwrap();
    let odd = encoder.finish().unwrap();
    assert!(matches!(
        HgtTile::decode_gzip(coordinate, &odd),
        Err(TerrainError::InvalidLength)
    ));
}

#[test]
fn terrain_errors_have_texts() {
    let texts = [
        (TerrainError::InvalidLength, "invalid HGT byte length"),
        (TerrainError::Dimension, "unsupported HGT dimension"),
        (TerrainError::Io("gone".to_owned()), "I/O: gone"),
        (
            TerrainError::Missing(TileCoordinate { lat: -4, lon: 120 }),
            "missing terrain tile TileCoordinate { lat: -4, lon: 120 }",
        ),
        (TerrainError::Network("slow".to_owned()), "network: slow"),
        (TerrainError::TooLarge, "download exceeded configured size"),
        (TerrainError::Coordinates, "invalid geographic coordinates or range"),
        (TerrainError::Projection, "projection failed"),
    ];
    for (error, text) in texts {
        assert_eq!(error.message(), text);
    }
}

#[test]
fn names_are_canonical() {
    assert_eq!(tile_name(TileCoordinate { lat: 7, lon: -12 }), "N07W012");
    assert_eq!(tile_name(TileCoordinate { lat: -1, lon: 2 }), "S01E002")
}

#[test]
fn rejects_zero_concurrency() {
    let config = SrtmCacheConfig { max_concurrent_downloads: 0, ..Default::default() };
    assert!(config.check().is_err());
    assert_eq!(
        config.check().unwrap_err().message(),
        "network: download concurrency must be positive"
    );
    assert!(SrtmCacheConfig::default().check().is_ok());
}

#[test]
fn tile_files_have_fixed_places() {
    let c = TileCoordinate { lat: -33, lon: 151 };
    assert_eq!(tile_file_name(c), "S33E151.hgt.gz");
    assert_eq!(
        tile_url(c),
        "https://s3.amazonaws.com/elevation-tiles-prod/skadi/S33/S33E151.hgt.gz"
    );
}

#[test]
fn retries_wait_twice_as_long_each_time() {
    let config = SrtmCacheConfig { retries: 3, ..Default::default() };
    for (attempt, wait) in [(0u8, 100u64), (1, 200), (2, 400)] {
        let next = after_failure(&config, attempt, "HTTP 503".to_owned());
        assert!(matches!(next, Retry::After(ms) if ms == wait));
    }
    let patient = SrtmCacheConfig { retries: 255, ..Default::default() };
    for (attempt, wait) in [(57u8, 100u64 << 57), (58, u64::MAX), (254, u64::MAX)] {
        let next = after_failure(&patient, attempt, "HTTP 503".to_owned());
        assert!(matches!(next, Retry::After(ms) if ms == wait));
    }
    assert!(matches!(TileDownload::new(&patient).step(), DownloadStep::Request));
    match after_failure(&config, 3, "HTTP 503".to_owned()) {
        Retry::GiveUp(error) => assert_eq!(error.message(), "network: HTTP 503"),
        Retry::After(_) => panic!("one attempt too many"),
    }
}

#[test]
fn downloads_are_tried_again() {
    let config = SrtmCacheConfig { retries: 1, max_download_bytes: 4, ..Default::default() };
    let mut download = TileDownload::new(&config);
    download.take_failure("HTTP 500".to_owned());
    assert!(matches!(download.step(), DownloadStep::Wait(100)));
    download.take_wait();
    assert!(matches!(download.step(), DownloadStep::Request));
    download.take_success(Some(4));
    assert!(matches!(download.step(), DownloadStep::Body));
    download.take_body(Ok(&[1, 2, 3, 4]));
    assert!(matches!(download.into_step(), DownloadStep::Complete));
    let mut download = TileDownload::new(&config);
    download.take_failure("HTTP 500".to_owned());
    download.take_wait();
    download.take_failure("HTTP 502".to_owned());
    match download.into_step() {
        DownloadStep::Failed(error) => assert_eq!(error.message(), "network: HTTP 502"),
        _ => panic!("one request too many"),
    }
    let mut download = TileDownload::new(&config);
    download.take_success(Some(5));
    assert!(matches!(download.step(), DownloadStep::Failed(TerrainError::TooLarge)));
    let mut download = TileDownload::new(&config);
    download.take_success(None);
    download.take_body(Ok(&[0; 5]));
    assert!(matches!(download.step(), DownloadStep::Failed(TerrainError::TooLarge)));
    let mut download = TileDownload::new(&config);
    download.take_success(None);
    download.take_body(Err("cut off".to_owned()));
    assert!(matches!(download.step(), DownloadStep::Failed(TerrainError::Network(_))));
}

#[test]
fn downloads_are_limited() {
    let config = SrtmCacheConfig { max_download_bytes: 4, ..Default::default() };
    assert!(config.check_file(4).is_ok());
    assert!(matches!(config.check_file(5), Err(TerrainError::TooLarge)));
    assert!(check_announced(&config, None).is_ok());
    assert!(check_announced(&config, Some(4)).is_ok());
    assert!(matches!(check_announced(&config, Some(5)), Err(TerrainError::TooLarge)));
    assert!(check_body(&config, &[0; 4]).is_ok());
    assert!(matches!(check_body(&config, &[0; 5]), Err(TerrainError::TooLarge)));
}

/// An azimuthal equidistant projection round a centre.
struct LocalProjection {
    lat0: f64,
    lon0: f64,
}

impl LocalProjection {
    fn new(lat: f64, lon: f64) -> Self {
        LocalProjection { lat0: lat.to_radians(), lon0: lon.to_radians() }
    }

    fn inverse(&self, x: f64, y: f64) -> (f64, f64) {
        let rho = x.hypot(y);
        if rho < 1e-9 {
            return (self.lat0.to_degrees(), self.lon0.to_degrees());
        }
        let c = rho / EARTH_RADIUS_M;
        let lat = (c.cos() * self.lat0.sin() + y * c.sin() * self.lat0.cos() / rho).asin();
        let lon = self.lon0
            + (x * c.sin()).atan2(rho * self.lat0.cos() * c.cos() - y * self.lat0.sin() * c.sin());
        (lat.to_degrees(), (lon.to_degrees() + 180.).rem_euclid(360.) - 180.)
    }
}

fn point(mosaic: &TerrainMosaic, projection: &LocalProjection, x: f64, y: f64) -> RasterPoint {
    let (lat, lon) = projection.inverse(x, y);
    let (row, col) = place(mosaic, lat, lon);
    RasterPoint::At { latitude: bits(lat), longitude: bits(lon), row, col }
}

#[test]
fn raster_keeps_outside_nodata() {
    let m = TerrainMosaic::new(vec![tile(45, 2, 123)]);
    let p = LocalProjection::new(45.5, 2.5);
    let (range, resolution) = (100f64, 90f64);
    let radius = (range / resolution).ceil() as usize;
    let mut points = Vec::new();
    for row in 0..2 * radius + 1 {
        let y = (radius as isize - row as isize) as f64 * resolution;
        for col in 0..2 * radius + 1 {
            let x = (col as isize - radius as isize) as f64 * resolution;
            points.push(if within_range(bits(x * x + y * y), bits(range * range)) {
                point(&m, &p, x, y)
            } else {
                RasterPoint::Outside
            });
        }
    }
    let origin = bits(-(radius as f64) * resolution);
    let g = MetricRaster::from_mosaic(
        &m,
        "+proj=aeqd".to_owned(),
        bits(range),
        bits(resolution),
        radius,
        [origin, origin],
        &points,
    )
    .unwrap();
    assert_eq!((g.width, g.height), (5, 5));
    assert_eq!(g.elevations_m[12].map(f32::from), Some(123.));
    assert_eq!(g.elevations_m[0], None);
    assert_eq!(value(g.origin_m[1]), -180.0);
    assert_eq!(g.projection, "+proj=aeqd");
}

#[test]
fn bounded_raster_does_not_sample_outside_coverage_disks() {
    let mosaic = TerrainMosaic::new(vec![tile(45, 2, 321)]);
    let projection = LocalProjection::new(45.5, 2.5);
    let bounds = [-200_000.0f64, -200_000.0, 200_000.0, 200_000.0];
    let disk = [0.0f64, 0.0, 1.0];
    let resolution = 200_000.0f64;
    let columns = ((bounds[2] - bounds[0]) / resolution).ceil() as usize;
    let rows = ((bounds[3] - bounds[1]) / resolution).ceil() as usize;
    let mut points = Vec::new();
    for row in 0..=rows {
        let y = bounds[3] - row as f64 * resolution;
        for col in 0..=columns {
            let x = bounds[0] + col as f64 * resolution;
            let (dx, dy) = (x - disk[0], y - disk[1]);
            points.push(
                if within_disks(&[bits(dx * dx + dy * dy)], &[bits(disk[2] * disk[2])]) {
                    point(&mosaic, &projection, x, y)
                } else {
                    RasterPoint::Outside
                },
            );
        }
    }
    let raster = MetricRaster::from_bounds(
        &mosaic,
        "+proj=aeqd".to_owned(),
        bounds.map(bits),
        &[disk.map(bits)],
        bits(resolution),
        columns,
        rows,
        9,
        &points,
    )
    .unwrap();
    assert_eq!(raster.elevations_m[raster.width + 1].map(f32::from), Some(321.0));
    assert_eq!(raster.elevations_m[0], None);
    assert_eq!(raster.elevations_m[raster.elevations_m.len() - 1], None);
}

#[test]
fn rasters_report_the_first_failure() {
    let mosaic = TerrainMosaic::new(vec![tile(45, 2, 321)]);
    let missing =
        RasterPoint::At { latitude: bits(10.0), longitude: bits(20.0), row: 0, col: 0 };
    let raster = |points: &[RasterPoint]| {
        MetricRaster::from_bounds(
            &mosaic,
            String::new(),
            [0.0, 0.0, 1.0, 1.0].map(bits),
            &[[0.0, 0.0, 1.0].map(bits)],
            bits(1.0),
            1,
            1,
            4,
            points,
        )
    };
    let outside = RasterPoint::Outside;
    assert!(matches!(
        raster(&[outside, missing, RasterPoint::Lost, outside]),
        Err(TerrainError::Missing(TileCoordinate { lat: 10, lon: 20 }))
    ));
    assert!(matches!(
        raster(&[outside, RasterPoint::Lost, missing, outside]),
        Err(TerrainError::Projection)
    ));
    assert_eq!(raster(&[outside; 4]).unwrap().elevations_m, vec![None; 4]);
}

#[test]
fn raster_sizes_are_checked() {
    let size = square_size(bits(100.0), bits(90.0), 2).unwrap();
    assert_eq!((size.width, size.height, size.cells), (5, 5, 25));
    assert!(square_size(bits(-1.0), bits(90.0), 2).is_err());
    assert!(square_size(bits(1.0), bits(0.0), 2).is_err());
    assert!(square_size(bits(1.0), bits(1.0), usize::MAX / 2).is_err());
    let bounds = [0.0, 0.0, 10.0, 20.0].map(bits);
    let disk = [1.0, 1.0, 5.0].map(bits);
    let sized = |b: [Binary64; 4], disks: &[[Binary64; 3]], resolution: f64, max: usize| {
        bounded_size(b, disks, bits(resolution), 10, 20, max)
    };
    assert_eq!(sized(bounds, &[disk], 1.0, 231).unwrap().cells, 231);
    assert!(sized(bounds, &[disk], 1.0, 230).is_err());
    assert!(sized(bounds, &[], 1.0, 231).is_err());
    assert!(sized(bounds, &[disk], 0.0, 231).is_err());
    assert!(sized(bounds, &[disk, [0.0, 0.0, -1.0].map(bits)], 1.0, 231).is_err());
    assert!(sized(bounds, &[[f64::NAN, 0.0, 1.0].map(bits)], 1.0, 231).is_err());
    assert!(sized([5.0, 0.0, 4.0, 1.0].map(bits), &[disk], 1.0, 231).is_err());
    assert!(sized([0.0, 5.0, 4.0, 1.0].map(bits), &[disk], 1.0, 231).is_err());
}

fn angular_table(max_offset: usize, bins: usize) -> AngularTable {
    let samples = table_steps(max_offset);
    let ratios: Vec<f64> = (0..=samples).map(|i| i as f64 / samples as f64).collect();
    let angles = ratios.iter().map(|r| bits(r.atan())).collect();
    let h = 1.0 / samples as f64;
    let guard = 0.082 * h * h + 16.0 * f64::EPSILON;
    AngularTable::new(bins, ratios.into_iter().map(bits).collect(), angles, bits(guard))
}

fn exact_sector(dx: i32, dy: i32, bins: usize) -> usize {
    let angle = (dy as f64).atan2(dx as f64).rem_euclid(TAU);
    (angle * bins as f64 / TAU).floor() as usize % bins
}

fn sector(table: &AngularTable, dx: i32, dy: i32) -> usize {
    let Some(direction) = fold(dx, dy) else {
        return table.sector(dx, dy, bits(0.0), 0, 0);
    };
    let ratio = direction.small as f64 / direction.large as f64;
    let pos = ratio * table.steps() as f64;
    let (step, low, high) = table.step_at(pos.floor() as usize);
    let fraction = pos - step as f64;
    let base = value(low) + fraction * (value(high) - value(low));
    let first = if direction.steep { FRAC_PI_4 * 2.0 - base } else { base };
    let angle = match direction.quadrant {
        Quadrant::First => first,
        Quadrant::Second => PI - first,
        Quadrant::Third => PI + first,
        Quadrant::Fourth => TAU - first,
    } % TAU;
    let bins = table.bins();
    let scaled = angle * bins as f64 / TAU;
    let distance = (scaled - scaled.round()).abs() * TAU / bins as f64;
    table.sector(dx, dy, bits(distance), scaled.floor() as usize, exact_sector(dx, dy, bins))
}

#[test]
fn matches_exact_across_axes_quadrants_and_boundaries() {
    for bins in [1, 4, 17, 360, 27_928] {
        let table = angular_table(4_445, bins);
        for y in -200..=200 {
            for x in -200..=200 {
                if x != 0 || y != 0 {
                    assert_eq!(
                        sector(&table, x, y),
                        exact_sector(x, y, bins),
                        "{x},{y}, bins={bins}"
                    );
                }
            }
        }
    }
}

#[test]
fn directions_are_folded_into_the_first_octant() {
    assert_eq!(fold(0, 0), None);
    let d = fold(-3, 7).unwrap();
    assert_eq!((d.small, d.large, d.steep, d.quadrant), (3, 7, true, Quadrant::Second));
    let d = fold(i32::MIN, -1).unwrap();
    assert_eq!((d.small, d.large, d.steep), (1, 1 << 31, false));
    assert_eq!(d.quadrant, Quadrant::Third);
    assert_eq!(fold(5, -5).unwrap().quadrant, Quadrant::Fourth);
    assert!(!fold(5, -5).unwrap().steep);
    assert_eq!(sector(&angular_table(10, 360), 0, 0), 0);
    assert_eq!(table_steps(0), 1);
}

fn ray_count(range_m: f64, cell_size_m: f64) -> usize {
    let transverse: Vec<Binary64> = (0..MAX_BISECTIONS as i32)
        .map(|k| bits(range_m * (TAU / (8.0 * 2f64.powi(k)))))
        .collect();
    dynamic_ray_count(bits(range_m), bits(cell_size_m), &transverse, bits(cell_size_m * 0.5))
}

#[test]
fn dynamic_rays_scale_with_range_over_resolution() {
    assert_eq!(ray_count(0.0, 30.0), 8);
    let coarse = ray_count(100_000.0, 90.0);
    let fine = ray_count(100_000.0, 30.0);
    assert!(fine > coarse * 2);
    assert_eq!(fine, 65_536);
    assert!(100_000.0 * TAU / fine as f64 <= 15.0);
    assert!(100_000.0 * TAU / (fine / 2) as f64 > 15.0);
}

#[test]
fn ray_counts_are_bounded() {
    assert_eq!(ray_count(100.0, 0.0), 8);
    assert_eq!(ray_count(-1.0, 30.0), 8);
    assert_eq!(ray_count(f64::INFINITY, 30.0), usize::MAX);
}
