use h3o::{CellIndex, LatLng, Resolution};
use radial::float::Binary64;
use radial::h3::{
    candidate_roots, cell_raster_bbox, cell_resolution, cell_text, disk_radius, extract_h3_records,
    has_visible, last_value, leaf_floor, parse_local_projection, plan_export, projected_bounds,
    projection_centre, search_box, sort_cells, traverse_h3_node, H3ExportConfig, H3ExportError,
    H3ExportStats, H3Record, LeafSample, RasterBBox, RawBox,
};
use radial::storage::{Metadata, NO_DATA};
use radial::traversal::H3Traversal;
use std::f64::consts::{PI, TAU};

const EARTH_RADIUS_M: f64 = 6_371_000.0;

fn bits(value: f64) -> Binary64 {
    Binary64::from_bits(value.to_bits())
}

fn value(bits: Binary64) -> f64 {
    f64::from_bits(bits.to_bits())
}

/// An azimuthal equidistant projection round a centre.
struct LocalProjection {
    lat0: f64,
    lon0: f64,
}

impl LocalProjection {
    fn parse(crs: &str) -> Result<Self, H3ExportError> {
        let (lat, lon) = projection_centre(crs);
        let number = |text: Option<String>| text.and_then(|t| t.parse::<f64>().ok()).map(bits);
        let (lat, lon) = parse_local_projection(crs, number(lat), number(lon))?;
        Ok(LocalProjection { lat0: value(lat).to_radians(), lon0: value(lon).to_radians() })
    }

    fn forward(&self, lat: f64, lon: f64) -> (f64, f64) {
        let lat = lat.to_radians();
        let d = (lon.to_radians() - self.lon0 + PI).rem_euclid(TAU) - PI;
        let c = (self.lat0.sin() * lat.sin() + self.lat0.cos() * lat.cos() * d.cos())
            .clamp(-1., 1.)
            .acos();
        if c.abs() < 1e-14 {
            return (0., 0.);
        }
        let k = EARTH_RADIUS_M * c / c.sin();
        (
            k * lat.cos() * d.sin(),
            k * (self.lat0.cos() * lat.sin() - self.lat0.sin() * lat.cos() * d.cos()),
        )
    }

    fn inverse(&self, x: f64, y: f64) -> (f64, f64) {
        let rho = x.hypot(y);
        if rho < 1e-9 {
            return (self.lat0.to_degrees(), self.lon0.to_degrees());
        }
        let c = rho / EARTH_RADIUS_M;
        let lat = (c.cos() * self.lat0.sin() + y * c.sin() * self.lat0.cos() / rho).asin();
        let lon = self.lon0
            + (x * c.sin()).atan2(rho * self.lat0.cos() * c.cos() - y * self.lat0.sin() * c.sin());
        (lat.to_degrees(), (lon.to_degrees() + 180.).rem_euclid(360.) - 180.)
    }
}

fn raster_box(
    m: &Metadata,
    projection: &LocalProjection,
    target: u8,
    cell: u64,
) -> Option<RasterBBox> {
    let boundary = CellIndex::try_from(cell).unwrap().boundary();
    let points: Vec<(Binary64, Binary64)> = boundary
        .iter()
        .map(|pt| projection.forward(pt.lat(), pt.lng()))
        .map(|(x, y)| (bits(x), bits(y)))
        .collect();
    let bounds = projected_bounds(&points)?;
    let (res, extent) = (value(m.resolution_m), m.extent.map(value));
    let raw = RawBox {
        col_min: ((value(bounds.min_x) - extent[0]) / res).floor() as i64,
        col_max: ((value(bounds.max_x) - extent[0]) / res).ceil() as i64,
        row_min: ((extent[3] - value(bounds.max_y)) / res).floor() as i64,
        row_max: ((extent[3] - value(bounds.min_y)) / res).ceil() as i64,
    };
    search_box(cell, target, Some(raw), m.width, m.height)
}

fn leaf(m: &Metadata, projection: &LocalProjection, cell: u64, bbox: RasterBBox) -> LeafSample {
    let index = CellIndex::try_from(cell).unwrap();
    let (res, extent) = (value(m.resolution_m), m.extent.map(value));
    let mut inside = Vec::new();
    for r in bbox.row_min..=bbox.row_max {
        let y = extent[3] - (r as f64 + 0.5) * res;
        for c in bbox.col_min..=bbox.col_max {
            let x = extent[0] + (c as f64 + 0.5) * res;
            let (lat, lon) = projection.inverse(x, y);
            let place = LatLng::new(lat, lon).unwrap();
            inside.push(place.to_cell(index.resolution()) == index);
        }
    }
    let center = LatLng::from(index);
    let (cx, cy) = projection.forward(center.lat(), center.lng());
    LeafSample {
        bbox,
        inside,
        center: Some((
            ((extent[3] - cy) / res).floor() as i64,
            ((cx - extent[0]) / res).floor() as i64,
        )),
        outline: index.boundary().iter().map(|pt| [bits(pt.lng()), bits(pt.lat())]).collect(),
    }
}

type Export = (Vec<H3Record>, H3ExportStats);

fn export(m: &Metadata, heights: &[u16], config: &H3ExportConfig) -> Result<Export, H3ExportError> {
    let (start, target) = plan_export(m, heights.len(), config)?;
    let projection = LocalProjection::parse(&m.crs)?;
    let extent = m.extent.map(value);
    let (lat, lon) =
        projection.inverse((extent[0] + extent[2]) / 2.0, (extent[1] + extent[3]) / 2.0);
    let center = LatLng::new(lat, lon).unwrap().to_cell(Resolution::try_from(start).unwrap());
    let edges = [1_107_712.0, 418_676.0, 158_244.0, 59_810.0, 22_606.0, 8_544.0, 3_229.0, 1_220.0];
    let reach = ((extent[2] - extent[0]).abs() / 2.0).hypot((extent[3] - extent[1]).abs() / 2.0);
    let between = edges[start as usize] * 3.0f64.sqrt();
    let k = disk_radius((reach / (between * 0.9)).ceil() as u32);
    let roots = candidate_roots(u64::from(center), k).unwrap();
    let mut descent = H3Traversal::new(m, heights, target, roots);
    while !descent.pending().is_empty() {
        let boxes: Vec<Option<RasterBBox>> =
            descent.pending().iter().map(|cell| raster_box(m, &projection, target, *cell)).collect();
        descent.advance(&boxes);
    }
    let (leaves, mut total) = descent.finish();
    let samples: Vec<LeafSample> = leaves
        .iter()
        .map(|cell| leaf(m, &projection, *cell, raster_box(m, &projection, target, *cell).unwrap()))
        .collect();
    let (records, stats) = extract_h3_records(m, heights, config, &leaves, &samples);
    total.merge(&stats);
    Ok((records, total))
}

fn create_test_metadata(width: u32, height: u32, resolution_m: f64, range_m: f64) -> Metadata {
    let half_w = (width as f64 * resolution_m) / 2.0;
    let half_h = (height as f64 * resolution_m) / 2.0;
    Metadata {
        radar_id: "test-radar-1".to_string(),
        los_algorithm_version: 3,
        radar_config_hash: "hash123".to_string(),
        terrain_hash: "terrain123".to_string(),
        calculated_at: "2026-09-08T08:00:00Z".to_string(),
        crs: "+proj=aeqd +lat_0=43.5 +lon_0=6.5 +R=6371000 +units=m".to_string(),
        origin: [-half_w, -half_h].map(bits),
        resolution_m: bits(resolution_m),
        extent: [-half_w, -half_h, half_w, half_h].map(bits),
        width,
        height,
        range_m: bits(range_m),
        effective_earth_k: bits(1.3333333333333333),
        nodata: NO_DATA,
    }
}

#[test]
fn test_parse_local_projection() {
    let crs = "+proj=aeqd +lat_0=43.5415275 +lon_0=6.554722 +R=6371000 +units=m";
    let proj = LocalProjection::parse(crs).unwrap();
    let (x, y) = proj.forward(43.5415275, 6.554722);
    assert!(x.abs() < 1e-6);
    assert!(y.abs() < 1e-6);
}

#[test]
fn test_nodata_raster_prunes_completely() {
    let meta = create_test_metadata(50, 50, 100.0, 2500.0);
    let heights = vec![NO_DATA; 50 * 50];
    let config = H3ExportConfig::default();

    let (records, stats) = export(&meta, &heights, &config).unwrap();
    assert_eq!(records.len(), 0);
    assert_eq!(stats.exported_cells, 0);
    assert!(stats.pruned_coarse_cells > 0);
}

#[test]
fn test_single_visible_pixel_exports_cell() {
    let width = 50;
    let height = 50;
    let meta = create_test_metadata(width, height, 100.0, 2500.0);
    let mut heights = vec![NO_DATA; (width * height) as usize];

    // Put a visible pixel at the radar center (row = 25, col = 25)
    let center_idx = (25 * width + 25) as usize;
    heights[center_idx] = 175; // 175 meters AGL

    let config = H3ExportConfig {
        target_resolution: 7,
        start_resolution: 5,
        altitude_bucket_m: Some(100),
        include_boundary: true,
    };

    let (records, stats) = export(&meta, &heights, &config).unwrap();
    assert_eq!(records.len(), 1);
    assert_eq!(stats.exported_cells, 1);
    assert_eq!(records[0].min_floor_m, 175);
    assert_eq!(records[0].altitude_bucket_m, Some(100)); // 175 / 100 * 100 = 100

    let boundary = records[0].boundary.as_ref().unwrap();
    assert_eq!(boundary.len(), 7); // Closed polygon: 6 vertices + first point repeated
    assert_eq!(boundary[0], boundary[6]); // Closed loop
    for pt in boundary {
        let lon = value(pt[0]);
        let lat = value(pt[1]);
        assert!((lat - 43.5).abs() < 0.1);
        assert!((lon - 6.5).abs() < 0.1);
    }
}

#[test]
fn test_lowest_altitude_wins() {
    let width = 60;
    let height = 60;
    let meta = create_test_metadata(width, height, 50.0, 1500.0);
    let mut heights = vec![NO_DATA; (width * height) as usize];

    // Put multiple pixels with different heights near center
    heights[(30 * width + 30) as usize] = 350;
    heights[(30 * width + 31) as usize] = 120; // lowest
    heights[(31 * width + 30) as usize] = 200;

    let config = H3ExportConfig {
        target_resolution: 7,
        start_resolution: 6,
        altitude_bucket_m: Some(50),
        include_boundary: false,
    };

    let (records, stats) = export(&meta, &heights, &config).unwrap();
    assert_eq!(records.len(), 1);
    assert_eq!(records[0].min_floor_m, 120);
    assert_eq!(records[0].altitude_bucket_m, Some(100)); // 120 / 50 * 50 = 100
    assert!(records[0].boundary.is_none());
    assert_eq!(stats.min_altitude_m, Some(120));
    assert_eq!(stats.max_altitude_m, Some(120));
}

/// One line of JSON for each record.
fn json_lines(records: &[H3Record]) -> Vec<u8> {
    let mut lines = Vec::new();
    for record in records {
        let mut map = serde_json::Map::new();
        map.insert("h3".to_owned(), serde_json::Value::from(record.h3.clone()));
        map.insert("res".to_owned(), serde_json::Value::from(record.res));
        map.insert("min_floor_m".to_owned(), serde_json::Value::from(record.min_floor_m));
        lines.extend(serde_json::to_vec(&serde_json::Value::Object(map)).unwrap());
        lines.push(b'\n');
    }
    lines
}

#[test]
fn test_jsonl_streaming_and_determinism() {
    let width = 40;
    let height = 40;
    let meta = create_test_metadata(width, height, 100.0, 2000.0);
    let mut heights = vec![NO_DATA; (width * height) as usize];

    heights[(20 * width + 20) as usize] = 80;
    heights[(25 * width + 25) as usize] = 140;

    let config = H3ExportConfig::default();

    let (records1, stats1) = export(&meta, &heights, &config).unwrap();
    let buf1 = json_lines(&records1);
    let (records2, stats2) = export(&meta, &heights, &config).unwrap();
    let buf2 = json_lines(&records2);

    assert_eq!(stats1, stats2);
    assert_eq!(buf1, buf2); // Deterministic output

    let text = String::from_utf8(buf1).unwrap();
    let lines: Vec<&str> = text.lines().collect();
    assert!(!lines.is_empty());

    for line in lines {
        let parsed: serde_json::Value = serde_json::from_str(line).unwrap();
        assert_eq!(parsed["res"].as_u64(), Some(7));
        assert!(parsed["min_floor_m"].as_u64().unwrap() > 0);
    }
}

#[test]
fn test_configurable_resolution_8_and_9() {
    let width = 50;
    let height = 50;
    let meta = create_test_metadata(width, height, 50.0, 1500.0);
    let mut heights = vec![NO_DATA; (width * height) as usize];
    heights[(25 * width + 25) as usize] = 95;

    // Test Res 8
    let config_res8 = H3ExportConfig {
        target_resolution: 8,
        start_resolution: 6,
        altitude_bucket_m: None,
        include_boundary: true,
    };
    let (records_8, _) = export(&meta, &heights, &config_res8).unwrap();
    assert_eq!(records_8.len(), 1);
    assert_eq!(records_8[0].res, 8);

    // Test Res 9
    let config_res9 = H3ExportConfig {
        target_resolution: 9,
        start_resolution: 7,
        altitude_bucket_m: None,
        include_boundary: true,
    };
    let (records_9, _) = export(&meta, &heights, &config_res9).unwrap();
    assert_eq!(records_9.len(), 1);
    assert_eq!(records_9[0].res, 9);
}

#[test]
fn exported_cells_are_sorted_by_their_text() {
    let meta = create_test_metadata(80, 80, 100.0, 4000.0);
    let heights: Vec<u16> = (0..80 * 80).map(|i| (i % 700) as u16).collect();
    let (records, stats) = export(&meta, &heights, &H3ExportConfig::default()).unwrap();
    assert!(records.len() > 5);
    assert!(records.windows(2).all(|pair| pair[0].h3 < pair[1].h3));
    assert_eq!(stats.exported_cells, records.len());
    assert_eq!(stats.min_altitude_m, records.iter().map(|r| r.min_floor_m).min());
    assert_eq!(stats.max_altitude_m, records.iter().map(|r| r.min_floor_m).max());
    for record in &records {
        assert_eq!(record.h3.len(), 15);
        let cell: CellIndex = record.h3.parse().unwrap();
        assert_eq!(record.h3, cell.to_string());
    }
}

#[test]
fn plans_are_checked() {
    let meta = create_test_metadata(5, 4, 50.0, 1500.0);
    let config = |target: u8, start: u8| H3ExportConfig {
        target_resolution: target,
        start_resolution: start,
        ..H3ExportConfig::default()
    };
    assert!(matches!(plan_export(&meta, 20, &config(7, 5)), Ok((5, 7))));
    assert!(matches!(plan_export(&meta, 20, &config(3, 5)), Ok((3, 3))));
    let error = plan_export(&meta, 20, &config(16, 5)).unwrap_err();
    assert_eq!(error.message(), "invalid resolution 16: must be between 0 and 15");
    let error = plan_export(&meta, 19, &config(7, 5)).unwrap_err();
    assert_eq!(
        error.message(),
        "dimension overflow or mismatch: metadata has 20 cells, got 19"
    );
}

#[test]
fn last_words_of_a_projection_count() {
    assert_eq!(last_value("+a=1 +b=2  +a=3", "+a="), Some("3".to_owned()));
    assert_eq!(last_value("x+a=1", "+a="), None);
    assert_eq!(last_value("+a=", "+a="), Some(String::new()));
    assert_eq!(last_value("", "+a="), None);
    let crs = "+proj=aeqd +lat_0=nonsense";
    let error = LocalProjection::parse(crs).err().unwrap();
    assert_eq!(
        error.message(),
        "invalid CRS or projection: missing +lat_0 or +lon_0 in CRS: +proj=aeqd +lat_0=nonsense"
    );
}

#[test]
fn cells_have_children_and_neighbours() {
    let cell = LatLng::new(43.5, 6.5).unwrap().to_cell(Resolution::Five);
    let raw = u64::from(cell);
    assert_eq!(cell_resolution(raw), 5);
    assert_eq!(cell_text(raw), cell.to_string());
    let mut disk = candidate_roots(raw, 2).unwrap();
    let mut expected: Vec<u64> = cell.grid_disk_safe(2).map(u64::from).collect();
    assert_eq!(disk, expected);
    assert_eq!(disk.len(), 19);
    sort_cells(&mut disk);
    expected.sort();
    assert_eq!(disk, expected);
    assert_eq!(candidate_roots(17, 2), None);
    let meta = create_test_metadata(1, 1, 50.0, 1500.0);
    let bbox = Some(RasterBBox { col_min: 0, col_max: 0, row_min: 0, row_max: 0 });
    let frontier = traverse_h3_node(&meta, &[4], 6, &[raw, raw, raw], &[None, bbox, bbox]);
    let below: Vec<u64> = cell.children(Resolution::Six).map(u64::from).collect();
    assert_eq!(frontier.next, [below.clone(), below].concat());
    assert_eq!((frontier.leaves.len(), frontier.pruned), (0, 1));
    let frontier = traverse_h3_node(&meta, &[NO_DATA], 6, &[raw], &[bbox]);
    assert_eq!((frontier.next.len(), frontier.pruned), (0, 1));
    let frontier = traverse_h3_node(&meta, &[NO_DATA], 5, &[raw], &[bbox]);
    assert_eq!(frontier.leaves, vec![raw]);
    assert_eq!(disk_radius(u32::MAX), u32::MAX);
    assert_eq!(disk_radius(4), 7);
}

/// Children lie in their cell and are all different, in pentagons too.
#[test]
fn children_lie_in_their_cell() {
    let meta = create_test_metadata(1, 1, 50.0, 1500.0);
    let bbox = Some(RasterBBox { col_min: 0, col_max: 0, row_min: 0, row_max: 0 });
    for start in [0u64, 3, 14] {
        let resolution = Resolution::try_from(start as u8).unwrap();
        let cells: Vec<CellIndex> = [LatLng::new(43.5, 6.5).unwrap().to_cell(resolution)]
            .into_iter()
            .chain(resolution.pentagons())
            .collect();
        for cell in cells {
            let raw = u64::from(cell);
            let below = traverse_h3_node(&meta, &[4], 15, &[raw], &[bbox]).next;
            assert_eq!(below.len(), if cell.is_pentagon() { 6 } else { 7 });
            assert!(below.windows(2).all(|pair| pair[0] < pair[1]));
            for child in below {
                let child = CellIndex::try_from(child).unwrap();
                assert_eq!(child.parent(resolution), Some(cell));
            }
            let near = candidate_roots(raw, 1).unwrap();
            assert!(near.iter().all(|c| cell_resolution(*c) == start as u8));
        }
    }
}

/// The start resolution changes the statistics, not the records.
#[test]
fn start_resolution_leaves_the_records() {
    let meta = create_test_metadata(60, 60, 100.0, 3000.0);
    let heights: Vec<u16> = (0..3600).map(|i| (i % 640) as u16).collect();
    let run = |start: u8| {
        let config = H3ExportConfig { start_resolution: start, ..H3ExportConfig::default() };
        export(&meta, &heights, &config).unwrap()
    };
    let (records, _) = run(7);
    assert!(records.len() > 5);
    for start in [4, 5, 6] {
        assert_eq!(json_lines(&run(start).0), json_lines(&records));
    }
}

#[test]
fn descents_find_what_recursion_finds() {
    let meta = create_test_metadata(30, 30, 200.0, 3000.0);
    let heights: Vec<u16> =
        (0..900).map(|i| if i % 30 < 12 { (i % 50) as u16 } else { NO_DATA }).collect();
    let projection = LocalProjection::parse(&meta.crs).unwrap();
    let center = LatLng::new(43.5, 6.5).unwrap().to_cell(Resolution::Five);
    let roots = candidate_roots(u64::from(center), 1).unwrap();
    let (mut leaves, mut pruned) = (Vec::new(), 0);
    let mut stack: Vec<CellIndex> =
        roots.iter().map(|cell| CellIndex::try_from(*cell).unwrap()).collect();
    while let Some(cell) = stack.pop() {
        match raster_box(&meta, &projection, 8, u64::from(cell)) {
            None => pruned += 1,
            Some(_) if cell.resolution() == Resolution::Eight => leaves.push(u64::from(cell)),
            Some(bbox) => {
                if has_visible(&heights, 30, 30, bbox, NO_DATA) {
                    stack.extend(cell.children(cell.resolution().succ().unwrap()));
                } else {
                    pruned += 1;
                }
            }
        }
    }
    leaves.sort();
    assert!(leaves.len() > 10 && pruned > 10);
    let mut descent = H3Traversal::new(&meta, &heights, 8, roots.clone());
    while !descent.pending().is_empty() {
        let boxes: Vec<Option<RasterBBox>> = descent
            .pending()
            .iter()
            .map(|cell| raster_box(&meta, &projection, 8, *cell))
            .collect();
        descent.advance(&boxes);
    }
    let (found, stats) = descent.finish();
    assert_eq!(found, leaves);
    assert_eq!(stats.pruned_coarse_cells, pruned);
    assert_eq!(stats.total_candidate_roots, roots.len());
}

#[test]
fn boxes_are_cut_to_the_raster() {
    let raw = |a: i64, b: i64, c: i64, d: i64| RawBox { col_min: a, col_max: b, row_min: c, row_max: d };
    assert_eq!(
        cell_raster_bbox(raw(-5, 20, 2, 3), 10, 8),
        Some(RasterBBox { col_min: 0, col_max: 9, row_min: 2, row_max: 3 })
    );
    assert_eq!(cell_raster_bbox(raw(-5, -1, 2, 3), 10, 8), None);
    assert_eq!(cell_raster_bbox(raw(10, 11, 2, 3), 10, 8), None);
    assert_eq!(cell_raster_bbox(raw(0, 1, -9, -1), 10, 8), None);
    assert_eq!(cell_raster_bbox(raw(0, 1, 8, 9), 10, 8), None);
    // A coarse cell gets room for the cells below it, a leaf does not.
    let coarse = u64::from(LatLng::new(43.5, 6.5).unwrap().to_cell(Resolution::Five));
    let found = |target, r| search_box(coarse, target, Some(r), 100, 100);
    assert_eq!(found(5, raw(40, 60, 20, 28)), cell_raster_bbox(raw(40, 60, 20, 28), 100, 100));
    assert_eq!(
        found(6, raw(40, 60, 20, 28)),
        Some(RasterBBox { col_min: 34, col_max: 66, row_min: 17, row_max: 31 })
    );
    assert_eq!(found(6, raw(100, 104, 0, 4)).unwrap().col_min, 98);
    assert_eq!(found(5, raw(100, 104, 0, 4)), None);
    assert!(found(6, raw(i64::MIN, i64::MAX, i64::MIN, i64::MAX)).is_some());
    assert_eq!(search_box(coarse, 6, None, 100, 100), None);
    let bbox = RasterBBox { col_min: 1, col_max: 1, row_min: 0, row_max: 1 };
    assert!(has_visible(&[7, 7, 7, 9], 2, 2, bbox, 7));
    assert!(!has_visible(&[9, 7, 9, 7], 2, 2, bbox, 7));
    let points = [(3.0, -1.0), (-2.0, 5.0), (0.0, 0.0)].map(|(x, y)| (bits(x), bits(y)));
    let bounds = projected_bounds(&points).unwrap();
    assert_eq!((value(bounds.min_x), value(bounds.max_x)), (-2.0, 3.0));
    assert_eq!((value(bounds.min_y), value(bounds.max_y)), (-1.0, 5.0));
    assert_eq!(projected_bounds(&[]), None);
}

#[test]
fn small_cells_take_the_pixel_under_their_centre() {
    let meta = create_test_metadata(2, 2, 50.0, 1500.0);
    let heights = [10, 20, 30, NO_DATA];
    let sample = |inside: [bool; 4], center: Option<(i64, i64)>| LeafSample {
        bbox: RasterBBox { col_min: 0, col_max: 1, row_min: 0, row_max: 1 },
        inside: inside.to_vec(),
        center,
        outline: vec![],
    };
    let floor = |inside: [bool; 4], center: Option<(i64, i64)>| {
        leaf_floor(&meta, &heights, &sample(inside, center))
    };
    assert_eq!(floor([false, true, true, true], Some((0, 0))), 20);
    assert_eq!(floor([false; 4], Some((1, 0))), 30);
    assert_eq!(floor([false; 4], Some((1, 1))), NO_DATA);
    assert_eq!(floor([false; 4], Some((-1, 0))), NO_DATA);
    assert_eq!(floor([false; 4], Some((0, 2))), NO_DATA);
    assert_eq!(floor([false, false, false, true], None), NO_DATA);
}

#[test]
fn statistics_are_merged_in_any_order() {
    let part = |n: usize, low: Option<u16>, high: Option<u16>| H3ExportStats {
        total_candidate_roots: n,
        pruned_coarse_cells: 2 * n,
        visited_leaf_cells: 3 * n,
        exported_cells: 4 * n,
        min_altitude_m: low,
        max_altitude_m: high,
    };
    let (a, b) = (part(1, Some(5), Some(9)), part(10, Some(7), Some(20)));
    let mut left = a;
    left.merge(&b);
    let mut right = b;
    right.merge(&a);
    assert_eq!(left, right);
    assert_eq!(left, part(11, Some(5), Some(20)));
    let mut none = part(0, None, None);
    none.merge(&a);
    assert_eq!(none, a);
}
