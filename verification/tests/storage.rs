use radial::bytes::{push_le, read_le};
use radial::float::{Binary32, Binary64};
use radial::height_fusion::{
    decode_heights, merge_rhgt_counts_streaming, merge_rhgt_minimum_streaming, read_rhgt_file,
    CountFusion, StoredLayer,
};
use radial::storage::{
    find_by_config_hash, known_height, read, read_header, read_prefix, read_rdem_value,
    sample_offset, validate, write_atomic, write_rcov, write_rdem, write_rhgt, EnvelopeWriter,
    Metadata, PayloadCheck, StorageError, StoredHeader, BLOCK, CHECKSUM, NO_DATA, PREFIX,
    RCOV_MAGIC, RDEM_MAGIC, RHGT_MAGIC, VERSION,
};
use serde_json::{Number, Value};

fn bits(value: f64) -> Binary64 {
    Binary64::from_bits(value.to_bits())
}

fn meta(id: &str) -> Metadata {
    Metadata {
        radar_id: id.into(),
        los_algorithm_version: 1,
        radar_config_hash: format!("hash-{id}"),
        terrain_hash: "terrain".into(),
        calculated_at: "2026-09-06T00:00:00Z".into(),
        crs: "EPSG:3857".into(),
        origin: [0., 0.].map(bits),
        resolution_m: bits(90.),
        extent: [0., 0., 180., 180.].map(bits),
        width: 2,
        height: 2,
        range_m: bits(400_000.),
        effective_earth_k: bits(4. / 3.),
        nodata: NO_DATA,
    }
}

fn float(value: Binary64) -> Value {
    Value::Number(Number::from_f64(f64::from_bits(value.to_bits())).unwrap())
}

fn encode(m: &Metadata) -> Vec<u8> {
    let mut map = serde_json::Map::new();
    let mut put = |key: &str, value: Value| {
        map.insert(key.to_owned(), value);
    };
    put("radar_id", Value::from(m.radar_id.clone()));
    put("los_algorithm_version", Value::from(m.los_algorithm_version));
    put("radar_config_hash", Value::from(m.radar_config_hash.clone()));
    put("terrain_hash", Value::from(m.terrain_hash.clone()));
    put("calculated_at", Value::from(m.calculated_at.clone()));
    put("crs", Value::from(m.crs.clone()));
    put("origin", Value::Array(m.origin.iter().map(|v| float(*v)).collect()));
    put("resolution_m", float(m.resolution_m));
    put("extent", Value::Array(m.extent.iter().map(|v| float(*v)).collect()));
    put("width", Value::from(m.width));
    put("height", Value::from(m.height));
    put("range_m", float(m.range_m));
    put("effective_earth_k", float(m.effective_earth_k));
    put("nodata", Value::from(m.nodata));
    serde_json::to_vec(&Value::Object(map)).unwrap()
}

fn decode(json: &[u8]) -> Metadata {
    let v: Value = serde_json::from_slice(json).unwrap();
    let text = |key: &str| v[key].as_str().unwrap().to_owned();
    let number = |value: &Value| bits(value.as_f64().unwrap());
    let small = |key: &str| v[key].as_u64().unwrap() as u16;
    Metadata {
        radar_id: text("radar_id"),
        los_algorithm_version: small("los_algorithm_version"),
        radar_config_hash: text("radar_config_hash"),
        terrain_hash: text("terrain_hash"),
        calculated_at: text("calculated_at"),
        crs: text("crs"),
        origin: [number(&v["origin"][0]), number(&v["origin"][1])],
        resolution_m: number(&v["resolution_m"]),
        extent: [0, 1, 2, 3].map(|i: usize| number(&v["extent"][i])),
        width: v["width"].as_u64().unwrap() as u32,
        height: v["height"].as_u64().unwrap() as u32,
        range_m: number(&v["range_m"]),
        effective_earth_k: number(&v["effective_earth_k"]),
        nodata: small("nodata"),
    }
}

fn heights_file(m: &Metadata, heights: &[u16]) -> Vec<u8> {
    write_rhgt(m, &encode(m), heights).unwrap()
}

fn layer(m: Metadata, heights: &[u16]) -> StoredLayer {
    StoredLayer { file: heights_file(&m, heights), metadata: m }
}

fn elevation(value: f32) -> Option<Binary32> {
    Some(Binary32 { bits: value.to_bits() })
}

#[test]
fn round_trips_and_finds() {
    let a = meta("a");
    let r = heights_file(&a, &[0, 30, NO_DATA, 100]);
    assert!(decode(&validate(&r, RHGT_MAGIC).unwrap()).equals(&a));
    assert_eq!(read(&r, RHGT_MAGIC).unwrap().1.len(), 8);
    let c = write_rcov(&a, &encode(&a), &[10]).unwrap();
    let entries: Vec<StoredHeader> = [("a.rcov", &c), ("a.rhgt", &r)]
        .into_iter()
        .map(|(name, file)| StoredHeader {
            name: name.to_owned(),
            metadata: read_header(file, RHGT_MAGIC).ok().map(|(json, _)| decode(&json)),
        })
        .collect();
    assert_eq!(find_by_config_hash(&entries, &"hash-a".to_owned()), vec!["a.rhgt".to_owned()]);
    assert!(find_by_config_hash(&entries, &"hash-b".to_owned()).is_empty());
    let mixed: Vec<StoredHeader> = ["b", "a.x", "\u{e9}", "a", "B", "ab"]
        .into_iter()
        .map(|name| StoredHeader { name: name.to_owned(), metadata: Some(meta("a")) })
        .collect();
    assert_eq!(
        find_by_config_hash(&mixed, &"hash-a".to_owned()),
        ["B", "a", "a.x", "ab", "b", "\u{e9}"].map(str::to_owned).to_vec()
    );
    assert_eq!(read(&c, RCOV_MAGIC).unwrap().1, 10u64.to_le_bytes());
    let terrain = write_rdem(
        &a,
        &encode(&a),
        &[elevation(-12.0), elevation(345.0), None, elevation(1.0)],
    )
    .unwrap();
    let stored = decode(&validate(&terrain, RDEM_MAGIC).unwrap());
    assert!(stored.equals(&a));
    assert_eq!(read_rdem_value(&stored, &terrain, 0).unwrap(), Some(-12));
    assert_eq!(read_rdem_value(&stored, &terrain, 1).unwrap(), Some(345));
    assert_eq!(read_rdem_value(&stored, &terrain, 2).unwrap(), None);
    assert_eq!(
        read_rdem_value(&stored, &terrain, 4),
        Err(StorageError::Format("rdem index"))
    );
}

/// A damaged terrain file gives no elevation, wherever the damage is.
#[test]
fn terrain_values_are_checked_before_they_are_read() {
    let m = meta("a");
    let values = [elevation(1.), elevation(2.), None, elevation(4.)];
    let file = write_rdem(&m, &encode(&m), &values).unwrap();
    let payload = file.len() - CHECKSUM - 8;
    assert_eq!(payload, PREFIX + encode(&m).len());
    for damaged in [payload, payload + 7, file.len() - 1, PREFIX + 3] {
        let mut copy = file.clone();
        copy[damaged] ^= 1;
        assert_eq!(read_rdem_value(&m, &copy, 0), Err(StorageError::Checksum));
    }
    let mut other = file.clone();
    other[0] ^= 1;
    assert_eq!(read_rdem_value(&m, &other, 0), Err(StorageError::Format("magic")));
    assert_eq!(read_rdem_value(&m, &file, 3), Ok(Some(4)));
}

#[test]
fn streaming_merge_and_empty_selection() {
    let layers = [
        layer(meta("a"), &[0, 30, NO_DATA, 100]),
        layer(meta("b"), &[50, 10, 100, NO_DATA]),
    ];
    let (reference, counts) = merge_rhgt_counts_streaming(&layers, 50).unwrap();
    assert_eq!(counts, vec![2, 2, 0, 0]);
    assert!(reference.unwrap().equals(&meta("a")));
    let (reference, counts) = merge_rhgt_counts_streaming(&[], 50).unwrap();
    assert!(counts.is_empty() && reference.is_none());
    assert_eq!(merge_rhgt_minimum_streaming(&layers).unwrap().1, vec![0, 10, 100, 100]);
    assert!(merge_rhgt_minimum_streaming(&[]).unwrap().1.is_empty());
}

#[test]
fn detects_checksum_and_truncation() {
    let mut b = heights_file(&meta("a"), &[0; 4]);
    let last = b.len() - 1;
    b[last] ^= 1;
    assert!(matches!(read(&b, RHGT_MAGIC), Err(StorageError::Checksum)));
    assert!(matches!(validate(&b, RHGT_MAGIC), Err(StorageError::Checksum)));
    b.truncate(12);
    assert!(matches!(read(&b, RHGT_MAGIC), Err(StorageError::Format(_))));
    assert_eq!(read(&b, RHGT_MAGIC), Err(StorageError::Format("truncated")));
}

#[test]
fn rejects_incompatible_grid() {
    let mut m = meta("b");
    m.width = 1;
    let layers = [layer(meta("a"), &[0; 4]), layer(m, &[0; 2])];
    assert!(matches!(
        merge_rhgt_counts_streaming(&layers, 0),
        Err(StorageError::IncompatibleGrid)
    ));
    assert!(matches!(
        merge_rhgt_minimum_streaming(&layers),
        Err(StorageError::IncompatibleGrid)
    ));
}

#[test]
fn rejects_magic_and_unknown_version() {
    let mut bytes = heights_file(&meta("a"), &[0; 4]);
    assert!(matches!(read(&bytes, RCOV_MAGIC), Err(StorageError::Format("magic"))));
    bytes[4..6].copy_from_slice(&99u16.to_le_bytes());
    assert!(matches!(read(&bytes, RHGT_MAGIC), Err(StorageError::Format("version"))));
}

#[test]
fn envelopes_have_a_fixed_layout() {
    let file = write_atomic(RCOV_MAGIC, b"{}", &[7, 8, 9]).unwrap();
    let mut expected = b"RCOV".to_vec();
    expected.extend_from_slice(&VERSION.to_le_bytes());
    expected.extend_from_slice(&2u32.to_le_bytes());
    expected.extend_from_slice(&3u64.to_le_bytes());
    expected.extend_from_slice(b"{}");
    expected.extend_from_slice(&[7, 8, 9]);
    let mut hash = blake3::Hasher::new();
    hash.update(b"RCOV");
    hash.update(&VERSION.to_le_bytes());
    hash.update(b"{}");
    hash.update(&[7, 8, 9]);
    expected.extend_from_slice(hash.finalize().as_bytes());
    assert_eq!(file, expected);
    assert_eq!(file.len(), PREFIX + 2 + 3 + CHECKSUM);
    assert_eq!(read(&file, RCOV_MAGIC), Ok((b"{}".to_vec(), vec![7, 8, 9])));
}

#[test]
fn damaged_lengths_are_refused() {
    let file = write_atomic(RHGT_MAGIC, b"{}", &[1, 2]).unwrap();
    let mut longer = file.clone();
    longer.push(0);
    assert_eq!(read(&longer, RHGT_MAGIC), Err(StorageError::Format("length")));
    let mut overflow = file.clone();
    overflow[10..18].copy_from_slice(&u64::MAX.to_le_bytes());
    assert_eq!(read(&overflow, RHGT_MAGIC), Err(StorageError::Format("length overflow")));
    let header = read_prefix(&file[..PREFIX], file.len() as u64, RHGT_MAGIC).unwrap();
    assert_eq!((header.json_len, header.payload_len), (2, 2));
}

#[test]
fn shapes_are_checked_before_writing() {
    let m = meta("a");
    let json = encode(&m);
    assert_eq!(write_rcov(&m, &json, &[1, 2]), Err(StorageError::Format("rcov words")));
    assert_eq!(write_rhgt(&m, &json, &[1]), Err(StorageError::Format("rhgt cells")));
    assert_eq!(write_rdem(&m, &json, &[None]), Err(StorageError::Format("rdem cells")));
    assert_eq!(m.cells(), Ok(4));
    assert_eq!(StorageError::Format("magic").message(), "invalid format: magic");
    assert_eq!(StorageError::Checksum.message(), "checksum mismatch");
    assert_eq!(StorageError::IncompatibleGrid.message(), "incompatible grids");
}

#[test]
fn blockwise_writing_gives_the_same_file() {
    let payload: Vec<u8> = (0..BLOCK * 2 + 5).map(|i| (i % 251) as u8).collect();
    let whole = write_atomic(RDEM_MAGIC, b"{\"a\":1}", &payload).unwrap();
    let (mut file, mut writer) =
        EnvelopeWriter::begin(RDEM_MAGIC, b"{\"a\":1}", payload.len() as u64).unwrap();
    for block in payload.chunks(BLOCK) {
        writer.block(block);
        file.extend_from_slice(block);
    }
    file.extend_from_slice(&writer.checksum());
    assert_eq!(file, whole);
    let mut check = PayloadCheck::begin(RDEM_MAGIC, b"{\"a\":1}", payload.len() as u64);
    let mut at = 0;
    while check.next_len() > 0 {
        let n = check.next_len();
        check.absorb(&payload[at..at + n]);
        at += n;
    }
    assert_eq!(at, payload.len());
    let stored = &whole[whole.len() - CHECKSUM..];
    assert_eq!(check.finish(stored, true), Ok(()));
    assert_eq!(check.finish(stored, false), Err(StorageError::Format("trailing bytes")));
    assert_eq!(check.finish(&[0; CHECKSUM], true), Err(StorageError::Checksum));
    assert_eq!(validate(&whole, RDEM_MAGIC), Ok(b"{\"a\":1}".to_vec()));
}

#[test]
fn height_files_come_back() {
    let heights = [0, 1, 255, 256, 65534, NO_DATA];
    let mut m = meta("a");
    (m.width, m.height) = (3, 2);
    let file = heights_file(&m, &heights);
    let (json, decoded) = read_rhgt_file(&file).unwrap();
    assert_eq!(decoded, heights);
    assert!(decode(&json).equals(&m));
    assert_eq!(decode_heights(&[1, 2, 3]), vec![513]);
}

#[test]
fn terrain_is_rounded_and_saturated() {
    let m = meta("a");
    let values = [elevation(0.5), elevation(-0.5), elevation(1e9), elevation(-1e9)];
    let file = write_rdem(&m, &encode(&m), &values).unwrap();
    let stored: Vec<Option<i16>> =
        (0..4).map(|i| read_rdem_value(&m, &file, i).unwrap()).collect();
    assert_eq!(stored, vec![Some(1), Some(-1), Some(i16::MAX), Some(i16::MIN + 1)]);
}

#[test]
fn counts_saturate_and_agree_with_the_minimum() {
    let layers: Vec<StoredLayer> =
        (0..257).map(|i| layer(meta("a"), &[5, NO_DATA, (i * 200) as u16, 9])).collect();
    let (_, minimum) = merge_rhgt_minimum_streaming(&layers).unwrap();
    assert_eq!(minimum, vec![5, NO_DATA, 0, 9]);
    for height in [0, 4, 5, 8, 9, 1000, 65534, 65535] {
        let (_, counts) = merge_rhgt_counts_streaming(&layers, height).unwrap();
        for cell in 0..4 {
            let visible = minimum[cell] != NO_DATA && minimum[cell] <= height;
            assert_eq!(counts[cell] > 0, visible);
        }
        assert_eq!(counts[0], if height < 5 { 0 } else { 255 });
    }
}

#[test]
fn layers_can_be_fed_in_blocks() {
    let m = meta("a");
    let heights: Vec<u8> = [5u16, 60, NO_DATA, 7].iter().flat_map(|h| h.to_le_bytes()).collect();
    let json = encode(&m);
    let file = write_atomic(RHGT_MAGIC, &json, &heights).unwrap();
    let stored = &file[file.len() - CHECKSUM..];
    let mut fusion = CountFusion::new(10);
    assert_eq!(fusion.begin_layer(&m, &json, 6), Err(StorageError::Format("rhgt payload")));
    let mut fusion = CountFusion::new(10);
    fusion.begin_layer(&m, &json, 8).unwrap();
    assert_eq!(fusion.next_len(), 8);
    fusion.absorb(&heights);
    assert_eq!(fusion.next_len(), 0);
    fusion.end_layer(stored, true).unwrap();
    assert_eq!(fusion.finish().1, vec![1, 0, 0, 1]);
}

#[test]
fn samples_are_read_at_their_offset() {
    assert_eq!(sample_offset(21), Ok(42));
    assert_eq!(known_height(0x34, 0x12), Some(0x1234));
    assert_eq!(known_height(0xff, 0xff), None);
}

#[test]
fn coverage_identity_leaves_out_the_time() {
    let a = meta("a");
    let mut b = meta("a");
    b.calculated_at = "later".to_owned();
    assert!(a.same_coverage_identity(&b) && !a.equals(&b));
    b.radar_config_hash.push('x');
    assert!(!a.same_coverage_identity(&b));
    let mut c = meta("c");
    assert!(a.same_grid(&c));
    c.extent[3] = bits(181.0);
    assert!(!a.same_grid(&c));
    let mut zero = meta("a");
    zero.origin[0] = bits(-0.0);
    assert!(a.same_grid(&zero));
}

#[test]
fn little_endian_numbers_round_trip() {
    for (number, n) in [(0u64, 1usize), (255, 1), (0x1234, 2), (0xdead_beef, 4), (u64::MAX, 8)] {
        let mut bytes = vec![9];
        push_le(&mut bytes, number, n);
        assert_eq!(bytes.len(), n + 1);
        assert_eq!(bytes[1..], number.to_le_bytes()[..n]);
        assert_eq!(read_le(&bytes[1..]), number);
    }
}
