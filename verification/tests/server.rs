use radial::answers::{FusionFault, JobFault, ProfileFault, TileFault};
use radial::api::{
    check_profile_distance, check_profile_target, configured_api_url, configured_number, id_text,
    public_error, validate_radar, ApiError, FusionRequest, JobState, Radar, RadarRegistry,
};
use radial::digest::{digest, digest_hex, same_bytes};
use radial::float::{Binary32, Binary64};
use radial::fusion::{
    boolean_layer, check_selection, check_terrain, dataset_files, fusion_heights,
    fusion_signature, latest_rhgt, layer_file, required_files, uuid_from_hash, Candidate,
    CountLayer,
};
use radial::fusion_run::{FusionRun, FusionStep, Merged};
use radial::jobs::{
    admit_job, cached_job_valid, job_request_hash, result_artifact, result_name, JobCacheArtifact,
    JobCacheManifest, JobEvent, JobRegistry, JobRun, JobStep, RadarPlan, StoredArtifact, Submission,
};
use radial::manifest::{
    dataset_directory, dataset_url, fusion_response, plain_name, DatasetRecord, Manifest,
};
use radial::profile_run::{ProfileRun, ProfileStep};
use radial::storage::{Metadata, NO_DATA};
use radial::text::{decimal_text, parse_number, strip_prefix, strip_suffix};
use serde_json::{Number, Value};

fn bits(value: f64) -> Binary64 {
    Binary64::from_bits(value.to_bits())
}

fn refusal(status: u16, message: &'static str) -> ApiError {
    ApiError { status, message }
}

fn number(value: f64) -> Value {
    Value::Number(Number::from_f64(value).unwrap())
}

fn object(members: Vec<(&str, Value)>) -> Value {
    let mut map = serde_json::Map::new();
    for (key, value) in members {
        map.insert(key.to_owned(), value);
    }
    Value::Object(map)
}

fn request(resolution_m: u32) -> Vec<u8> {
    let radar = object(vec![
        ("id", Value::from(id_text(0))),
        ("name", Value::from("cache test")),
        ("latitude", number(45.2)),
        ("longitude", number(2.2)),
        ("antenna_agl_m", number(20.0)),
        ("range_m", number(100_000.0)),
        ("active", Value::from(true)),
    ]);
    serde_json::to_vec(&object(vec![
        ("radars", Value::Array(vec![radar])),
        ("resolution_m", Value::from(resolution_m)),
        ("effective_earth_k", number(4.0 / 3.0)),
        ("target_heights_agl_m", Value::Array([30, 50, 100].map(Value::from).to_vec())),
    ]))
    .unwrap()
}

fn metadata(calculated_at: &str) -> Metadata {
    Metadata {
        radar_id: "r".to_owned(),
        los_algorithm_version: 3,
        radar_config_hash: "c".to_owned(),
        terrain_hash: "t".to_owned(),
        calculated_at: calculated_at.to_owned(),
        crs: "local".to_owned(),
        origin: [bits(0.0); 2],
        resolution_m: bits(90.0),
        extent: [bits(0.0); 4],
        width: 2,
        height: 2,
        range_m: bits(100.0),
        effective_earth_k: bits(1.0),
        nodata: NO_DATA,
    }
}

#[test]
fn job_fingerprint_is_stable_and_parameter_sensitive() {
    let original = request(30);
    assert_eq!(job_request_hash(&original), job_request_hash(&original));
    let changed = request(90);
    assert_ne!(job_request_hash(&changed), job_request_hash(&request(30)));
    let mut hasher = blake3::Hasher::new();
    hasher.update(b"radial-los-job");
    hasher.update(&3u16.to_le_bytes());
    hasher.update(&original);
    assert_eq!(job_request_hash(&original), hasher.finalize().to_hex().to_string());
}

#[test]
fn fusion_uuid_is_stable() {
    let hash = *blake3::hash(b"same fusion inputs").as_bytes();
    assert_eq!(uuid_from_hash(&hash), uuid_from_hash(&hash));
    assert_ne!(
        uuid_from_hash(&hash),
        uuid_from_hash(blake3::hash(b"different fusion inputs").as_bytes())
    );
    let id = uuid::Uuid::from_u128(uuid_from_hash(&hash));
    assert_eq!(id.get_version_num(), 5);
    assert_eq!(id.get_variant(), uuid::Variant::RFC4122);
    assert_eq!(id.as_bytes()[..6], hash[..6]);
    assert_eq!(id.as_bytes()[9..], hash[9..16]);
}

#[test]
fn digests_are_those_of_the_hash_function() {
    assert_eq!(
        digest_hex(b""),
        "af1349b9f5f9a1a6a0404dea36dcc9499bcb25c9adc112b7cc9a93cae41f3262"
    );
    assert_eq!(digest(b"abc"), *blake3::hash(b"abc").as_bytes());
    assert!(same_bytes(&[1, 2], &[1, 2]));
    assert!(!same_bytes(&[1, 2], &[1, 3]) && !same_bytes(&[1], &[1, 2]));
}

#[test]
fn identifiers_are_written_with_hyphens() {
    for id in [0u128, 1, u128::MAX, 0x1111_1111_1111_4111_8111_1111_1111_1111, 0xa0b << 90] {
        assert_eq!(id_text(id), uuid::Uuid::from_u128(id).to_string());
    }
}

#[test]
fn numbers_are_read_like_settings() {
    assert_eq!(configured_number(None, 7), 7);
    assert_eq!(configured_number(Some("12"), 7), 12);
    assert_eq!(configured_number(Some("+12"), 7), 12);
    for text in ["", "0", "-3", "1.5", " 4", "x", "18446744073709551616", "+"] {
        assert_eq!(configured_number(Some(text), 7), 7, "{text}");
    }
    assert_eq!(parse_number("18446744073709551615", u64::MAX), Some(u64::MAX));
    assert_eq!(parse_number("65536", 65535), None);
    assert_eq!(parse_number("00065535", 65535), Some(65535));
    assert_eq!(decimal_text(0), "0");
    assert_eq!(decimal_text(u64::MAX), u64::MAX.to_string());
    assert_eq!(strip_prefix("agl-5m", "agl-"), Some("5m".to_owned()));
    assert_eq!(strip_suffix("agl-5m", "x"), None);
    assert_eq!(configured_api_url(None), "http://localhost:8080");
    assert_eq!(configured_api_url(Some("https://example.org")), "https://example.org");
}

fn radar(id: u128, latitude: f64, longitude: f64, range: f64) -> Radar {
    Radar {
        id,
        name: format!("radar {id}"),
        latitude: bits(latitude),
        longitude: bits(longitude),
        antenna_agl_m: bits(20.0),
        range_m: bits(range),
        active: true,
    }
}

#[test]
fn radars_are_validated() {
    assert_eq!(radar(1, 90.0, -180.0, 400_000.0).validate(), Ok(()));
    assert_eq!(radar(1, 90.5, 200.0, 1.0).validate(), Err("latitude"));
    assert_eq!(radar(1, f64::NAN, 200.0, 1.0).validate(), Err("latitude"));
    assert_eq!(radar(1, 0.0, 200.0, -1.0).validate(), Err("longitude"));
    assert_eq!(radar(1, 0.0, 0.0, 400_000.5).validate(), Err("range"));
    assert_eq!(radar(1, 0.0, 0.0, -0.5).validate(), Err("range"));
    assert_eq!(validate_radar(&radar(1, 0.0, 0.0, -0.5)), Err(refusal(400, "range")));
    assert_eq!(check_profile_target(bits(1.0), bits(2.0)), Ok(()));
    assert_eq!(
        check_profile_target(bits(1.0), bits(181.0)),
        Err(refusal(400, "target coordinates"))
    );
    assert_eq!(check_profile_distance(bits(5.0), bits(5.0)), Ok(()));
    assert_eq!(
        check_profile_distance(bits(5.1), bits(5.0)),
        Err(refusal(400, "target outside radar range"))
    );
}

#[test]
fn registered_radars_are_found() {
    let mut registry = RadarRegistry::new();
    assert_eq!(registry.create_radar(radar(1, 10.0, 0.0, 5.0)), Ok(()));
    assert_eq!(registry.create_radar(radar(2, 20.0, 0.0, 5.0)), Ok(()));
    assert_eq!(
        registry.create_radar(radar(3, 100.0, 0.0, 5.0)),
        Err(refusal(400, "latitude"))
    );
    assert_eq!(registry.list().len(), 2);
    assert_eq!(registry.get_radar(2).unwrap().latitude, bits(20.0));
    assert_eq!(registry.get_radar(3).err(), Some(refusal(404, "radar not found")));
    let updated = registry.update_radar(2, radar(9, 30.0, 0.0, 5.0)).unwrap();
    assert_eq!((updated.id, updated.latitude), (2, bits(30.0)));
    assert_eq!(registry.get_radar(2).unwrap().name, "radar 9");
    assert_eq!(
        registry.update_radar(9, radar(9, 30.0, 0.0, 5.0)).err(),
        Some(refusal(404, "radar not found"))
    );
    assert_eq!(
        registry.update_radar(9, radar(9, 30.0, 500.0, 5.0)).err(),
        Some(refusal(400, "longitude"))
    );
    registry.create_radar(radar(1, 11.0, 0.0, 5.0)).unwrap();
    assert_eq!(registry.list().len(), 2);
    assert_eq!(registry.get_radar(1).unwrap().latitude, bits(11.0));
}

fn submit(jobs: &mut JobRegistry, key: &str, id: u128, stored: bool) -> Submission {
    jobs.submit(key.to_owned(), id, format!("created {id}"), stored)
}

#[test]
fn identical_requests_share_a_job() {
    let mut jobs = JobRegistry::new();
    assert!(matches!(submit(&mut jobs, "k", 1, false), Submission::Created(s) if s.id == 1));
    assert!(matches!(submit(&mut jobs, "k", 2, false), Submission::Existing(s) if s.id == 1));
    assert!(matches!(submit(&mut jobs, "other", 3, false), Submission::Created(s) if s.id == 3));
    assert!(jobs.start(1, "started".to_owned()));
    assert!(matches!(submit(&mut jobs, "k", 4, false), Submission::Existing(s) if s.id == 1));
    jobs.finish(1, Ok(()), "finished".to_owned());
    assert!(matches!(submit(&mut jobs, "k", 5, true), Submission::Existing(s) if s.id == 1));
    assert!(matches!(submit(&mut jobs, "k", 6, false), Submission::Created(s) if s.id == 6));
    assert!(matches!(submit(&mut jobs, "k", 7, false), Submission::Existing(s) if s.id == 6));
    jobs.finish(6, Err("broken".to_owned()), "finished".to_owned());
    assert!(matches!(submit(&mut jobs, "k", 8, true), Submission::Created(s) if s.id == 8));
    assert_eq!(jobs.latest_for("k"), Some(3));
    assert_eq!(jobs.latest_for("nothing"), None);
}

#[test]
fn jobs_go_through_their_states() {
    let mut jobs = JobRegistry::new();
    submit(&mut jobs, "k", 1, false);
    let status = jobs.get_job(1).unwrap();
    assert_eq!((status.state, status.progress.bits), (JobState::Queued, 0));
    assert_eq!(status.created_at, "created 1");
    assert!(jobs.start(1, "started".to_owned()));
    let status = jobs.get_job(1).unwrap();
    assert_eq!(status.state, JobState::Running);
    assert_eq!(f32::from_bits(status.progress.bits), 0.01);
    assert_eq!(status.started_at.as_deref(), Some("started"));
    jobs.set_progress(1, Binary32 { bits: 7.5f32.to_bits() });
    assert_eq!(f32::from_bits(jobs.get_job(1).unwrap().progress.bits), 1.0);
    jobs.set_progress(1, Binary32 { bits: 0.25f32.to_bits() });
    jobs.finish(1, Err("broken".to_owned()), "finished".to_owned());
    let status = jobs.get_job(1).unwrap();
    assert_eq!(status.state, JobState::Failed);
    assert_eq!(status.error.as_deref(), Some("broken"));
    assert_eq!(status.finished_at.as_deref(), Some("finished"));
    assert_eq!(f32::from_bits(status.progress.bits), 0.25);
    assert_eq!(jobs.get_job(2).err(), Some(refusal(404, "job not found")));
}

#[test]
fn cancelled_jobs_stay_cancelled() {
    let mut jobs = JobRegistry::new();
    submit(&mut jobs, "a", 1, false);
    let status = jobs.cancel_job(1, "stopped".to_owned()).unwrap();
    assert_eq!(status.state, JobState::Cancelled);
    assert!(jobs.is_cancelled(1) && !jobs.is_cancelled(2));
    assert!(!jobs.start(1, "started".to_owned()));
    submit(&mut jobs, "b", 2, false);
    assert!(jobs.start(2, "started".to_owned()));
    jobs.cancel_job(2, "stopped".to_owned()).unwrap();
    jobs.finish(2, Err("late".to_owned()), "finished".to_owned());
    let status = jobs.get_job(2).unwrap();
    assert_eq!((status.state, status.error), (JobState::Cancelled, None));
    submit(&mut jobs, "c", 3, false);
    jobs.finish(3, Ok(()), "finished".to_owned());
    let status = jobs.cancel_job(3, "too late".to_owned()).unwrap();
    assert_eq!(status.state, JobState::Completed);
    assert_eq!(status.finished_at.as_deref(), Some("finished"));
    assert_eq!(jobs.cancel_job(9, String::new()).err(), Some(refusal(404, "job not found")));
}

#[test]
fn jobs_have_to_fit_into_memory() {
    assert_eq!(admit_job(Ok(10), 10), Ok(()));
    assert_eq!(admit_job(Ok(11), 10), Err(refusal(422, "job exceeds memory budget")));
    assert_eq!(admit_job(Err("radars"), 10), Err(refusal(400, "radars")));
    assert_eq!(public_error(418, "teapot"), refusal(418, "teapot"));
}

fn artifact(name: &str) -> JobCacheArtifact {
    JobCacheArtifact {
        rcov: format!("{name}.rcov"),
        rhgt: format!("{name}.rhgt"),
        rdem: format!("{name}.rdem"),
    }
}

fn stored(rcov: &str, rhgt: &str, rdem: &str) -> StoredArtifact {
    StoredArtifact {
        rcov: Some(metadata(rcov)),
        rhgt: Some(metadata(rhgt)),
        rdem: Some(metadata(rdem)),
    }
}

#[test]
fn cached_results_are_checked() {
    let manifest = |artifacts: Vec<JobCacheArtifact>| JobCacheManifest {
        request_hash: "hash".to_owned(),
        artifacts,
    };
    let good = manifest(vec![artifact("a"), artifact("b")]);
    let intact = [stored("1", "1", "1"), stored("2", "2", "2")];
    assert!(cached_job_valid(&good, "hash", &intact));
    assert!(!cached_job_valid(&good, "other", &intact));
    assert!(!cached_job_valid(&manifest(vec![]), "hash", &[]));
    assert!(!cached_job_valid(&good, "hash", &[stored("1", "1", "1"), stored("2", "2", "3")]));
    let mut missing = [stored("1", "1", "1"), stored("2", "2", "2")];
    missing[1].rdem = None;
    assert!(!cached_job_valid(&good, "hash", &missing));
    let escaping = manifest(vec![artifact("../a"), artifact("b")]);
    assert!(!cached_job_valid(&escaping, "hash", &intact));
    for (name, plain) in [("a.rcov", true), ("", false), (".", false), ("..", false), ("/a", false)] {
        assert_eq!(plain_name(name), plain, "{name}");
    }
    assert_eq!(
        result_name(7, "0123456789abcdef0123"),
        "00000000-0000-0000-0000-000000000007-0123456789abcdef"
    );
    let named = result_artifact(7, "0123456789abcdef0123");
    assert_eq!(named.rdem, "00000000-0000-0000-0000-000000000007-0123456789abcdef.rdem");
    assert!(named.rcov.ends_with("f.rcov") && named.rhgt.ends_with("f.rhgt"));
    assert!(named.has_plain_names());
}

fn plan(name: &str) -> RadarPlan {
    RadarPlan { expected: metadata("now"), artifact: artifact(name) }
}

fn header_time(run: &JobRun) -> Option<String> {
    run.header().map(|h| h.calculated_at.clone())
}

fn did(run: &mut JobRun) {
    run.advance(JobEvent::Did(Ok(())));
}

/// A job whose grid is prepared.
fn prepared(radars: usize) -> JobRun {
    let mut run = JobRun::new(radars);
    assert_eq!(run.step(), JobStep::PrepareStorage);
    did(&mut run);
    assert_eq!(run.step(), JobStep::Fingerprint);
    did(&mut run);
    assert_eq!(run.step(), JobStep::ReadCache);
    run.advance(JobEvent::Cached(false));
    assert_eq!(run.step(), JobStep::PrepareGrid);
    did(&mut run);
    run
}

#[test]
fn stored_results_are_reused_by_a_job() {
    let mut run = prepared(2);
    assert_eq!(run.step(), JobStep::AskBefore);
    assert!(run.plan().is_none());
    run.start_radar(Some(plan("a")));
    assert_eq!(run.step(), JobStep::ReadTerrain);
    run.advance(JobEvent::Terrain(Some(metadata("before"))));
    assert_eq!(run.step(), JobStep::ReadCoverage);
    let read = || Some(metadata("before"));
    run.advance(JobEvent::Coverage(read(), read()));
    assert_eq!((run.step(), run.radar()), (JobStep::AskBefore, 1));
    run.start_radar(Some(plan("b")));
    assert_eq!(run.plan().map(|p| p.artifact.rdem.as_str()), Some("b.rdem"));
    run.advance(JobEvent::Terrain(None));
    run.advance(JobEvent::Coverage(read(), Some(metadata("other"))));
    assert_eq!(run.step(), JobStep::WriteTerrain);
    assert_eq!(header_time(&run).as_deref(), Some("now"));
    did(&mut run);
    assert_eq!(run.step(), JobStep::Compute);
    did(&mut run);
    assert_eq!(run.step(), JobStep::AskAfter);
    run.advance(JobEvent::Cancelled(false));
    assert_eq!(run.step(), JobStep::WriteVisibility);
    did(&mut run);
    assert_eq!(run.step(), JobStep::WriteHeights);
    did(&mut run);
    assert_eq!(run.step(), JobStep::WriteManifest);
    let manifest = run.manifest("hash".to_owned());
    assert_eq!(manifest.artifacts.len(), 2);
    assert_eq!(manifest.artifacts[1].rdem, "b.rdem");
    did(&mut run);
    assert_eq!(run.step(), JobStep::Done);
}

/// What a job leaves behind is valid, whatever it found.
#[test]
fn finished_jobs_leave_valid_results() {
    let old = || Some(metadata("before"));
    // Terrain of an earlier run that was cancelled before its heights.
    let mut run = prepared(1);
    run.start_radar(Some(plan("a")));
    run.advance(JobEvent::Terrain(old()));
    run.advance(JobEvent::Coverage(None, None));
    assert_eq!(run.step(), JobStep::Compute);
    did(&mut run);
    run.advance(JobEvent::Cancelled(false));
    let rcov = run.header().cloned();
    did(&mut run);
    let rhgt = run.header().cloned();
    did(&mut run);
    let stored = StoredArtifact { rcov, rhgt, rdem: old() };
    assert!(cached_job_valid(&run.manifest("hash".to_owned()), "hash", &[stored]));
    // Results without their terrain, and beside terrain of another time.
    for terrain in [None, Some(metadata("later"))] {
        let mut run = prepared(1);
        run.start_radar(Some(plan("a")));
        run.advance(JobEvent::Terrain(terrain));
        run.advance(JobEvent::Coverage(old(), old()));
        assert_eq!(run.step(), JobStep::RewriteTerrain);
        let rdem = run.header().cloned();
        did(&mut run);
        assert_eq!(run.step(), JobStep::WriteManifest);
        let stored = StoredArtifact { rcov: old(), rhgt: old(), rdem };
        assert!(cached_job_valid(&run.manifest("hash".to_owned()), "hash", &[stored]));
    }
}

#[test]
fn jobs_stop_when_they_are_cancelled_or_fail() {
    let mut run = prepared(1);
    run.start_radar(None);
    assert_eq!(run.step(), JobStep::Abandoned);
    let mut run = prepared(1);
    run.start_radar(Some(plan("a")));
    run.advance(JobEvent::Terrain(None));
    run.advance(JobEvent::Coverage(None, None));
    run.advance(JobEvent::Did(Err(JobFault::Terrain.message())));
    assert_eq!(run.step(), JobStep::Failed("cannot persist terrain elevations"));
    let mut run = prepared(1);
    run.start_radar(Some(plan("a")));
    run.advance(JobEvent::Terrain(Some(metadata("before"))));
    run.advance(JobEvent::Coverage(None, None));
    did(&mut run);
    run.advance(JobEvent::Cancelled(true));
    assert_eq!(run.step(), JobStep::Abandoned);
    assert_eq!(prepared(0).step(), JobStep::WriteManifest);
    let mut run = JobRun::new(1);
    run.advance(JobEvent::Did(Err(JobFault::ResultStorage.message())));
    assert_eq!(run.step(), JobStep::Failed("cannot prepare result storage"));
    let mut run = JobRun::new(1);
    did(&mut run);
    did(&mut run);
    run.advance(JobEvent::Cached(true));
    assert_eq!(run.step(), JobStep::Reused);
    assert!(plan("a").is_valid());
    assert!(!plan("a/b").is_valid());
}

#[test]
fn failures_have_public_answers() {
    assert_eq!(ProfileFault::PathTerrain.answer(), refusal(503, "profile terrain missing"));
    assert_eq!(ProfileFault::UnknownRadar.answer(), refusal(404, "radar not found"));
    assert_eq!(ProfileFault::Target.answer(), refusal(400, "target coordinates"));
    assert_eq!(ProfileFault::Projection.answer(), refusal(400, "projection"));
    assert_eq!(ProfileFault::OutOfRange.answer(), refusal(400, "target outside radar range"));
    assert_eq!(ProfileFault::TerrainExtent.answer(), refusal(400, "terrain extent"));
    assert_eq!(
        ProfileFault::TerrainPreparation.answer(),
        refusal(503, "terrain preparation failed")
    );
    assert_eq!(ProfileFault::PathProjection.answer(), refusal(422, "profile projection failed"));
    assert_eq!(ProfileFault::Grid.answer(), refusal(500, "profile grid failed"));
    assert_eq!(ProfileFault::Computation.answer(), refusal(422, "profile computation failed"));
    assert_eq!(FusionFault::CoverageNotFound.answer(), refusal(404, "coverage not found"));
    assert_eq!(FusionFault::InvalidCoverage.answer(), refusal(422, "invalid coverage"));
    assert_eq!(FusionFault::Fingerprint.answer(), refusal(500, "fusion fingerprint failed"));
    assert_eq!(FusionFault::TerrainMissing.answer(), refusal(422, "terrain coverage missing"));
    assert_eq!(FusionFault::TerrainPath.answer(), refusal(500, "terrain path failed"));
    assert_eq!(FusionFault::DatasetCache.answer(), refusal(500, "dataset cache failed"));
    assert_eq!(FusionFault::InvalidDatasetCache.answer(), refusal(500, "invalid dataset cache"));
    assert_eq!(FusionFault::Worker.answer(), refusal(500, "fusion worker failed"));
    assert_eq!(
        FusionFault::IncompatibleLayers.answer(),
        refusal(422, "coverage layers are incompatible")
    );
    assert_eq!(FusionFault::Storage.answer(), refusal(500, "dataset storage failed"));
    assert_eq!(FusionFault::Manifest.answer(), refusal(500, "manifest failed"));
    assert_eq!(TileFault::Cache.answer(), refusal(500, "tile cache failed"));
    assert_eq!(TileFault::Worker.answer(), refusal(500, "tile worker failed"));
    assert_eq!(TileFault::Generation.answer(), refusal(500, "tile generation failed"));
    assert_eq!(TileFault::SampleWorker.answer(), refusal(500, "sample worker failed"));
    assert_eq!(TileFault::SampleRead.answer(), refusal(500, "sample read failed"));
    assert_eq!(TileFault::Response.answer(), refusal(500, "response failed"));
    assert_eq!(JobFault::CommonGrid.message(), "common grid exceeds limits or cannot be projected");
}

#[test]
fn selections_are_checked_and_ordered() {
    assert_eq!(check_selection(&[3, 1, 2], 3), Ok(vec![1, 2, 3]));
    assert_eq!(check_selection(&[2, 3, 1], 3), Ok(vec![1, 2, 3]));
    assert_eq!(check_selection(&[], 0), Ok(vec![]));
    assert_eq!(check_selection(&[1, 2], 1), Err(refusal(400, "radar count")));
    assert_eq!(check_selection(&[2, 1, 2], 3), Err(refusal(400, "duplicate radar id")));
}

#[test]
fn datasets_have_a_layer_for_every_height() {
    assert_eq!(fusion_heights(75), vec![0, 30, 50, 100, 75]);
    assert_eq!(fusion_heights(50), vec![0, 30, 50, 100]);
    assert_eq!(layer_file(0), "ground.bin");
    assert_eq!(layer_file(30), "agl-30m.bin");
    for target in [0, 30, 75] {
        let layers: Vec<CountLayer> = fusion_heights(target)
            .into_iter()
            .map(|height| CountLayer { height, counts: vec![0, height as u8] })
            .collect();
        let files = dataset_files(&layers, target, &[5, NO_DATA]);
        for name in required_files(target) {
            assert!(files.iter().any(|f| f.name == name), "{name}");
        }
        let bytes = |name: &str| files.iter().find(|f| f.name == name).unwrap().bytes.clone();
        assert_eq!(bytes("radar-count.bin"), vec![0, target as u8]);
        assert_eq!(bytes("agl-50m.bin"), vec![0, 255]);
        assert_eq!(bytes("min-detection-height.bin"), vec![5, 0, 255, 255]);
    }
    assert_eq!(boolean_layer(&[0, 1, 255]), vec![0, 255, 255]);
}

#[test]
fn signatures_cover_target_and_headers() {
    let headers = [b"ab".to_vec(), b"c".to_vec()];
    let mut hasher = blake3::Hasher::new();
    hasher.update(b"radial-fusion-v1");
    hasher.update(&50u16.to_le_bytes());
    for header in &headers {
        hasher.update(&(header.len() as u64).to_le_bytes());
        hasher.update(header);
    }
    assert_eq!(fusion_signature(50, &headers), *hasher.finalize().as_bytes());
    assert_ne!(fusion_signature(51, &headers), fusion_signature(50, &headers));
    let shifted = [b"a".to_vec(), b"bc".to_vec()];
    assert_ne!(fusion_signature(50, &shifted), fusion_signature(50, &headers));
}

#[test]
fn most_recent_heights_are_fused() {
    let id = id_text(5);
    let file = |name: String, modified: Option<u128>| Candidate { name, modified };
    let candidates = [
        file(format!("{id}-a.rhgt"), Some(10)),
        file(format!("{id}-b.rhgt"), Some(30)),
        file(format!("{id}-c.rhgt"), Some(30)),
        file(format!("{id}-d.rcov"), Some(90)),
        file(format!("{}-e.rhgt", id_text(6)), Some(80)),
        file(format!("{id}-f.rhgt"), None),
        file(format!("{id}-g.rhgt"), Some(20)),
    ];
    assert_eq!(latest_rhgt(&candidates, 5), Some(2));
    assert_eq!(latest_rhgt(&candidates, 6), Some(4));
    assert_eq!(latest_rhgt(&candidates, 7), None);
}

#[test]
fn terrain_has_to_belong_to_the_coverage() {
    let m = || Some(metadata("1"));
    assert_eq!(check_terrain(&m(), &m()), Ok(()));
    assert_eq!(check_terrain(&None, &None), Ok(()));
    let error = Err(refusal(422, "terrain grid is incompatible"));
    assert_eq!(check_terrain(&m(), &Some(metadata("2"))), error);
    assert_eq!(check_terrain(&m(), &None), error);
}

fn manifest_json(terrain: Value, date: Value) -> Vec<u8> {
    serde_json::to_vec(&object(vec![
        ("version", Value::from(1)),
        ("date", date),
        ("terrain_rdem", terrain),
        (
            "metadata",
            object(vec![
                ("width", Value::from(300)),
                ("height", Value::from(200)),
                ("crs", Value::from("+proj=aeqd")),
            ]),
        ),
    ]))
    .unwrap()
}

#[test]
fn manifests_are_opened_by_their_address() {
    let json = manifest_json(Value::from("a.rdem"), Value::from("2026-09-08"));
    let open = |version: u16, date: &str| dataset_directory(Some(&json), version, date);
    let manifest = open(1, "2026-09-08").ok().unwrap();
    assert_eq!((manifest.width(), manifest.height()), (300, 200));
    assert_eq!(manifest.crs(), "+proj=aeqd");
    assert_eq!(manifest.terrain_file().as_deref(), Some("a.rdem"));
    let bad_address = Some(refusal(400, "dataset version or date"));
    assert_eq!(open(2, "2026-09-08").err(), bad_address);
    assert_eq!(open(1, "2026-9-08x").err(), bad_address);
    assert_eq!(open(1, "20260-9-08").err(), bad_address);
    assert_eq!(
        open(1, "2026-09-09").err(),
        Some(refusal(404, "dataset version not found"))
    );
    assert_eq!(
        dataset_directory(None, 1, "2026-09-08").err(),
        Some(refusal(404, "dataset not found"))
    );
    assert_eq!(
        dataset_directory(Some(b"{"), 1, "2026-09-08").err(),
        Some(refusal(500, "invalid dataset"))
    );
    let empty = Manifest::parse(b"[1]").ok().unwrap();
    assert_eq!((empty.width(), empty.height()), (0, 0));
    assert_eq!(empty.crs(), "local metric");
    assert_eq!(empty.terrain_file(), None);
}

#[test]
fn samples_are_located_in_the_raster() {
    let open = |terrain: Value| {
        Manifest::parse(&manifest_json(terrain, Value::from("2026-09-08"))).ok().unwrap()
    };
    let manifest = open(Value::from("a.rdem"));
    assert_eq!(manifest.locate_sample(299, 199), Ok((59_999, "a.rdem".to_owned())));
    assert_eq!(manifest.locate_sample(7, 2), Ok((607, "a.rdem".to_owned())));
    let outside = refusal(404, "sample outside grid");
    assert_eq!(manifest.locate_sample(300, 0), Err(outside));
    assert_eq!(manifest.locate_sample(0, 200), Err(outside));
    assert_eq!(
        open(Value::Null).locate_sample(0, 0),
        Err(refusal(404, "terrain samples unavailable"))
    );
    assert_eq!(
        open(Value::from("../a.rdem")).locate_sample(0, 0),
        Err(refusal(500, "invalid terrain path"))
    );
}

#[test]
fn stored_datasets_are_answered_again() {
    let open = |terrain: Value, date: Value| {
        Manifest::parse(&manifest_json(terrain, date)).ok().unwrap()
    };
    let request = FusionRequest { radar_ids: vec![4, 2], target_agl_m: 75 };
    let manifest = open(Value::from("a.rdem"), Value::from("2026-09-08"));
    let response = manifest.cached_fusion_response(9, &request, true, true).unwrap().unwrap();
    assert_eq!(response.selected_radars, vec![4, 2]);
    assert_eq!((response.width, response.height, response.target_agl_m), (300, 200, 75));
    assert_eq!(
        response.dataset_url,
        "/wmts/00000000-0000-0000-0000-000000000009/1/2026-09-08/metadata.json"
    );
    assert_eq!(response.dataset_url, dataset_url(9, "2026-09-08"));
    assert!(manifest.cached_fusion_response(9, &request, false, true).unwrap().is_none());
    assert!(manifest.cached_fusion_response(9, &request, true, false).unwrap().is_none());
    let none = FusionRequest { radar_ids: vec![], target_agl_m: 75 };
    assert!(manifest.cached_fusion_response(9, &none, false, true).unwrap().is_some());
    let undated = open(Value::from("a.rdem"), Value::Null);
    assert_eq!(
        undated.cached_fusion_response(9, &request, true, true).err(),
        Some(refusal(500, "invalid dataset cache"))
    );
    let fresh = fusion_response(9, &request, 1, 2, "2026-01-02");
    assert_eq!((fresh.fusion_id, fresh.width, fresh.height), (9, 1, 2));
}

fn candidate(name: &str, modified: Option<u128>) -> Candidate {
    Candidate { name: name.to_owned(), modified }
}

fn heights_of(radar: u128, rest: &str) -> String {
    format!("{}-{rest}.rhgt", id_text(radar))
}

fn fusion_request(ids: &[u128], target: u16) -> FusionRequest {
    FusionRequest { radar_ids: ids.to_vec(), target_agl_m: target }
}

fn fusion_refusal(run: &FusionRun) -> Option<(u16, &'static str)> {
    match run.step() {
        FusionStep::Refused(error) => Some((error.status, error.message)),
        _ => None,
    }
}

/// A fusion whose terrain is known.
fn grounded(target: u16) -> FusionRun {
    let mut run = FusionRun::new(fusion_request(&[9, 3], target), 2);
    assert_eq!(run.step(), FusionStep::Find);
    let files = [
        candidate(&heights_of(9, "old"), Some(1)),
        candidate(&heights_of(9, "new"), Some(2)),
        candidate(&heights_of(3, "a"), Some(7)),
    ];
    run.take_listing(Some(&files));
    assert_eq!(run.sources(), [heights_of(3, "a"), heights_of(9, "new")]);
    assert_eq!(run.step(), FusionStep::Validate);
    let headers = vec![b"one".to_vec(), b"two".to_vec()];
    run.take_headers(Ok(headers.clone()));
    assert_eq!(run.fusion_id(), uuid_from_hash(&fusion_signature(target, &headers)));
    assert_eq!(run.step(), FusionStep::Terrain);
    assert_eq!(run.terrain_file(), Some(format!("{}-a.rdem", id_text(3))));
    run.take_terrain(Some(metadata("then")));
    assert_eq!(run.step(), FusionStep::ReadDataset);
    run
}

fn merged(target: u16, time: &str) -> Merged {
    let layers = fusion_heights(target)
        .into_iter()
        .map(|height| CountLayer { height, counts: vec![1, 0, 2, 0] })
        .collect();
    Merged { metadata: Some(metadata(time)), layers, minimum: vec![0, 1, 2, 3] }
}

fn stored_manifest(record: &DatasetRecord) -> Manifest {
    let mut raster = serde_json::Map::new();
    let m = record.metadata.as_ref().unwrap();
    raster.insert("width".to_owned(), serde_json::Value::from(m.width));
    raster.insert("height".to_owned(), serde_json::Value::from(m.height));
    raster.insert("crs".to_owned(), serde_json::Value::from(m.crs.clone()));
    let mut map = serde_json::Map::new();
    map.insert("version".to_owned(), serde_json::Value::from(1));
    map.insert("date".to_owned(), serde_json::Value::from(record.date.clone()));
    map.insert("metadata".to_owned(), serde_json::Value::Object(raster));
    map.insert("terrain_rdem".to_owned(), serde_json::Value::from(record.terrain_rdem.clone()));
    Manifest::parse(&serde_json::to_vec(&serde_json::Value::Object(map)).unwrap()).unwrap()
}

/// The dataset of a fusion answers the same request again, at height zero too.
#[test]
fn repeated_fusions_find_their_dataset() {
    for target in [0u16, 75] {
        let mut run = grounded(target);
        run.take_dataset(Ok(None), false, false);
        assert_eq!(run.step(), FusionStep::Merge);
        run.take_layers(Ok(merged(target, "then")));
        assert_eq!(run.step(), FusionStep::Store);
        let names: Vec<&str> = run.files().iter().map(|f| f.name.as_str()).collect();
        assert!(required_files(target).iter().all(|name| names.contains(&name.as_str())));
        run.take_stored(true);
        assert_eq!(run.step(), FusionStep::WriteManifest);
        let record = run.record("2026-09-08".to_owned());
        assert_eq!(record.radar_ids, vec![3, 9]);
        assert_eq!(record.terrain_rdem, run.terrain_file());
        run.take_manifest(Ok(()), "2026-09-08");
        assert_eq!(run.step(), FusionStep::Created);
        let id = run.fusion_id();
        let created = run.into_response().unwrap();
        let mut again = grounded(target);
        again.take_dataset(Ok(Some(stored_manifest(&record))), true, true);
        assert_eq!(again.step(), FusionStep::Reused);
        let reused = again.into_response().unwrap();
        assert_eq!((reused.fusion_id, reused.target_agl_m), (id, target));
        assert_eq!(reused.dataset_url, created.dataset_url);
        assert_eq!((reused.width, reused.height), (created.width, created.height));
        assert_eq!(reused.selected_radars, vec![9, 3]);
    }
}

#[test]
fn fusions_are_refused_in_order() {
    let run = FusionRun::new(fusion_request(&[1, 1, 2], 0), 2);
    assert_eq!(fusion_refusal(&run), Some((400, "radar count")));
    let run = FusionRun::new(fusion_request(&[1, 1], 0), 2);
    assert_eq!(fusion_refusal(&run), Some((400, "duplicate radar id")));
    let mut run = FusionRun::new(fusion_request(&[1, 2], 0), 2);
    run.take_listing(Some(&[candidate(&heights_of(1, "a"), Some(1))]));
    assert_eq!(fusion_refusal(&run), Some((404, "coverage not found")));
    let mut run = FusionRun::new(fusion_request(&[1], 0), 2);
    run.take_listing(None);
    assert_eq!(fusion_refusal(&run), Some((404, "coverage not found")));
    let mut run = FusionRun::new(fusion_request(&[1], 0), 2);
    run.take_listing(Some(&[candidate(&heights_of(1, "a"), Some(1))]));
    run.take_headers(Err(FusionFault::InvalidCoverage));
    assert_eq!(fusion_refusal(&run), Some((422, "invalid coverage")));
    let mut run = FusionRun::new(fusion_request(&[1], 0), 2);
    run.take_listing(Some(&[candidate(&heights_of(1, "a"), Some(1))]));
    run.take_headers(Ok(vec![vec![]]));
    run.take_terrain(None);
    assert_eq!(fusion_refusal(&run), Some((422, "terrain coverage missing")));
    let mut run = grounded(30);
    run.take_dataset(Err(FusionFault::DatasetCache), false, false);
    assert_eq!(fusion_refusal(&run), Some((500, "dataset cache failed")));
    let mut run = grounded(30);
    run.take_dataset(Ok(None), false, false);
    run.take_layers(Err(FusionFault::IncompatibleLayers));
    assert_eq!(fusion_refusal(&run), Some((422, "coverage layers are incompatible")));
    let mut run = grounded(30);
    run.take_dataset(Ok(None), false, false);
    run.take_layers(Ok(merged(30, "later")));
    run.take_stored(true);
    assert_eq!(fusion_refusal(&run), Some((422, "terrain grid is incompatible")));
    let mut run = grounded(30);
    run.take_dataset(Ok(None), false, false);
    run.take_layers(Ok(merged(30, "then")));
    run.take_stored(false);
    assert_eq!(fusion_refusal(&run), Some((500, "dataset storage failed")));
    let mut empty = FusionRun::new(fusion_request(&[], 5), 2);
    empty.take_listing(None);
    empty.take_headers(Ok(vec![]));
    assert_eq!(empty.step(), FusionStep::ReadDataset);
    assert_eq!(empty.terrain_file(), None);
}

#[test]
fn profiles_are_refused_in_order() {
    let mut registry = RadarRegistry::new();
    registry
        .create_radar(Radar {
            id: 7,
            name: "r".to_owned(),
            latitude: bits(43.0),
            longitude: bits(6.0),
            antenna_agl_m: bits(10.0),
            range_m: bits(1000.0),
            active: true,
        })
        .unwrap();
    let run = |id, lat: f64| ProfileRun::new(&registry, id, bits(lat), bits(6.0));
    assert_eq!(run(8, 95.0).step(), ProfileStep::Refused(ProfileFault::UnknownRadar));
    assert_eq!(run(7, 95.0).step(), ProfileStep::Refused(ProfileFault::Target));
    let mut lost = run(7, 43.0);
    assert_eq!(lost.step(), ProfileStep::Project);
    lost.take_distance(None);
    assert_eq!(lost.step(), ProfileStep::Refused(ProfileFault::Projection));
    let mut far = run(7, 43.0);
    far.take_distance(Some(bits(1000.5)));
    assert_eq!(far.step(), ProfileStep::Refused(ProfileFault::OutOfRange));
    let mut near = run(7, 43.0);
    near.take_distance(Some(bits(1000.0)));
    for step in [
        ProfileStep::Tiles,
        ProfileStep::Terrain,
        ProfileStep::Path,
        ProfileStep::Grid,
        ProfileStep::Compute,
    ] {
        assert_eq!(near.step(), step);
        near.advance(None);
    }
    assert_eq!(near.step(), ProfileStep::Done);
    assert_eq!(near.radar().map(|r| r.id), Some(7));
    let mut failing = run(7, 43.0);
    failing.take_distance(Some(bits(10.0)));
    failing.advance(None);
    failing.advance(Some(ProfileFault::TerrainPreparation));
    assert_eq!(failing.step(), ProfileStep::Refused(ProfileFault::TerrainPreparation));
}
