//! Terrain line-of-sight coverage: grids, bitsets, rings, storage envelopes,
//! hexagonal export, map tiles and the job lifecycle around them.
pub mod angle;
pub mod answers;
pub mod api;
pub mod bitset;
pub mod bytes;
pub mod digest;
pub mod float;
pub mod fusion;
pub mod fusion_run;
pub mod h3;
pub mod height_fusion;
pub mod jobs;
pub mod los;
pub mod manifest;
pub mod parallel;
pub mod profile;
pub mod profile_run;
pub mod raster;
pub mod rings;
pub mod sector;
pub mod srtm;
pub mod storage;
pub mod terrain;
pub mod text;
pub mod traversal;
pub mod wmts;
