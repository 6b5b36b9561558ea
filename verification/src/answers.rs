//! What a refused or failed request is answered, stage by stage.
use crate::api::{public_error, ApiError};
use vstd::prelude::*;

verus! {

/// Where a profile request can fail.
#[derive(Clone, Copy, Debug, PartialEq, Eq, Structural)]
pub enum ProfileFault {
    UnknownRadar,
    Target,
    Projection,
    OutOfRange,
    TerrainExtent,
    TerrainPreparation,
    PathProjection,
    PathTerrain,
    Grid,
    Computation,
}

impl ProfileFault {
    pub open spec fn spec_answer(self) -> (u16, Seq<char>) {
        match self {
            ProfileFault::UnknownRadar => (404, "radar not found"@),
            ProfileFault::Target => (400, "target coordinates"@),
            ProfileFault::Projection => (400, "projection"@),
            ProfileFault::OutOfRange => (400, "target outside radar range"@),
            ProfileFault::TerrainExtent => (400, "terrain extent"@),
            ProfileFault::TerrainPreparation => (503, "terrain preparation failed"@),
            ProfileFault::PathProjection => (422, "profile projection failed"@),
            ProfileFault::PathTerrain => (503, "profile terrain missing"@),
            ProfileFault::Grid => (500, "profile grid failed"@),
            ProfileFault::Computation => (422, "profile computation failed"@),
        }
    }

    pub fn answer(self) -> (error: ApiError)
        ensures
            (error.status, error.message@) == self.spec_answer(),
    {
        match self {
            ProfileFault::UnknownRadar => public_error(404, "radar not found"),
            ProfileFault::Target => public_error(400, "target coordinates"),
            ProfileFault::Projection => public_error(400, "projection"),
            ProfileFault::OutOfRange => public_error(400, "target outside radar range"),
            ProfileFault::TerrainExtent => public_error(400, "terrain extent"),
            ProfileFault::TerrainPreparation => public_error(503, "terrain preparation failed"),
            ProfileFault::PathProjection => public_error(422, "profile projection failed"),
            ProfileFault::PathTerrain => public_error(503, "profile terrain missing"),
            ProfileFault::Grid => public_error(500, "profile grid failed"),
            ProfileFault::Computation => public_error(422, "profile computation failed"),
        }
    }
}

/// Where a fusion request can fail, besides its selection.
#[derive(Clone, Copy, Debug, PartialEq, Eq, Structural)]
pub enum FusionFault {
    CoverageNotFound,
    InvalidCoverage,
    Fingerprint,
    TerrainMissing,
    TerrainPath,
    DatasetCache,
    InvalidDatasetCache,
    Worker,
    IncompatibleLayers,
    Storage,
    Manifest,
}

impl FusionFault {
    pub open spec fn spec_answer(self) -> (u16, Seq<char>) {
        match self {
            FusionFault::CoverageNotFound => (404, "coverage not found"@),
            FusionFault::InvalidCoverage => (422, "invalid coverage"@),
            FusionFault::Fingerprint => (500, "fusion fingerprint failed"@),
            FusionFault::TerrainMissing => (422, "terrain coverage missing"@),
            FusionFault::TerrainPath => (500, "terrain path failed"@),
            FusionFault::DatasetCache => (500, "dataset cache failed"@),
            FusionFault::InvalidDatasetCache => (500, "invalid dataset cache"@),
            FusionFault::Worker => (500, "fusion worker failed"@),
            FusionFault::IncompatibleLayers => (422, "coverage layers are incompatible"@),
            FusionFault::Storage => (500, "dataset storage failed"@),
            FusionFault::Manifest => (500, "manifest failed"@),
        }
    }

    pub fn answer(self) -> (error: ApiError)
        ensures
            (error.status, error.message@) == self.spec_answer(),
    {
        match self {
            FusionFault::CoverageNotFound => public_error(404, "coverage not found"),
            FusionFault::InvalidCoverage => public_error(422, "invalid coverage"),
            FusionFault::Fingerprint => public_error(500, "fusion fingerprint failed"),
            FusionFault::TerrainMissing => public_error(422, "terrain coverage missing"),
            FusionFault::TerrainPath => public_error(500, "terrain path failed"),
            FusionFault::DatasetCache => public_error(500, "dataset cache failed"),
            FusionFault::InvalidDatasetCache => public_error(500, "invalid dataset cache"),
            FusionFault::Worker => public_error(500, "fusion worker failed"),
            FusionFault::IncompatibleLayers => public_error(422, "coverage layers are incompatible"),
            FusionFault::Storage => public_error(500, "dataset storage failed"),
            FusionFault::Manifest => public_error(500, "manifest failed"),
        }
    }
}

/// Where the delivery of a tile or a sample can fail once it is located.
#[derive(Clone, Copy, Debug, PartialEq, Eq, Structural)]
pub enum TileFault {
    Cache,
    Worker,
    Generation,
    SampleWorker,
    SampleRead,
    Response,
}

impl TileFault {
    pub open spec fn spec_answer(self) -> (u16, Seq<char>) {
        match self {
            TileFault::Cache => (500, "tile cache failed"@),
            TileFault::Worker => (500, "tile worker failed"@),
            TileFault::Generation => (500, "tile generation failed"@),
            TileFault::SampleWorker => (500, "sample worker failed"@),
            TileFault::SampleRead => (500, "sample read failed"@),
            TileFault::Response => (500, "response failed"@),
        }
    }

    pub fn answer(self) -> (error: ApiError)
        ensures
            (error.status, error.message@) == self.spec_answer(),
    {
        match self {
            TileFault::Cache => public_error(500, "tile cache failed"),
            TileFault::Worker => public_error(500, "tile worker failed"),
            TileFault::Generation => public_error(500, "tile generation failed"),
            TileFault::SampleWorker => public_error(500, "sample worker failed"),
            TileFault::SampleRead => public_error(500, "sample read failed"),
            TileFault::Response => public_error(500, "response failed"),
        }
    }
}

/// Where the execution of a job can fail. The message is what its status says.
#[derive(Clone, Copy, Debug, PartialEq, Eq, Structural)]
pub enum JobFault {
    ResultStorage,
    Fingerprint,
    ProjectionSetup,
    RadarProjection,
    TerrainExtent,
    TerrainPreparation,
    CommonGrid,
    RadarEncoding,
    GridWidth,
    GridHeight,
    Terrain,
    TerrainGrid,
    LineOfSight,
    Worker,
    Visibility,
    MinimumHeight,
    FileName,
    CachePath,
    CachePreparation,
    CacheEncoding,
    CacheStorage,
}

impl JobFault {
    pub open spec fn spec_message(self) -> Seq<char> {
        match self {
            JobFault::ResultStorage => "cannot prepare result storage"@,
            JobFault::Fingerprint => "cannot fingerprint coverage request"@,
            JobFault::ProjectionSetup => "projection setup failed"@,
            JobFault::RadarProjection => "radar projection failed"@,
            JobFault::TerrainExtent => "invalid terrain extent"@,
            JobFault::TerrainPreparation => "terrain preparation failed"@,
            JobFault::CommonGrid => "common grid exceeds limits or cannot be projected"@,
            JobFault::RadarEncoding => "radar serialization failed"@,
            JobFault::GridWidth => "grid width overflow"@,
            JobFault::GridHeight => "grid height overflow"@,
            JobFault::Terrain => "cannot persist terrain elevations"@,
            JobFault::TerrainGrid => "invalid metric terrain grid"@,
            JobFault::LineOfSight => "LOS computation failed"@,
            JobFault::Worker => "LOS worker failed"@,
            JobFault::Visibility => "cannot persist visibility"@,
            JobFault::MinimumHeight => "cannot persist minimum height"@,
            JobFault::FileName => "invalid result filename"@,
            JobFault::CachePath => "invalid job cache path"@,
            JobFault::CachePreparation => "cannot prepare job cache"@,
            JobFault::CacheEncoding => "cannot serialize job cache"@,
            JobFault::CacheStorage => "cannot persist job cache"@,
        }
    }

    pub fn message(self) -> (text: &'static str)
        ensures
            text@ == self.spec_message(),
    {
        match self {
            JobFault::ResultStorage => "cannot prepare result storage",
            JobFault::Fingerprint => "cannot fingerprint coverage request",
            JobFault::ProjectionSetup => "projection setup failed",
            JobFault::RadarProjection => "radar projection failed",
            JobFault::TerrainExtent => "invalid terrain extent",
            JobFault::TerrainPreparation => "terrain preparation failed",
            JobFault::CommonGrid => "common grid exceeds limits or cannot be projected",
            JobFault::RadarEncoding => "radar serialization failed",
            JobFault::GridWidth => "grid width overflow",
            JobFault::GridHeight => "grid height overflow",
            JobFault::Terrain => "cannot persist terrain elevations",
            JobFault::TerrainGrid => "invalid metric terrain grid",
            JobFault::LineOfSight => "LOS computation failed",
            JobFault::Worker => "LOS worker failed",
            JobFault::Visibility => "cannot persist visibility",
            JobFault::MinimumHeight => "cannot persist minimum height",
            JobFault::FileName => "invalid result filename",
            JobFault::CachePath => "invalid job cache path",
            JobFault::CachePreparation => "cannot prepare job cache",
            JobFault::CacheEncoding => "cannot serialize job cache",
            JobFault::CacheStorage => "cannot persist job cache",
        }
    }
}

} // verus!
