//! The course of a fusion request: what is asked for in turn, and which refusal
//! comes first.
use crate::answers::FusionFault;
use crate::api::{says, spec_id_text, ApiError, FusionRequest};
use crate::digest::blake3_digest;
use crate::fusion::{be_value, check_selection, check_terrain, dataset_file_views, dataset_files,
    file_view, fusion_signature, has_duplicates, id_bytes, is_heights_of, is_latest_heights,
    latest_rhgt, layer_heights, same_metadata, signed_bytes, strictly_rising, uuid_from_hash,
    Candidate, CountLayer, DatasetFile};
use crate::manifest::{fusion_response, is_response, low32, says_record,
    DatasetRecord, FusionResponse, Manifest};
use crate::storage::{name_texts, Metadata};
use crate::text::{law_stripped_text_is_put_together, strip_suffix, without_prefix, without_suffix};
use vstd::prelude::*;
use vstd::string::*;

verus! {

/// What a fusion request asks for next.
#[derive(Clone, Copy, Debug, PartialEq, Eq)]
pub enum FusionStep {
    /// List the result directory.
    Find,
    /// Validate the height files, and encode their headers.
    Validate,
    /// Validate the terrain under the first of them.
    Terrain,
    /// Read the manifest of the dataset, if there is one.
    ReadDataset,
    /// Merge the height files.
    Merge,
    /// Write the files of the dataset.
    Store,
    /// Write its manifest.
    WriteManifest,
    /// Nothing: the stored dataset answers the request.
    Reused,
    /// Nothing: a new dataset answers the request.
    Created,
    Refused(ApiError),
}

/// What the height files were merged into.
pub struct Merged {
    pub metadata: Option<Metadata>,
    pub layers: Vec<CountLayer>,
    pub minimum: Vec<u16>,
}

/// Where a fusion request stands.
pub struct FusionView {
    pub request: FusionRequest,
    /// The selected radars in order.
    pub selection: Seq<u128>,
    /// Their height files.
    pub sources: Seq<Seq<char>>,
    pub fusion_id: u128,
    /// What the terrain under the first source says.
    pub terrain: Option<Metadata>,
    /// What the merged files say.
    pub metadata: Option<Metadata>,
    pub files: Seq<(Seq<char>, Seq<u8>)>,
    pub response: Option<FusionResponse>,
    pub step: FusionStep,
}

/// A request comes to a refusal, and stays otherwise as it was.
pub open spec fn refuses(
    after: FusionView,
    before: FusionView,
    refusal: (u16, Seq<char>),
) -> bool {
    &&& after == (FusionView { step: after.step, ..before })
    &&& after.step matches FusionStep::Refused(e) && (e.status, e.message@) == refusal
}

/// The ordered form of a selection without repetition.
pub open spec fn is_selection(ids: Seq<u128>, selection: Seq<u128>) -> bool {
    &&& !has_duplicates(ids)
    &&& strictly_rising(selection)
    &&& selection.len() == ids.len()
    &&& forall|id: u128| #[trigger] selection.contains(id) <==> ids.contains(id)
}

/// The files of a directory; none where it cannot be listed.
pub open spec fn listed(listing: Option<&[Candidate]>) -> Seq<Candidate> {
    match listing {
        Some(candidates) => candidates@,
        None => Seq::empty(),
    }
}

/// A radar has a height file.
pub open spec fn has_heights(candidates: Seq<Candidate>, radar: u128) -> bool {
    exists|i: int| 0 <= i < candidates.len() && is_heights_of(#[trigger] candidates[i], radar)
}

/// A name is that of the latest height file of a radar.
pub open spec fn is_source(candidates: Seq<Candidate>, radar: u128, name: Seq<char>) -> bool {
    exists|l: int| #[trigger]
        is_latest_heights(candidates, radar, Some(l)) && candidates[l].name@ == name
}

/// The identifier of the dataset of some headers at a target.
pub open spec fn dataset_id(target: u16, headers: Seq<Vec<u8>>) -> nat {
    be_value(id_bytes(blake3_digest(signed_bytes(target, headers))))
}

/// The terrain file beside a height file.
pub open spec fn terrain_name(source: Seq<char>) -> Seq<char> {
    match without_suffix(source, ".rhgt"@) {
        Some(base) => base + ".rdem"@,
        None => source + ".rdem"@,
    }
}

/// A fusion request on its course.
pub struct FusionRun {
    request: FusionRequest,
    selection: Vec<u128>,
    sources: Vec<String>,
    fusion_id: u128,
    terrain: Option<Metadata>,
    metadata: Option<Metadata>,
    files: Vec<DatasetFile>,
    response: Option<FusionResponse>,
    step: FusionStep,
}

impl View for FusionRun {
    type V = FusionView;

    closed spec fn view(&self) -> FusionView {
        FusionView {
            request: self.request,
            selection: self.selection@,
            sources: name_texts(self.sources@),
            fusion_id: self.fusion_id,
            terrain: self.terrain,
            metadata: self.metadata,
            files: self.files@.map_values(|f: DatasetFile| file_view(f)),
            response: self.response,
            step: self.step,
        }
    }
}

impl FusionView {
    /// After the selection is accepted it has its ordered form; after its files
    /// are found every radar has one; terrain is known for every selection that
    /// is not empty; a manifest is only written for terrain that fits.
    pub open spec fn wf(self) -> bool {
        let accepted = self.step !is Refused;
        let found = accepted && self.step !is Find;
        let grounded = found && self.step !is Validate && self.step !is Terrain;
        &&& accepted ==> is_selection(self.request.radar_ids@, self.selection)
        &&& found ==> self.sources.len() == self.selection.len()
        &&& self.step is Terrain ==> self.selection.len() > 0
        &&& grounded ==> (self.terrain is Some <==> self.selection.len() > 0)
        &&& self.step is WriteManifest || self.step is Created ==> same_metadata(
            self.metadata,
            self.terrain,
        )
        &&& self.step is Created || self.step is Reused ==> self.response is Some
    }

    /// The width and height that the merged files have.
    pub open spec fn size(self) -> (u32, u32) {
        match self.metadata {
            Some(m) => (m.width, m.height),
            None => (0, 0),
        }
    }
}

impl FusionRun {
    /// Takes in a request. Too many radars are refused first, then repeated ones.
    pub fn new(request: FusionRequest, max_radars: usize) -> (run: Self)
        ensures
            run@.wf(),
            run@.request == request,
            run@.response is None,
            if request.radar_ids@.len() > max_radars {
                run@.step matches FusionStep::Refused(e) && says(e, 400, "radar count")
            } else if has_duplicates(request.radar_ids@) {
                run@.step matches FusionStep::Refused(e) && says(e, 400, "duplicate radar id")
            } else {
                run@.step is Find && is_selection(request.radar_ids@, run@.selection)
            },
    {
        let (selection, step) = match check_selection(request.radar_ids.as_slice(), max_radars) {
            Ok(selection) => {
                assert(selection@.len() == request.radar_ids@.len());
                (selection, FusionStep::Find)
            },
            Err(error) => (Vec::new(), FusionStep::Refused(error)),
        };
        FusionRun {
            request,
            selection,
            sources: Vec::new(),
            fusion_id: 0,
            terrain: None,
            metadata: None,
            files: Vec::new(),
            response: None,
            step,
        }
    }

    pub fn step(&self) -> (step: FusionStep)
        ensures
            step == self@.step,
    {
        self.step
    }

    pub fn request(&self) -> (request: &FusionRequest)
        ensures
            *request == self@.request,
    {
        &self.request
    }

    pub fn sources(&self) -> (sources: &[String])
        ensures
            name_texts(sources@) == self@.sources,
    {
        self.sources.as_slice()
    }

    pub fn fusion_id(&self) -> (id: u128)
        ensures
            id == self@.fusion_id,
    {
        self.fusion_id
    }

    pub fn files(&self) -> (files: &[DatasetFile])
        ensures
            files@.map_values(|f: DatasetFile| file_view(f)) == self@.files,
    {
        self.files.as_slice()
    }

    pub fn into_response(self) -> (response: Option<FusionResponse>)
        ensures
            response == self@.response,
    {
        self.response
    }

    /// Takes in the files of the result directory. A radar without heights is
    /// refused.
    pub fn take_listing(&mut self, listing: Option<&[Candidate]>)
        requires
            old(self)@.wf(),
            old(self)@.step is Find,
        ensures
            final(self)@.wf(),
            if forall|i: int|
                0 <= i < old(self)@.selection.len() ==> has_heights(
                    listed(listing),
                    #[trigger] old(self)@.selection[i],
                ) {
                &&& final(self)@ == (FusionView {
                    step: FusionStep::Validate,
                    sources: final(self)@.sources,
                    ..old(self)@
                })
                &&& forall|i: int|
                    0 <= i < old(self)@.selection.len() ==> is_source(
                        listed(listing),
                        #[trigger] old(self)@.selection[i],
                        final(self)@.sources[i],
                    )
            } else {
                refuses(final(self)@, old(self)@, FusionFault::CoverageNotFound.spec_answer())
            },
    {
        let mut sources: Vec<String> = Vec::new();
        let mut i: usize = 0;
        while i < self.selection.len()
            invariant
                i <= self.selection@.len(),
                *self == *old(self),
                old(self)@.wf(),
                old(self)@.step is Find,
                sources@.len() == i,
                forall|j: int|
                    0 <= j < i ==> has_heights(
                        listed(listing),
                        #[trigger] self.selection@[j],
                    ) && is_source(listed(listing), self.selection@[j], sources@[j]@),
            decreases self.selection@.len() - i,
        {
            let found = match listing {
                Some(candidates) => match latest_rhgt(candidates, self.selection[i]) {
                    Some(l) => {
                        assert(is_latest_heights(
                            candidates@,
                            self.selection@[i as int],
                            Some(l as int),
                        ));
                        assert(is_heights_of(candidates@[l as int], self.selection@[i as int]));
                        Some(candidates[l].name.clone())
                    },
                    None => None,
                },
                None => None,
            };
            match found {
                Some(name) => {
                    sources.push(name);
                },
                None => {
                    assert(!has_heights(listed(listing), old(self)@.selection[i as int]));
                    self.step = FusionStep::Refused(FusionFault::CoverageNotFound.answer());
                    return;
                },
            }
            i += 1;
        }
        self.sources = sources;
        self.step = FusionStep::Validate;
        proof {
            assert forall|j: int| 0 <= j < old(self)@.selection.len() implies is_source(
                listed(listing),
                #[trigger] old(self)@.selection[j],
                self@.sources[j],
            ) && has_heights(listed(listing), old(self)@.selection[j]) by {
                assert(has_heights(listed(listing), self.selection@[j]));
            }
        }
    }

    /// Takes in the encoded headers of the sources, which fix the dataset.
    pub fn take_headers(&mut self, headers: Result<Vec<Vec<u8>>, FusionFault>)
        requires
            old(self)@.wf(),
            old(self)@.step is Validate,
            match headers {
                Ok(h) => h@.len() == old(self)@.sources.len(),
                Err(fault) => fault is InvalidCoverage || fault is Fingerprint,
            },
        ensures
            final(self)@.wf(),
            match headers {
                Ok(h) => final(self)@ == (FusionView {
                    fusion_id: dataset_id(old(self)@.request.target_agl_m, h@) as u128,
                    step: if old(self)@.selection.len() > 0 {
                        FusionStep::Terrain
                    } else {
                        FusionStep::ReadDataset
                    },
                    terrain: None,
                    ..old(self)@
                }),
                Err(fault) => refuses(final(self)@, old(self)@, fault.spec_answer()),
            },
    {
        match headers {
            Ok(headers) => {
                let signature = fusion_signature(self.request.target_agl_m, headers.as_slice());
                self.fusion_id = uuid_from_hash(&signature);
                self.terrain = None;
                self.step = if self.selection.len() > 0 {
                    FusionStep::Terrain
                } else {
                    FusionStep::ReadDataset
                };
            },
            Err(fault) => {
                self.step = FusionStep::Refused(fault.answer());
            },
        }
    }

    /// The file of the terrain under the first source.
    pub fn terrain_file(&self) -> (name: Option<String>)
        ensures
            match name {
                Some(n) => self@.sources.len() > 0 && n@ == terrain_name(self@.sources[0]),
                None => self@.sources.len() == 0,
            },
    {
        if self.sources.len() == 0 {
            return None;
        }
        let mut name = match strip_suffix(self.sources[0].as_str(), ".rhgt") {
            Some(base) => base,
            None => self.sources[0].clone(),
        };
        name.append(".rdem");
        Some(name)
    }

    /// Takes in what the terrain under the first source says, if it is intact.
    pub fn take_terrain(&mut self, stored: Option<Metadata>)
        requires
            old(self)@.wf(),
            old(self)@.step is Terrain,
        ensures
            final(self)@.wf(),
            if stored is Some {
                final(self)@ == (FusionView {
                    terrain: stored,
                    step: FusionStep::ReadDataset,
                    ..old(self)@
                })
            } else {
                refuses(final(self)@, old(self)@, FusionFault::TerrainMissing.spec_answer())
            },
    {
        if stored.is_some() {
            self.terrain = stored;
            self.step = FusionStep::ReadDataset;
        } else {
            self.step = FusionStep::Refused(FusionFault::TerrainMissing.answer());
        }
    }

    /// Takes in the manifest of the dataset, if there is one, and whether its
    /// files are there. A complete dataset answers the request.
    pub fn take_dataset(
        &mut self,
        stored: Result<Option<Manifest>, FusionFault>,
        terrain_stored: bool,
        layers_stored: bool,
    )
        requires
            old(self)@.wf(),
            old(self)@.step is ReadDataset,
            stored matches Err(fault) ==> fault is DatasetCache || fault is InvalidDatasetCache,
        ensures
            final(self)@.wf(),
            match stored {
                Err(fault) => refuses(final(self)@, old(self)@, fault.spec_answer()),
                Ok(None) => final(self)@ == (FusionView { step: FusionStep::Merge, ..old(self)@ }),
                Ok(Some(m)) => if !m.is_complete(
                    &old(self)@.request,
                    terrain_stored,
                    layers_stored,
                ) {
                    final(self)@ == (FusionView { step: FusionStep::Merge, ..old(self)@ })
                } else {
                    match m.spec_date() {
                        Some(date) => {
                            &&& final(self)@ == (FusionView {
                                step: FusionStep::Reused,
                                response: final(self)@.response,
                                ..old(self)@
                            })
                            &&& final(self)@.response matches Some(r) && is_response(
                                r,
                                old(self)@.fusion_id,
                                &old(self)@.request,
                                low32(m.spec_width()),
                                low32(m.spec_height()),
                                date,
                            )
                        },
                        None => refuses(
                            final(self)@,
                            old(self)@,
                            FusionFault::InvalidDatasetCache.spec_answer(),
                        ),
                    }
                },
            },
    {
        let manifest = match stored {
            Err(fault) => {
                self.step = FusionStep::Refused(fault.answer());
                return;
            },
            Ok(None) => {
                self.step = FusionStep::Merge;
                return;
            },
            Ok(Some(manifest)) => manifest,
        };
        match manifest.cached_fusion_response(
            self.fusion_id,
            &self.request,
            terrain_stored,
            layers_stored,
        ) {
            Ok(Some(response)) => {
                self.response = Some(response);
                self.step = FusionStep::Reused;
            },
            Ok(None) => {
                self.step = FusionStep::Merge;
            },
            Err(error) => {
                self.step = FusionStep::Refused(error);
            },
        }
    }

    /// Takes in what the sources were merged into, which gives the files of the
    /// dataset.
    pub fn take_layers(&mut self, merged: Result<Merged, FusionFault>)
        requires
            old(self)@.wf(),
            old(self)@.step is Merge,
            match merged {
                Ok(m) => m.layers@.map_values(|l: CountLayer| l.height) == layer_heights(
                    old(self)@.request.target_agl_m,
                ),
                Err(fault) => fault is Worker || fault is IncompatibleLayers,
            },
        ensures
            final(self)@.wf(),
            match merged {
                Ok(m) => final(self)@ == (FusionView {
                    metadata: m.metadata,
                    files: dataset_file_views(
                        m.layers@,
                        old(self)@.request.target_agl_m,
                        m.minimum@,
                    ),
                    step: FusionStep::Store,
                    ..old(self)@
                }),
                Err(fault) => refuses(final(self)@, old(self)@, fault.spec_answer()),
            },
    {
        match merged {
            Ok(merged) => {
                self.files = dataset_files(
                    merged.layers.as_slice(),
                    self.request.target_agl_m,
                    merged.minimum.as_slice(),
                );
                self.metadata = merged.metadata;
                self.step = FusionStep::Store;
            },
            Err(fault) => {
                self.step = FusionStep::Refused(fault.answer());
            },
        }
    }

    /// Takes in whether the files were written. Terrain that was not stored with
    /// the fused coverages is refused before a manifest is written.
    pub fn take_stored(&mut self, stored: bool)
        requires
            old(self)@.wf(),
            old(self)@.step is Store,
        ensures
            final(self)@.wf(),
            if !stored {
                refuses(final(self)@, old(self)@, FusionFault::Storage.spec_answer())
            } else if same_metadata(old(self)@.metadata, old(self)@.terrain) {
                final(self)@ == (FusionView { step: FusionStep::WriteManifest, ..old(self)@ })
            } else {
                refuses(final(self)@, old(self)@, (422, "terrain grid is incompatible"@))
            },
    {
        if !stored {
            self.step = FusionStep::Refused(FusionFault::Storage.answer());
            return;
        }
        self.step = match check_terrain(&self.metadata, &self.terrain) {
            Ok(()) => FusionStep::WriteManifest,
            Err(error) => FusionStep::Refused(error),
        };
    }

    /// What the manifest of the dataset has to say.
    pub fn record(&self, date: String) -> (record: DatasetRecord)
        requires
            self@.wf(),
            self@.step is WriteManifest,
        ensures
            is_record_of(self@, record),
            record.date == date,
    {
        let mut radar_ids: Vec<u128> = Vec::new();
        radar_ids.extend_from_slice(self.selection.as_slice());
        assert(radar_ids@ =~= self.selection@);
        let metadata = match &self.metadata {
            Some(metadata) => Some(metadata.clone()),
            None => None,
        };
        DatasetRecord {
            dataset_id: self.fusion_id,
            date,
            target_agl_m: self.request.target_agl_m,
            radar_ids,
            metadata,
            terrain_rdem: self.terrain_file(),
        }
    }

    /// Takes in whether the manifest was written.
    pub fn take_manifest(&mut self, written: Result<(), FusionFault>, date: &str)
        requires
            old(self)@.wf(),
            old(self)@.step is WriteManifest,
            written matches Err(fault) ==> fault is Manifest || fault is Storage,
        ensures
            final(self)@.wf(),
            match written {
                Ok(_) => {
                    &&& final(self)@ == (FusionView {
                        step: FusionStep::Created,
                        response: final(self)@.response,
                        ..old(self)@
                    })
                    &&& final(self)@.response matches Some(r) && is_response(
                        r,
                        old(self)@.fusion_id,
                        &old(self)@.request,
                        old(self)@.size().0,
                        old(self)@.size().1,
                        date@,
                    )
                },
                Err(fault) => refuses(final(self)@, old(self)@, fault.spec_answer()),
            },
    {
        match written {
            Ok(()) => {
                let (width, height): (u32, u32) = match &self.metadata {
                    Some(metadata) => (metadata.width, metadata.height),
                    None => (0, 0),
                };
                self.response = Some(
                    fusion_response(self.fusion_id, &self.request, width, height, date),
                );
                self.step = FusionStep::Created;
            },
            Err(fault) => {
                self.step = FusionStep::Refused(fault.answer());
            },
        }
    }
}

/// `record` is what the manifest of a fused dataset says.
pub open spec fn is_record_of(run: FusionView, record: DatasetRecord) -> bool {
    &&& record.dataset_id == run.fusion_id
    &&& record.target_agl_m == run.request.target_agl_m
    &&& record.radar_ids@ == run.selection
    &&& record.metadata == run.metadata
    &&& match record.terrain_rdem {
        Some(name) => run.sources.len() > 0 && name@ == terrain_name(run.sources[0]),
        None => run.sources.len() == 0,
    }
}

/// The same selection at the same height finds the dataset that was stored for it:
/// a manifest that holds the record of the fusion is complete while its files are
/// there, at height zero too, and answers with the same size and date. Names of a
/// directory have no separator.
pub proof fn law_repeated_fusion_finds_its_dataset(
    run: FusionView,
    record: DatasetRecord,
    manifest: Manifest,
)
    requires
        run.wf(),
        run.step is WriteManifest,
        is_record_of(run, record),
        says_record(manifest.content(), record),
        run.sources.len() > 0 ==> !run.sources[0].contains('/'),
    ensures
        manifest.is_complete(&run.request, true, true),
        manifest.spec_date() == Some(record.date@),
        low32(manifest.spec_width()) == run.size().0,
        low32(manifest.spec_height()) == run.size().1,
        manifest.spec_version() == Some(1u64),
{
    if run.sources.len() > 0 {
        let source = run.sources[0];
        let name = terrain_name(source);
        reveal_strlit(".rdem");
        reveal_strlit(".");
        reveal_strlit("..");
        let base = match without_suffix(source, ".rhgt"@) {
            Some(base) => base,
            None => source,
        };
        assert(name == base + ".rdem"@);
        assert forall|i: int| 0 <= i < name.len() implies #[trigger] name[i] != '/' by {
            if i < base.len() {
                assert(name[i] == source[i]);
                assert(source.contains(source[i]));
            } else {
                assert(name[i] == ".rdem"@[i - base.len()]);
            }
        }
        assert(name.len() > 2);
    }
}

/// The terrain of a radar stands beside its heights, under the same name with
/// another ending.
pub proof fn law_terrain_stands_beside_the_heights(base: Seq<char>)
    ensures
        terrain_name(base + ".rhgt"@) == base + ".rdem"@,
{
    let name = base + ".rhgt"@;
    assert(name.skip(base.len() as int) =~= ".rhgt"@);
    assert(name.take(base.len() as int) =~= base);
}

/// The heights of a radar are taken from its newest file: none that is newer is
/// passed over, and of equally new ones it is the last in the list.
pub proof fn law_newest_heights_are_taken(
    candidates: Seq<Candidate>,
    radar: u128,
    name: Seq<char>,
    i: int,
)
    requires
        is_source(candidates, radar, name),
        0 <= i < candidates.len(),
        is_heights_of(candidates[i], radar),
    ensures
        exists|l: int|
            {
                &&& 0 <= l < candidates.len()
                &&& (#[trigger] candidates[l]).name@ == name
                &&& candidates[l].modified is Some
                &&& candidates[i].modified is Some
                &&& candidates[i].modified->0 <= candidates[l].modified->0
                &&& candidates[i].modified->0 == candidates[l].modified->0 ==> i <= l
            },
{
    let l = choose|l: int| #[trigger]
        is_latest_heights(candidates, radar, Some(l)) && candidates[l].name@ == name;
    assert(candidates[l].name@ == name);
}

/// The files of a radar begin with its identifier and end as height files do.
pub proof fn law_height_files_are_named_for_their_radar(candidate: Candidate, radar: u128)
    ensures
        is_heights_of(candidate, radar) ==> candidate.modified is Some && exists|rest: Seq<char>|
            candidate.name@ == #[trigger] (spec_id_text(radar) + "-"@ + rest),
        is_heights_of(candidate, radar) ==> exists|base: Seq<char>|
            candidate.name@ == #[trigger] (base + ".rhgt"@),
        candidate.modified is Some && (exists|middle: Seq<char>|
            candidate.name@ == #[trigger] (spec_id_text(radar) + "-"@ + middle + ".rhgt"@))
            ==> is_heights_of(candidate, radar),
{
    let start = spec_id_text(radar) + "-"@;
    law_stripped_text_is_put_together(candidate.name@, start);
    law_stripped_text_is_put_together(candidate.name@, ".rhgt"@);
    if is_heights_of(candidate, radar) {
        assert(candidate.name@ == start + without_prefix(candidate.name@, start)->0);
        assert(candidate.name@ == without_suffix(candidate.name@, ".rhgt"@)->0 + ".rhgt"@);
    }
    if exists|middle: Seq<char>|
        candidate.name@ == #[trigger] (spec_id_text(radar) + "-"@ + middle + ".rhgt"@) {
        let middle = choose|middle: Seq<char>|
            candidate.name@ == #[trigger] (spec_id_text(radar) + "-"@ + middle + ".rhgt"@);
        law_stripped_text_is_put_together(middle + ".rhgt"@, start);
        law_stripped_text_is_put_together(start + middle, ".rhgt"@);
        assert(candidate.name@ =~= start + (middle + ".rhgt"@));
        assert(candidate.name@ =~= (start + middle) + ".rhgt"@);
    }
}

/// A record says what was asked for and what came of it.
pub proof fn law_record_is_of_the_run(run: FusionView, record: DatasetRecord)
    requires
        is_record_of(run, record),
    ensures
        record.dataset_id == run.fusion_id,
        record.target_agl_m == run.request.target_agl_m,
        record.radar_ids@ == run.selection,
        record.metadata == run.metadata,
        record.terrain_rdem is Some <==> run.sources.len() > 0,
{
}

} // verus!
