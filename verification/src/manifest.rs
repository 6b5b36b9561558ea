//! Dataset manifests: what the stored JSON of a fused dataset says.
use crate::api::{id_text, public_error, says, spec_id_text, ApiError, FusionRequest};
use crate::storage::Metadata;
use crate::text::{chars_of, decimal, is_digit, lemma_decimal_digits, number_of, same_text,
    without_prefix, without_suffix};
use crate::wmts::{check_dataset_address, is_date, is_levels, layer_source, locate_tile, longer,
    source_of, tile_refusal, TilePlan};
use vstd::arithmetic::power2::pow2;
use vstd::prelude::*;
use vstd::string::*;

verus! {

/// What a JSON value holds, as far as manifests need it. Numbers that are no
/// unsigned integers, lists, booleans and `null` are all `Other`.
pub enum Json {
    Unsigned(u64),
    Text(Seq<char>),
    Object(Map<Seq<char>, Json>),
    Other,
}

/// The value of a key of an object; `Other` where there is none.
pub open spec fn json_member(value: Json, key: Seq<char>) -> Json {
    match value {
        Json::Object(members) => if members.contains_key(key) {
            members[key]
        } else {
            Json::Other
        },
        _ => Json::Other,
    }
}

pub open spec fn json_unsigned(value: Json) -> Option<u64> {
    match value {
        Json::Unsigned(n) => Some(n),
        _ => None,
    }
}

pub open spec fn json_text(value: Json) -> Option<Seq<char>> {
    match value {
        Json::Text(text) => Some(text),
        _ => None,
    }
}

#[verifier::external_type_specification]
#[verifier::external_body]
pub struct ExValue(serde_json::Value);

#[verifier::external_type_specification]
#[verifier::external_body]
pub struct ExJsonError(serde_json::Error);

/// What a JSON value holds.
pub uninterp spec fn json_content(value: serde_json::Value) -> Json;

/// The value that some bytes write as JSON, if they are JSON.
pub uninterp spec fn json_document(bytes: Seq<u8>) -> Option<Json>;

/// `serde_json::from_slice` for a `Value`: the document, or an error where the
/// bytes are no JSON.
#[verifier::external_body]
fn parse_json(bytes: &[u8]) -> (value: Result<serde_json::Value, serde_json::Error>)
    ensures
        value matches Ok(v) ==> json_document(bytes@) == Some(json_content(v)),
        value is Err ==> json_document(bytes@) is None,
{
    serde_json::from_slice(bytes)
}

/// `Value` indexed by a key: the value of that key, or `null` where the value is
/// no object or has no such key.
#[verifier::external_body]
fn member<'a>(value: &'a serde_json::Value, key: &str) -> (found: &'a serde_json::Value)
    ensures
        json_content(*found) == json_member(json_content(*value), key@),
{
    &value[key]
}

/// `Value::as_u64`: the number, where the value is an unsigned integer.
#[verifier::external_body]
fn unsigned(value: &serde_json::Value) -> (number: Option<u64>)
    ensures
        number == json_unsigned(json_content(*value)),
{
    value.as_u64()
}

/// `Value::as_str`: the text, where the value is one.
#[verifier::external_body]
fn text<'a>(value: &'a serde_json::Value) -> (found: Option<&'a str>)
    ensures
        match found {
            Some(t) => json_text(json_content(*value)) == Some(t@),
            None => json_text(json_content(*value)) is None,
        },
{
    value.as_str()
}

/// The manifest of a fused dataset.
pub struct Manifest {
    value: serde_json::Value,
}

/// A name of a file beside others: not empty, without a directory, and neither
/// `.` nor `..`.
pub open spec fn is_plain_name(name: Seq<char>) -> bool {
    &&& name.len() > 0
    &&& !name.contains('/')
    &&& name != "."@
    &&& name != ".."@
}

/// Whether a name is that of a file beside others.
pub fn plain_name(name: &str) -> (b: bool)
    ensures
        b == is_plain_name(name@),
{
    let chars = chars_of(name);
    if chars.len() == 0 || same_text(name, ".") || same_text(name, "..") {
        return false;
    }
    let mut i: usize = 0;
    while i < chars.len()
        invariant
            i <= chars@.len(),
            chars@ == name@,
            forall|j: int| 0 <= j < i ==> #[trigger] name@[j] != '/',
        decreases chars@.len() - i,
    {
        if chars[i] == '/' {
            assert(name@[i as int] == '/');
            return false;
        }
        i += 1;
    }
    true
}

/// The answer to a fusion request.
#[derive(Debug)]
pub struct FusionResponse {
    pub fusion_id: u128,
    pub selected_radars: Vec<u128>,
    pub target_agl_m: u16,
    pub width: u32,
    pub height: u32,
    pub dataset_url: String,
}

/// The address of a dataset's manifest.
pub open spec fn dataset_url_text(fusion_id: u128, date: Seq<char>) -> Seq<char> {
    "/wmts/"@ + spec_id_text(fusion_id) + "/1/"@ + date + "/metadata.json"@
}

pub fn dataset_url(fusion_id: u128, date: &str) -> (url: String)
    ensures
        url@ == dataset_url_text(fusion_id, date@),
{
    let mut url = "/wmts/".to_owned();
    let id = id_text(fusion_id);
    url.append(id.as_str());
    url.append("/1/");
    url.append(date);
    url.append("/metadata.json");
    url
}

/// `response` answers a request for a dataset.
pub open spec fn is_response(
    response: FusionResponse,
    fusion_id: u128,
    request: &FusionRequest,
    width: u32,
    height: u32,
    date: Seq<char>,
) -> bool {
    &&& response.fusion_id == fusion_id
    &&& response.selected_radars@ == request.radar_ids@
    &&& response.target_agl_m == request.target_agl_m
    &&& response.width == width
    &&& response.height == height
    &&& response.dataset_url@ == dataset_url_text(fusion_id, date)
}

/// Answers a fusion request.
pub fn fusion_response(
    fusion_id: u128,
    request: &FusionRequest,
    width: u32,
    height: u32,
    date: &str,
) -> (response: FusionResponse)
    ensures
        is_response(response, fusion_id, request, width, height, date@),
{
    let mut selected_radars: Vec<u128> = Vec::new();
    selected_radars.extend_from_slice(request.radar_ids.as_slice());
    assert(selected_radars@ =~= request.radar_ids@);
    FusionResponse {
        fusion_id,
        selected_radars,
        target_agl_m: request.target_agl_m,
        width,
        height,
        dataset_url: dataset_url(fusion_id, date),
    }
}

/// What the manifest of a dataset says. Its version is 1.
#[derive(Debug)]
pub struct DatasetRecord {
    pub dataset_id: u128,
    pub date: String,
    pub target_agl_m: u16,
    pub radar_ids: Vec<u128>,
    pub metadata: Option<Metadata>,
    pub terrain_rdem: Option<String>,
}

/// A JSON document holds a record, as far as it is read back.
pub open spec fn says_record(content: Json, record: DatasetRecord) -> bool {
    let metadata = json_member(content, "metadata"@);
    &&& json_unsigned(json_member(content, "version"@)) == Some(1u64)
    &&& json_text(json_member(content, "date"@)) == Some(record.date@)
    &&& json_text(json_member(content, "terrain_rdem"@)) == (match record.terrain_rdem {
        Some(name) => Some(name@),
        None => None,
    })
    &&& match record.metadata {
        Some(m) => {
            &&& json_unsigned(json_member(metadata, "width"@)) == Some(m.width as u64)
            &&& json_unsigned(json_member(metadata, "height"@)) == Some(m.height as u64)
            &&& json_text(json_member(metadata, "crs"@)) == Some(m.crs@)
        },
        None => metadata is Other,
    }
}

/// The lowest 32 bits of a number.
pub open spec fn low32(n: u64) -> u32 {
    (n as int % 0x1_0000_0000) as u32
}

impl Manifest {
    /// What the manifest holds.
    pub closed spec fn content(&self) -> Json {
        json_content(self.value)
    }

    /// The width of the raster; zero where the manifest names none.
    pub open spec fn spec_width(&self) -> u64 {
        match json_unsigned(json_member(json_member(self.content(), "metadata"@), "width"@)) {
            Some(n) => n,
            None => 0,
        }
    }

    /// The height of the raster; zero where the manifest names none.
    pub open spec fn spec_height(&self) -> u64 {
        match json_unsigned(json_member(json_member(self.content(), "metadata"@), "height"@)) {
            Some(n) => n,
            None => 0,
        }
    }

    pub open spec fn spec_terrain_file(&self) -> Option<Seq<char>> {
        json_text(json_member(self.content(), "terrain_rdem"@))
    }

    pub open spec fn spec_date(&self) -> Option<Seq<char>> {
        json_text(json_member(self.content(), "date"@))
    }

    pub open spec fn spec_version(&self) -> Option<u64> {
        json_unsigned(json_member(self.content(), "version"@))
    }

    /// The coordinate system of the raster.
    pub open spec fn spec_crs(&self) -> Seq<char> {
        match json_text(json_member(json_member(self.content(), "metadata"@), "crs"@)) {
            Some(crs) => crs,
            None => "local metric"@,
        }
    }

    pub fn parse(bytes: &[u8]) -> (manifest: Result<Self, ApiError>)
        ensures
            match manifest {
                Ok(m) => json_document(bytes@) == Some(m.content()),
                Err(e) => json_document(bytes@) is None && says(e, 500, "invalid dataset"),
            },
    {
        match parse_json(bytes) {
            Ok(value) => Ok(Manifest { value }),
            Err(_) => Err(public_error(500, "invalid dataset")),
        }
    }

    pub fn width(&self) -> (n: u64)
        ensures
            n == self.spec_width(),
    {
        match unsigned(member(member(&self.value, "metadata"), "width")) {
            Some(n) => n,
            None => 0,
        }
    }

    pub fn height(&self) -> (n: u64)
        ensures
            n == self.spec_height(),
    {
        match unsigned(member(member(&self.value, "metadata"), "height")) {
            Some(n) => n,
            None => 0,
        }
    }

    pub fn crs(&self) -> (crs: String)
        ensures
            crs@ == self.spec_crs(),
    {
        match text(member(member(&self.value, "metadata"), "crs")) {
            Some(crs) => crs.to_owned(),
            None => "local metric".to_owned(),
        }
    }

    /// What the manifest says about the raster.
    pub fn metadata(&self) -> (metadata: &serde_json::Value)
        ensures
            json_content(*metadata) == json_member(self.content(), "metadata"@),
    {
        member(&self.value, "metadata")
    }

    /// The file of the terrain under the dataset, if the manifest names one.
    pub fn terrain_file(&self) -> (name: Option<String>)
        ensures
            match name {
                Some(n) => self.spec_terrain_file() == Some(n@),
                None => self.spec_terrain_file() is None,
            },
    {
        match text(member(&self.value, "terrain_rdem")) {
            Some(name) => Some(name.to_owned()),
            None => None,
        }
    }

    /// Refuses a manifest of another version or date than was asked for.
    pub fn check_address(&self, version: u16, date: &str) -> (checked: Result<(), ApiError>)
        ensures
            checked is Ok <==> self.spec_version() == Some(version as u64) && self.spec_date()
                == Some(date@),
            checked matches Err(e) ==> says(e, 404, "dataset version not found"),
    {
        let same_version = match unsigned(member(&self.value, "version")) {
            Some(stored) => stored == version as u64,
            None => false,
        };
        let same_date = match text(member(&self.value, "date")) {
            Some(stored) => same_text(stored, date),
            None => false,
        };
        if !same_version || !same_date {
            return Err(public_error(404, "dataset version not found"));
        }
        Ok(())
    }

    /// The refusal of a sample, if there is one.
    pub open spec fn sample_refusal(&self, col: u32, row: u32) -> Option<(u16, Seq<char>)> {
        if col >= self.spec_width() || row >= self.spec_height() {
            Some((404, "sample outside grid"@))
        } else {
            match self.spec_terrain_file() {
                None => Some((404, "terrain samples unavailable"@)),
                Some(name) => if !is_plain_name(name) {
                    Some((500, "invalid terrain path"@))
                } else if row * self.spec_width() + col > usize::MAX {
                    Some((500, "sample read failed"@))
                } else {
                    None
                },
            }
        }
    }

    /// Finds the cell of a sample and the file of its terrain.
    pub fn locate_sample(&self, col: u32, row: u32) -> (place: Result<(usize, String), ApiError>)
        ensures
            match place {
                Ok((index, name)) => self.sample_refusal(col, row) is None && index == row
                    * self.spec_width() + col && self.spec_terrain_file() == Some(name@),
                Err(e) => self.sample_refusal(col, row) == Some((e.status, e.message@)),
            },
    {
        let width: u64 = self.width();
        if col as u64 >= width || row as u64 >= self.height() {
            return Err(public_error(404, "sample outside grid"));
        }
        let name = match self.terrain_file() {
            Some(name) => name,
            None => {
                return Err(public_error(404, "terrain samples unavailable"));
            },
        };
        if !plain_name(name.as_str()) {
            return Err(public_error(500, "invalid terrain path"));
        }
        proof {
            assert(row as int * width <= 0xffff_ffff * 0xffff_ffff_ffff_ffff) by (nonlinear_arith)
                requires
                    0 <= row <= 0xffff_ffff,
                    0 <= width <= 0xffff_ffff_ffff_ffff,
            ;
        }
        let index: u128 = row as u128 * width as u128 + col as u128;
        if index > usize::MAX as u128 {
            return Err(public_error(500, "sample read failed"));
        }
        Ok((index as usize, name))
    }

    /// What a stored dataset answers: whether it is complete, and for which date.
    pub open spec fn is_complete(
        &self,
        request: &FusionRequest,
        terrain_stored: bool,
        layers_stored: bool,
    ) -> bool {
        &&& request.radar_ids@.len() > 0 ==> (self.spec_terrain_file() matches Some(name)
            && is_plain_name(name) && terrain_stored)
        &&& layers_stored
    }

    /// The answer of a dataset that is stored already. An incomplete dataset has
    /// none.
    pub fn cached_fusion_response(
        &self,
        fusion_id: u128,
        request: &FusionRequest,
        terrain_stored: bool,
        layers_stored: bool,
    ) -> (response: Result<Option<FusionResponse>, ApiError>)
        ensures
            match response {
                Ok(None) => !self.is_complete(request, terrain_stored, layers_stored),
                Ok(Some(r)) => self.is_complete(request, terrain_stored, layers_stored)
                    && (self.spec_date() matches Some(date) && is_response(
                    r,
                    fusion_id,
                    request,
                    low32(self.spec_width()),
                    low32(self.spec_height()),
                    date,
                )),
                Err(e) => self.is_complete(request, terrain_stored, layers_stored)
                    && self.spec_date() is None && says(e, 500, "invalid dataset cache"),
            },
    {
        if request.radar_ids.len() > 0 {
            let name = match self.terrain_file() {
                Some(name) => name,
                None => {
                    return Ok(None);
                },
            };
            if !plain_name(name.as_str()) || !terrain_stored {
                return Ok(None);
            }
        }
        if !layers_stored {
            return Ok(None);
        }
        let width: u32 = (self.width() % 0x1_0000_0000) as u32;
        let height: u32 = (self.height() % 0x1_0000_0000) as u32;
        match text(member(&self.value, "date")) {
            Some(date) => Ok(Some(fusion_response(fusion_id, request, width, height, date))),
            None => Err(public_error(500, "invalid dataset cache")),
        }
    }
}

/// The refusal of a dataset address, if there is one: the address itself, then
/// the stored manifest.
pub open spec fn dataset_refusal(stored: Option<Seq<u8>>, version: u16, date: Seq<char>) -> Option<
    (u16, Seq<char>),
> {
    if version != 1 || !is_date(date) {
        Some((400, "dataset version or date"@))
    } else {
        match stored {
            None => Some((404, "dataset not found"@)),
            Some(bytes) => match json_document(bytes) {
                None => Some((500, "invalid dataset"@)),
                Some(content) => if json_unsigned(json_member(content, "version"@)) == Some(
                    version as u64,
                ) && json_text(json_member(content, "date"@)) == Some(date) {
                    None
                } else {
                    Some((404, "dataset version not found"@))
                },
            },
        }
    }
}

pub open spec fn stored_bytes(stored: Option<&[u8]>) -> Option<Seq<u8>> {
    match stored {
        Some(bytes) => Some(bytes@),
        None => None,
    }
}

/// Opens a dataset by its address. `stored` is what its manifest file holds, if
/// there is one.
pub fn dataset_directory(stored: Option<&[u8]>, version: u16, date: &str) -> (manifest: Result<
    Manifest,
    ApiError,
>)
    ensures
        match manifest {
            Ok(m) => dataset_refusal(stored_bytes(stored), version, date@) is None && (stored
                matches Some(bytes) && json_document(bytes@) == Some(m.content())),
            Err(e) => dataset_refusal(stored_bytes(stored), version, date@) == Some(
                (e.status, e.message@),
            ),
        },
{
    match check_dataset_address(version, date) {
        Ok(()) => {},
        Err(error) => {
            return Err(error);
        },
    }
    let bytes = match stored {
        Some(bytes) => bytes,
        None => {
            return Err(public_error(404, "dataset not found"));
        },
    };
    let manifest = match Manifest::parse(bytes) {
        Ok(manifest) => manifest,
        Err(error) => {
            return Err(error);
        },
    };
    match manifest.check_address(version, date) {
        Ok(()) => Ok(manifest),
        Err(error) => Err(error),
    }
}

/// A tile that can be delivered: where its source lies, and in which file.
#[derive(Debug)]
pub struct TileOrder {
    pub plan: TilePlan,
    pub width: usize,
    pub height: usize,
    pub col: u32,
    pub source: String,
    /// The source holds heights of two bytes, not counts of one.
    pub minimum: bool,
}

impl Manifest {
    /// The refusal of a tile of a dataset, if there is one. `levels` is the
    /// number of its levels of detail.
    pub open spec fn tile_refused(
        &self,
        levels: int,
        layer: Seq<char>,
        z: u8,
        row: u32,
        col: int,
    ) -> Option<(u16, Seq<char>)> {
        match tile_refusal(
            self.spec_width() as int,
            self.spec_height() as int,
            levels,
            z as int,
            row as int,
            col,
        ) {
            Some(refusal) => Some(refusal),
            None => if source_of(layer) is None {
                Some((400, "layer"@))
            } else {
                None
            },
        }
    }

    /// Locates a tile of a dataset. None where the raster is larger than this
    /// machine can address.
    pub fn order_tile(&self, layer: &str, z: u8, row: u32, col: u32) -> (order: Option<
        Result<TileOrder, ApiError>,
    >)
        ensures
            order is None <==> self.spec_width() > usize::MAX || self.spec_height() > usize::MAX,
            order matches Some(placed) ==> forall|levels: int| #[trigger]
                is_levels(
                    longer(self.spec_width() as int, self.spec_height() as int),
                    levels,
                ) ==> match placed {
                    Err(e) => self.tile_refused(levels, layer@, z, row, col as int) == Some(
                        (e.status, e.message@),
                    ),
                    Ok(o) => {
                        &&& self.tile_refused(levels, layer@, z, row, col as int) is None
                        &&& o.width == self.spec_width()
                        &&& o.height == self.spec_height()
                        &&& o.col == col
                        &&& source_of(layer@) == Some(o.source@)
                        &&& o.minimum <==> layer@ == "min-detection-height"@
                        &&& o.plan.wf()
                        &&& o.plan.is_for(
                            self.spec_width() as int,
                            self.spec_height() as int,
                            pow2((levels - 1 - z) as nat) as int,
                            row as int,
                            col as int,
                        )
                    },
                },
    {
        let wide: u64 = self.width();
        let high: u64 = self.height();
        if wide > usize::MAX as u64 || high > usize::MAX as u64 {
            return None;
        }
        let width: usize = wide as usize;
        let height: usize = high as usize;
        let plan = match locate_tile(width, height, z, row, col) {
            Ok(plan) => plan,
            Err(error) => {
                return Some(Err(error));
            },
        };
        let source = match layer_source(layer) {
            Ok(source) => source,
            Err(error) => {
                return Some(Err(error));
            },
        };
        let minimum = same_text(layer, "min-detection-height");
        Some(Ok(TileOrder { plan, width, height, col, source, minimum }))
    }
}

/// The file of a layer lies in the dataset itself: no layer name leads anywhere
/// else.
pub proof fn law_layer_files_are_plain(layer: Seq<char>, name: Seq<char>)
    requires
        source_of(layer) == Some(name),
    ensures
        is_plain_name(name),
{
    reveal_strlit("radar-count.bin");
    reveal_strlit("ground.bin");
    reveal_strlit("agl-30m.bin");
    reveal_strlit("agl-50m.bin");
    reveal_strlit("agl-100m.bin");
    reveal_strlit("min-detection-height.bin");
    reveal_strlit("agl-");
    reveal_strlit("m.bin");
    if layer == "radar-count"@ {
        lemma_plain(name);
    } else if layer == "ground"@ {
        lemma_plain(name);
    } else if layer == "agl-30m"@ {
        lemma_plain(name);
    } else if layer == "agl-50m"@ {
        lemma_plain(name);
    } else if layer == "agl-100m"@ {
        lemma_plain(name);
    } else if layer == "min-detection-height"@ {
        lemma_plain(name);
    } else {
        let rest = without_prefix(layer, "agl-"@)->0;
        let h = number_of(without_suffix(rest, "m"@)->0, 65535)->0;
        let (head, digits, tail) = ("agl-"@, decimal(h), "m.bin"@);
        assert(name == head + digits + tail);
        lemma_decimal_digits(h);
        assert forall|i: int| 0 <= i < name.len() implies #[trigger] name[i] != '/' by {
            if i < 4 {
                assert(name[i] == head[i]);
            } else if i < 4 + digits.len() {
                assert(name[i] == digits[i - 4]);
                assert(is_digit(digits[i - 4]));
            } else {
                assert(name[i] == tail[i - 4 - digits.len()]);
            }
        }
        lemma_plain(name);
    }
}

/// A name of three or more characters without a separator is plain.
proof fn lemma_plain(name: Seq<char>)
    requires
        name.len() > 2,
        forall|i: int| 0 <= i < name.len() ==> #[trigger] name[i] != '/',
    ensures
        is_plain_name(name),
{
    reveal_strlit(".");
    reveal_strlit("..");
}

/// A sample is served just where its cell lies in the grid, and the dataset names a
/// plain terrain file. A cell outside comes first, then a missing file.
pub proof fn law_sample_is_refused_for_cause(manifest: Manifest, col: u32, row: u32)
    ensures
        ({
            let refusal = manifest.sample_refusal(col, row);
            let inside = col < manifest.spec_width() && row < manifest.spec_height();
            let file = manifest.spec_terrain_file();
            &&& refusal is None <==> inside && file is Some && is_plain_name(file->0) && row
                * manifest.spec_width() + col <= usize::MAX
            &&& !inside ==> refusal == Some((404u16, "sample outside grid"@))
            &&& inside && file is None ==> refusal == Some((404u16, "terrain samples unavailable"@))
            &&& inside && file is Some && !is_plain_name(file->0) ==> refusal == Some(
                (500u16, "invalid terrain path"@),
            )
        }),
{
}

/// A plain name stays in its directory: it is not empty, has no separator, and is
/// neither the directory nor the one above it.
pub proof fn law_plain_names_stay_in_place(name: Seq<char>, i: int)
    requires
        is_plain_name(name),
        0 <= i < name.len(),
    ensures
        name.len() > 0,
        name[i] != '/',
        name.len() == 1 ==> name[0] != '.',
        name.len() == 2 ==> !(name[0] == '.' && name[1] == '.'),
{
    reveal_strlit(".");
    reveal_strlit("..");
    assert(name.contains(name[i]));
    if name.len() == 1 && name[0] == '.' {
        assert(name =~= "."@);
    }
    if name.len() == 2 && name[0] == '.' && name[1] == '.' {
        assert(name =~= ".."@);
    }
}

/// A dataset is found just under its own version and date. A bad address comes
/// first, then a missing dataset, one that cannot be read, and one of another date.
pub proof fn law_dataset_is_found_at_its_address(
    stored: Option<Seq<u8>>,
    version: u16,
    date: Seq<char>,
)
    ensures
        ({
            let refusal = dataset_refusal(stored, version, date);
            let addressed = version == 1 && is_date(date);
            &&& refusal is None <==> {
                &&& addressed
                &&& stored is Some
                &&& json_document(stored->0) is Some
                &&& json_unsigned(json_member(json_document(stored->0)->0, "version"@)) == Some(1u64)
                &&& json_text(json_member(json_document(stored->0)->0, "date"@)) == Some(date)
            }
            &&& !addressed ==> refusal == Some((400u16, "dataset version or date"@))
            &&& addressed && stored is None ==> refusal == Some((404u16, "dataset not found"@))
            &&& addressed && stored is Some && json_document(stored->0) is None ==> refusal == Some(
                (500u16, "invalid dataset"@),
            )
            &&& addressed && stored is Some && json_document(stored->0) is Some && refusal is Some
                ==> refusal == Some((404u16, "dataset version not found"@))
        }),
{
}

/// A tile is refused for its place before it is for its layer.
pub proof fn law_tile_place_is_checked_first(
    manifest: Manifest,
    levels: int,
    layer: Seq<char>,
    z: u8,
    row: u32,
    col: int,
)
    ensures
        ({
            let place = tile_refusal(
                manifest.spec_width() as int,
                manifest.spec_height() as int,
                levels,
                z as int,
                row as int,
                col,
            );
            let refusal = manifest.tile_refused(levels, layer, z, row, col);
            &&& place is Some ==> refusal == place
            &&& place is None ==> (refusal is None <==> source_of(layer) is Some)
            &&& place is None && refusal is Some ==> refusal == Some((400u16, "layer"@))
        }),
{
}

/// An answer repeats what was asked, and its address holds the dataset's identifier
/// and date.
pub proof fn law_answer_repeats_the_request(
    response: FusionResponse,
    fusion_id: u128,
    request: &FusionRequest,
    width: u32,
    height: u32,
    date: Seq<char>,
)
    requires
        is_response(response, fusion_id, request, width, height, date),
    ensures
        response.fusion_id == fusion_id,
        response.selected_radars@ == request.radar_ids@,
        response.target_agl_m == request.target_agl_m,
        response.width == width && response.height == height,
        response.dataset_url@.subrange(6, 42) == spec_id_text(fusion_id),
        response.dataset_url@.subrange(45, 45 + date.len() as int) == date,
{
    reveal_strlit("/wmts/");
    reveal_strlit("/1/");
    let url = response.dataset_url@;
    assert(spec_id_text(fusion_id).len() == 36);
    assert(url.subrange(6, 42) =~= spec_id_text(fusion_id));
    assert(url.subrange(45, 45 + date.len() as int) =~= date);
}

/// A date has four digits, two and two, with dashes between them.
pub proof fn law_date_has_its_dashes(date: Seq<char>, i: int)
    requires
        is_date(date),
        0 <= i < 10,
    ensures
        date.len() == 10,
        date[4] == '-',
        date[7] == '-',
        i != 4 && i != 7 ==> '0' <= date[i] <= '9',
{
    assert(date[4] == '-' && date[7] == '-');
    if i != 4 && i != 7 {
        assert(is_digit(date[i]));
    }
}

/// A member of an object is what stands under its key, and there is none in what is
/// no object.
pub proof fn law_member_stands_under_its_key(
    members: Map<Seq<char>, Json>,
    key: Seq<char>,
    value: Json,
    n: u64,
    text: Seq<char>,
)
    ensures
        json_member(Json::Object(members.insert(key, value)), key) == value,
        json_member(Json::Object(members.remove(key)), key) is Other,
        json_member(Json::Other, key) is Other,
        json_unsigned(Json::Unsigned(n)) == Some(n),
        json_unsigned(Json::Text(text)) is None,
        json_text(Json::Text(text)) == Some(text),
        json_text(Json::Unsigned(n)) is None,
{
}

/// A number that fits thirty-two bits is kept as it is, and of others their lowest
/// bits.
pub proof fn law_low_bits_are_kept(n: u64)
    ensures
        n <= u32::MAX ==> low32(n) == n,
        (n - low32(n)) % 0x1_0000_0000 == 0,
{
}

/// A stored dataset stands for a request only where all its layers are stored, and,
/// where radars were asked for, its plain terrain file as well.
pub proof fn law_incomplete_dataset_is_not_reused(
    manifest: Manifest,
    request: &FusionRequest,
    terrain_stored: bool,
    layers_stored: bool,
)
    ensures
        !layers_stored ==> !manifest.is_complete(request, terrain_stored, layers_stored),
        request.radar_ids@.len() > 0 && !terrain_stored ==> !manifest.is_complete(
            request,
            terrain_stored,
            layers_stored,
        ),
        request.radar_ids@.len() > 0 && manifest.spec_terrain_file() is None
            ==> !manifest.is_complete(request, terrain_stored, layers_stored),
        request.radar_ids@.len() == 0 && layers_stored ==> manifest.is_complete(
            request,
            terrain_stored,
            layers_stored,
        ),
        layers_stored && terrain_stored && manifest.spec_terrain_file() is Some && is_plain_name(
            manifest.spec_terrain_file()->0,
        ) ==> manifest.is_complete(request, terrain_stored, layers_stored),
{
}

/// What a manifest says: width, height and date come from their own members, and a
/// missing number is zero.
pub proof fn law_manifest_reads_its_members(
    manifest: Manifest,
    members: Map<Seq<char>, Json>,
    metadata: Map<Seq<char>, Json>,
    width: u64,
    height: u64,
    date: Seq<char>,
    file: Seq<char>,
)
    requires
        manifest.content() == Json::Object(members),
        members.contains_pair("metadata"@, Json::Object(metadata)),
        members.contains_pair("date"@, Json::Text(date)),
        members.contains_pair("terrain_rdem"@, Json::Text(file)),
        metadata.contains_pair("width"@, Json::Unsigned(width)),
        metadata.contains_pair("height"@, Json::Unsigned(height)),
    ensures
        manifest.spec_width() == width,
        manifest.spec_height() == height,
        manifest.spec_date() == Some(date),
        manifest.spec_terrain_file() == Some(file),
{
}

} // verus!
