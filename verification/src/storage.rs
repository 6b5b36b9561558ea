//! Versioned, checksummed coverage envelopes.
//!
//! An envelope is a four-byte magic, a little-endian `u16` format version, the
//! `u32` length of a JSON header, the `u64` length of a payload, the header, the
//! payload, and the 32-byte BLAKE3 hash of magic, version, header and payload.
use crate::bytes::{law_le_round_trip, law_le_value_round_trip, le_bytes, le_value, le_words,
    lemma_le_bytes_len, lemma_le_words_at, lemma_le_words_len, lemma_pow256, lemma_u16_at_words,
    push_le, read_le, signed16, to_signed16, to_unsigned16, u16_at, unsigned16};
use crate::digest::{blake3_digest, feed, finish, hasher_input, new_hasher, same_bytes};
use crate::float::{Binary32, Binary64};
use crate::text::{concat_text, concatenated, lemma_text_le_total, lemma_text_le_transitive,
    not_after, text_le, texts_rise};
use vstd::prelude::*;

verus! {

pub const RCOV_MAGIC: [u8; 4] = [82, 67, 79, 86];

pub const RHGT_MAGIC: [u8; 4] = [82, 72, 71, 84];

pub const RDEM_MAGIC: [u8; 4] = [82, 68, 69, 77];

/// The format version that is written and accepted.
pub const VERSION: u16 = 1;

/// The stored height of a cell without data.
pub const NO_DATA: u16 = 65535;

/// The stored elevation of a cell without terrain.
pub const NO_TERRAIN: i16 = -32768;

/// The bytes before the JSON header.
pub const PREFIX: usize = 18;

/// The bytes of the checksum.
pub const CHECKSUM: usize = 32;

/// The largest block that is handled at once.
pub const BLOCK: usize = 65536;

#[derive(Clone, Copy, Debug, PartialEq, Eq)]
pub enum StorageError {
    Format(&'static str),
    Checksum,
    IncompatibleGrid,
}

/// A storage error by what its text says.
pub enum ErrorView {
    Format(Seq<char>),
    Checksum,
    IncompatibleGrid,
}

impl View for StorageError {
    type V = ErrorView;

    open spec fn view(&self) -> ErrorView {
        match *self {
            StorageError::Format(reason) => ErrorView::Format(reason@),
            StorageError::Checksum => ErrorView::Checksum,
            StorageError::IncompatibleGrid => ErrorView::IncompatibleGrid,
        }
    }
}

impl StorageError {
    pub fn message(&self) -> (text: String)
        ensures
            text@ == (match *self {
                StorageError::Format(reason) => "invalid format: "@ + reason@,
                StorageError::Checksum => "checksum mismatch"@,
                StorageError::IncompatibleGrid => "incompatible grids"@,
            }),
    {
        match *self {
            StorageError::Format(reason) => {
                let parts: [&str; 2] = ["invalid format: ", reason];
                let text = concat_text(parts.as_slice());
                proof {
                    reveal_with_fuel(concatenated, 3);
                    assert(parts@.drop_last().drop_last() =~= Seq::<&str>::empty());
                    assert(text@ =~= "invalid format: "@ + reason@);
                }
                text
            },
            StorageError::Checksum => "checksum mismatch".to_owned(),
            StorageError::IncompatibleGrid => "incompatible grids".to_owned(),
        }
    }
}

/// What an envelope says about its raster.
#[derive(Debug)]
pub struct Metadata {
    pub radar_id: String,
    pub los_algorithm_version: u16,
    pub radar_config_hash: String,
    pub terrain_hash: String,
    pub calculated_at: String,
    pub crs: String,
    pub origin: [Binary64; 2],
    pub resolution_m: Binary64,
    pub extent: [Binary64; 4],
    pub width: u32,
    pub height: u32,
    pub range_m: Binary64,
    pub effective_earth_k: Binary64,
    pub nodata: u16,
}

impl Clone for Metadata {
    fn clone(&self) -> (copy: Self)
        ensures
            copy == *self,
    {
        Metadata {
            radar_id: self.radar_id.clone(),
            los_algorithm_version: self.los_algorithm_version,
            radar_config_hash: self.radar_config_hash.clone(),
            terrain_hash: self.terrain_hash.clone(),
            calculated_at: self.calculated_at.clone(),
            crs: self.crs.clone(),
            origin: self.origin,
            resolution_m: self.resolution_m,
            extent: self.extent,
            width: self.width,
            height: self.height,
            range_m: self.range_m,
            effective_earth_k: self.effective_earth_k,
            nodata: self.nodata,
        }
    }
}

impl Metadata {
    pub open spec fn spec_cells(&self) -> int {
        self.width * self.height
    }

    pub fn cells(&self) -> (cells: Result<usize, StorageError>)
        ensures
            cells matches Ok(n) ==> n == self.spec_cells(),
            cells matches Err(e) ==> self.spec_cells() > usize::MAX && e@ == ErrorView::Format(
                "dimension overflow"@,
            ),
    {
        match (self.width as usize).checked_mul(self.height as usize) {
            Some(cells) => Ok(cells),
            None => Err(StorageError::Format("dimension overflow")),
        }
    }

    /// Two rasters lie on the same grid: numbers are compared as numbers, so
    /// that a grid with a value that is not a number is on no grid at all.
    pub open spec fn spec_same_grid(&self, other: &Self) -> bool {
        &&& self.crs@ == other.crs@
        &&& self.origin@[0].spec_num_eq(other.origin@[0])
        &&& self.origin@[1].spec_num_eq(other.origin@[1])
        &&& self.resolution_m.spec_num_eq(other.resolution_m)
        &&& self.extent@[0].spec_num_eq(other.extent@[0])
        &&& self.extent@[1].spec_num_eq(other.extent@[1])
        &&& self.extent@[2].spec_num_eq(other.extent@[2])
        &&& self.extent@[3].spec_num_eq(other.extent@[3])
        &&& self.width == other.width
        &&& self.height == other.height
        &&& self.nodata == other.nodata
    }

    /// Two results were computed from the same radar, terrain and grid, at
    /// whatever time.
    pub open spec fn same_identity(&self, other: &Self) -> bool {
        &&& self.radar_id@ == other.radar_id@
        &&& self.los_algorithm_version == other.los_algorithm_version
        &&& self.radar_config_hash@ == other.radar_config_hash@
        &&& self.terrain_hash@ == other.terrain_hash@
        &&& self.spec_same_grid(other)
        &&& self.range_m.spec_num_eq(other.range_m)
        &&& self.effective_earth_k.spec_num_eq(other.effective_earth_k)
    }

    pub fn same_coverage_identity(&self, other: &Self) -> (same: bool)
        ensures
            same == self.same_identity(other),
    {
        self.radar_id == other.radar_id && self.los_algorithm_version
            == other.los_algorithm_version && self.radar_config_hash == other.radar_config_hash
            && self.terrain_hash == other.terrain_hash && self.same_grid(other)
            && self.range_m.num_eq(other.range_m) && self.effective_earth_k.num_eq(
            other.effective_earth_k,
        )
    }

    /// Two envelopes say the same, down to the time of the calculation.
    pub open spec fn same_as(&self, other: &Self) -> bool {
        self.same_identity(other) && self.calculated_at@ == other.calculated_at@
    }

    pub fn equals(&self, other: &Self) -> (same: bool)
        ensures
            same == self.same_as(other),
    {
        self.same_coverage_identity(other) && self.calculated_at == other.calculated_at
    }

    pub fn same_grid(&self, other: &Self) -> (same: bool)
        ensures
            same == self.spec_same_grid(other),
    {
        self.crs == other.crs && self.origin[0].num_eq(other.origin[0]) && self.origin[1].num_eq(
            other.origin[1],
        ) && self.resolution_m.num_eq(other.resolution_m) && self.extent[0].num_eq(other.extent[0])
            && self.extent[1].num_eq(other.extent[1]) && self.extent[2].num_eq(other.extent[2])
            && self.extent[3].num_eq(other.extent[3]) && self.width == other.width && self.height
            == other.height && self.nodata == other.nodata
    }
}

/// The bytes that the checksum covers.
pub open spec fn hashed(magic: Seq<u8>, json: Seq<u8>, payload: Seq<u8>) -> Seq<u8> {
    magic + le_bytes(VERSION as nat, 2) + json + payload
}

/// The bytes of an envelope before its payload.
pub open spec fn envelope_head(magic: Seq<u8>, json: Seq<u8>, payload_len: nat) -> Seq<u8> {
    magic + le_bytes(VERSION as nat, 2) + le_bytes(json.len(), 4) + le_bytes(payload_len, 8) + json
}

pub open spec fn envelope(magic: Seq<u8>, json: Seq<u8>, payload: Seq<u8>) -> Seq<u8> {
    envelope_head(magic, json, payload.len()) + payload + blake3_digest(
        hashed(magic, json, payload),
    )
}

/// Writes the parts of an envelope one after the other.
pub struct EnvelopeWriter {
    hasher: blake3::Hasher,
}

impl EnvelopeWriter {
    /// The bytes that the checksum covers so far.
    pub closed spec fn fed(&self) -> Seq<u8> {
        hasher_input(self.hasher)
    }

    /// Starts an envelope: its bytes up to the payload.
    pub fn begin(magic: [u8; 4], json: &[u8], payload_len: u64) -> (begun: Result<
        (Vec<u8>, Self),
        StorageError,
    >)
        ensures
            begun matches Err(e) ==> json@.len() > u32::MAX && e@ == ErrorView::Format(
                "header too large"@,
            ),
            begun matches Ok((head, writer)) ==> {
                &&& json@.len() <= u32::MAX
                &&& head@ == envelope_head(magic@, json@, payload_len as nat)
                &&& writer.fed() == hashed(magic@, json@, Seq::empty())
            },
    {
        if json.len() as u64 > 4294967295 {
            return Err(StorageError::Format("header too large"));
        }
        let mut head: Vec<u8> = Vec::new();
        head.extend_from_slice(magic.as_slice());
        assert(head@ =~= magic@);
        push_le(&mut head, VERSION as u64, 2);
        push_le(&mut head, json.len() as u64, 4);
        push_le(&mut head, payload_len, 8);
        head.extend_from_slice(json);
        assert(head@ =~= envelope_head(magic@, json@, payload_len as nat));
        let mut hasher = new_hasher();
        feed_head(&mut hasher, magic, json);
        assert(hasher_input(hasher) =~= hashed(magic@, json@, Seq::empty()));
        Ok((head, EnvelopeWriter { hasher }))
    }

    /// Adds bytes of the payload to the checksum.
    pub fn block(&mut self, bytes: &[u8])
        ensures
            final(self).fed() == old(self).fed() + bytes@,
    {
        feed(&mut self.hasher, bytes);
    }

    pub fn checksum(&self) -> (digest: [u8; 32])
        ensures
            digest@ == blake3_digest(self.fed()),
    {
        finish(&self.hasher)
    }
}

/// Feeds what the checksum covers before the payload.
fn feed_head(hasher: &mut blake3::Hasher, magic: [u8; 4], json: &[u8])
    requires
        hasher_input(*old(hasher)) == Seq::<u8>::empty(),
    ensures
        hasher_input(*final(hasher)) == hashed(magic@, json@, Seq::empty()),
{
    feed(hasher, magic.as_slice());
    let mut version: Vec<u8> = Vec::new();
    push_le(&mut version, VERSION as u64, 2);
    feed(hasher, version.as_slice());
    feed(hasher, json);
    assert(hasher_input(*hasher) =~= hashed(magic@, json@, Seq::empty()));
}

/// The bytes of a complete envelope.
pub fn write_atomic(magic: [u8; 4], json: &[u8], payload: &[u8]) -> (file: Result<
    Vec<u8>,
    StorageError,
>)
    ensures
        file matches Err(e) ==> json@.len() > u32::MAX && e@ == ErrorView::Format(
            "header too large"@,
        ),
        file matches Ok(bytes) ==> json@.len() <= u32::MAX && bytes@ == envelope(
            magic@,
            json@,
            payload@,
        ) && bytes@.len() == PREFIX + json@.len() + payload@.len() + CHECKSUM,
{
    match EnvelopeWriter::begin(magic, json, payload.len() as u64) {
        Err(error) => Err(error),
        Ok((head, mut writer)) => {
            writer.block(payload);
            let digest = writer.checksum();
            let mut file = head;
            file.extend_from_slice(payload);
            file.extend_from_slice(digest.as_slice());
            proof {
                assert(hashed(magic@, json@, Seq::empty()) + payload@ =~= hashed(
                    magic@,
                    json@,
                    payload@,
                ));
                assert(file@ =~= envelope(magic@, json@, payload@));
                lemma_le_bytes_len(VERSION as nat, 2);
                lemma_le_bytes_len(json@.len(), 4);
                lemma_le_bytes_len(payload@.len(), 8);
            }
            Ok(file)
        },
    }
}

/// The payload of a coverage envelope: its words in order.
pub open spec fn coverage_payload(words: Seq<u64>) -> Seq<u8> {
    le_words(words.map_values(|w: u64| w as nat), 8)
}

/// The payload of a height envelope: its heights in order.
pub open spec fn height_payload(heights: Seq<u16>) -> Seq<u8> {
    le_words(heights.map_values(|h: u16| h as nat), 2)
}

/// The elevation that is stored for a cell.
pub open spec fn stored_elevation(elevation: Option<Binary32>) -> i16 {
    match elevation {
        Some(value) => value.spec_rounded_elevation(),
        None => NO_TERRAIN,
    }
}

/// The payload of a terrain envelope: its elevations in order.
pub open spec fn terrain_payload(elevations: Seq<Option<Binary32>>) -> Seq<u8> {
    le_words(
        elevations.map_values(|e: Option<Binary32>| unsigned16(stored_elevation(e)) as nat),
        2,
    )
}

/// The bytes of a coverage envelope, one bit per cell.
pub fn write_rcov(metadata: &Metadata, json: &[u8], words: &[u64]) -> (file: Result<
    Vec<u8>,
    StorageError,
>)
    ensures
        file matches Ok(bytes) ==> {
            &&& metadata.spec_cells() <= usize::MAX
            &&& words@.len() == (metadata.spec_cells() + 63) / 64
            &&& json@.len() <= u32::MAX
            &&& bytes@ == envelope(RCOV_MAGIC@, json@, coverage_payload(words@))
            &&& bytes@.len() == PREFIX + json@.len() + 8 * words@.len() + CHECKSUM
        },
        file matches Err(e) ==> e@ == (if metadata.spec_cells() > usize::MAX {
            ErrorView::Format("dimension overflow"@)
        } else if words@.len() != (metadata.spec_cells() + 63) / 64 {
            ErrorView::Format("rcov words"@)
        } else {
            ErrorView::Format("header too large"@)
        }),
        file is Ok <==> metadata.spec_cells() <= usize::MAX && words@.len() == (
        metadata.spec_cells() + 63) / 64 && json@.len() <= u32::MAX,
{
    let cells: usize = match metadata.cells() {
        Ok(cells) => cells,
        Err(error) => {
            return Err(error);
        },
    };
    let expected: usize = if cells % 64 == 0 {
        cells / 64
    } else {
        cells / 64 + 1
    };
    if words.len() != expected {
        return Err(StorageError::Format("rcov words"));
    }
    let mut payload: Vec<u8> = Vec::new();
    let mut i: usize = 0;
    let ghost values = words@.map_values(|w: u64| w as nat);
    assert(values.take(0) =~= Seq::<nat>::empty());
    while i < words.len()
        invariant
            i <= words@.len(),
            values == words@.map_values(|w: u64| w as nat),
            payload@ == le_words(values.take(i as int), 8),
        decreases words@.len() - i,
    {
        assert(values.take(i + 1).drop_last() =~= values.take(i as int));
        push_le(&mut payload, words[i], 8);
        i += 1;
    }
    assert(values.take(i as int) =~= values);
    proof {
        lemma_le_words_len(values, 8);
    }
    write_atomic(RCOV_MAGIC, json, payload.as_slice())
}

/// The bytes of a height envelope, one `u16` per cell.
pub fn write_rhgt(metadata: &Metadata, json: &[u8], heights: &[u16]) -> (file: Result<
    Vec<u8>,
    StorageError,
>)
    ensures
        file matches Ok(bytes) ==> {
            &&& metadata.spec_cells() == heights@.len()
            &&& json@.len() <= u32::MAX
            &&& bytes@ == envelope(RHGT_MAGIC@, json@, height_payload(heights@))
            &&& bytes@.len() == PREFIX + json@.len() + 2 * heights@.len() + CHECKSUM
        },
        file matches Err(e) ==> e@ == (if metadata.spec_cells() > usize::MAX {
            ErrorView::Format("dimension overflow"@)
        } else if metadata.spec_cells() != heights@.len() {
            ErrorView::Format("rhgt cells"@)
        } else {
            ErrorView::Format("header too large"@)
        }),
        file is Ok <==> metadata.spec_cells() == heights@.len() && json@.len() <= u32::MAX,
{
    let len: usize = heights.len();
    let cells: usize = match metadata.cells() {
        Ok(cells) => cells,
        Err(error) => {
            return Err(error);
        },
    };
    if len != cells {
        return Err(StorageError::Format("rhgt cells"));
    }
    let payload = encode_heights(heights);
    proof {
        lemma_le_words_len(heights@.map_values(|h: u16| h as nat), 2);
    }
    write_atomic(RHGT_MAGIC, json, payload.as_slice())
}

/// Heights as little-endian bytes.
pub fn encode_heights(heights: &[u16]) -> (payload: Vec<u8>)
    ensures
        payload@ == height_payload(heights@),
{
    let mut payload: Vec<u8> = Vec::new();
    let mut i: usize = 0;
    let ghost values = heights@.map_values(|h: u16| h as nat);
    assert(values.take(0) =~= Seq::<nat>::empty());
    while i < heights.len()
        invariant
            i <= heights@.len(),
            values == heights@.map_values(|h: u16| h as nat),
            payload@ == le_words(values.take(i as int), 2),
        decreases heights@.len() - i,
    {
        assert(values.take(i + 1).drop_last() =~= values.take(i as int));
        push_le(&mut payload, heights[i] as u64, 2);
        i += 1;
    }
    assert(values.take(i as int) =~= values);
    payload
}

/// Elevations as little-endian bytes.
pub fn encode_elevations(elevations: &[Option<Binary32>]) -> (payload: Vec<u8>)
    ensures
        payload@ == terrain_payload(elevations@),
{
    let mut payload: Vec<u8> = Vec::new();
    let mut i: usize = 0;
    let ghost values = elevations@.map_values(
        |e: Option<Binary32>| unsigned16(stored_elevation(e)) as nat,
    );
    assert(values.take(0) =~= Seq::<nat>::empty());
    while i < elevations.len()
        invariant
            i <= elevations@.len(),
            values == elevations@.map_values(
                |e: Option<Binary32>| unsigned16(stored_elevation(e)) as nat,
            ),
            payload@ == le_words(values.take(i as int), 2),
        decreases elevations@.len() - i,
    {
        assert(values.take(i + 1).drop_last() =~= values.take(i as int));
        let stored: i16 = match elevations[i] {
            Some(value) => value.rounded_elevation(),
            None => NO_TERRAIN,
        };
        push_le(&mut payload, to_unsigned16(stored) as u64, 2);
        i += 1;
    }
    assert(values.take(i as int) =~= values);
    payload
}

/// The bytes of a terrain envelope. Elevations are encoded in blocks, so that no
/// second payload is held.
pub fn write_rdem(metadata: &Metadata, json: &[u8], elevations: &[Option<Binary32>]) -> (file:
    Result<Vec<u8>, StorageError>)
    ensures
        file matches Ok(bytes) ==> {
            &&& metadata.spec_cells() == elevations@.len()
            &&& 2 * elevations@.len() <= usize::MAX
            &&& json@.len() <= u32::MAX
            &&& bytes@ == envelope(RDEM_MAGIC@, json@, terrain_payload(elevations@))
            &&& bytes@.len() == PREFIX + json@.len() + 2 * elevations@.len() + CHECKSUM
        },
        file matches Err(e) ==> e@ == (if metadata.spec_cells() > usize::MAX {
            ErrorView::Format("dimension overflow"@)
        } else if metadata.spec_cells() != elevations@.len() {
            ErrorView::Format("rdem cells"@)
        } else if 2 * elevations@.len() > usize::MAX {
            ErrorView::Format("payload too large"@)
        } else {
            ErrorView::Format("header too large"@)
        }),
        file is Ok <==> metadata.spec_cells() == elevations@.len() && 2 * elevations@.len()
            <= usize::MAX && json@.len() <= u32::MAX,
{
    let len: usize = elevations.len();
    let cells: usize = match metadata.cells() {
        Ok(cells) => cells,
        Err(error) => {
            return Err(error);
        },
    };
    if len != cells {
        return Err(StorageError::Format("rdem cells"));
    }
    let payload_len: usize = match len.checked_mul(2) {
        Some(payload_len) => payload_len,
        None => {
            return Err(StorageError::Format("payload too large"));
        },
    };
    let ghost payload = terrain_payload(elevations@);
    let ghost values = elevations@.map_values(
        |e: Option<Binary32>| unsigned16(stored_elevation(e)) as nat,
    );
    proof {
        lemma_le_words_len(values, 2);
    }
    match EnvelopeWriter::begin(RDEM_MAGIC, json, payload_len as u64) {
        Err(error) => Err(error),
        Ok((head, mut writer)) => {
            let ghost start = head@;
            let ghost covered = writer.fed();
            let mut file = head;
            let mut i: usize = 0;
            proof {
                assert(elevations@.take(0) =~= Seq::<Option<Binary32>>::empty());
                assert(terrain_payload(elevations@.take(0)) =~= Seq::<u8>::empty());
                assert(file@ =~= start + terrain_payload(elevations@.take(0)));
                assert(covered =~= covered + terrain_payload(elevations@.take(0)));
            }
            while i < len
                invariant
                    i <= len,
                    len == elevations@.len(),
                    file@ == start + terrain_payload(elevations@.take(i as int)),
                    writer.fed() == covered + terrain_payload(elevations@.take(i as int)),
                decreases len - i,
            {
                let end: usize = if len - i > 32768 {
                    i + 32768
                } else {
                    len
                };
                let block = encode_elevations(&elevations[i..end]);
                file.extend_from_slice(block.as_slice());
                writer.block(block.as_slice());
                proof {
                    let before = elevations@.take(i as int);
                    let chunk = elevations@.subrange(i as int, end as int);
                    assert(before + chunk =~= elevations@.take(end as int));
                    lemma_terrain_payload_concat(before, chunk);
                    assert(file@ =~= start + terrain_payload(elevations@.take(end as int)));
                    assert(writer.fed() =~= covered + terrain_payload(elevations@.take(end as int)));
                }
                i = end;
            }
            let digest = writer.checksum();
            file.extend_from_slice(digest.as_slice());
            proof {
                assert(elevations@.take(i as int) =~= elevations@);
                assert(covered + payload =~= hashed(RDEM_MAGIC@, json@, payload));
                assert(file@ =~= envelope(RDEM_MAGIC@, json@, payload));
                lemma_le_bytes_len(VERSION as nat, 2);
                lemma_le_bytes_len(json@.len(), 4);
                lemma_le_bytes_len(payload.len(), 8);
            }
            Ok(file)
        },
    }
}

proof fn lemma_le_words_concat(a: Seq<nat>, b: Seq<nat>, n: nat)
    ensures
        le_words(a + b, n) == le_words(a, n) + le_words(b, n),
    decreases b.len(),
{
    if b.len() == 0 {
        assert(a + b =~= a);
        assert(le_words(a, n) + le_words(b, n) =~= le_words(a, n));
    } else {
        assert((a + b).drop_last() =~= a + b.drop_last());
        lemma_le_words_concat(a, b.drop_last(), n);
        assert(le_words(a + b, n) =~= le_words(a, n) + le_words(b, n));
    }
}

proof fn lemma_terrain_payload_concat(a: Seq<Option<Binary32>>, b: Seq<Option<Binary32>>)
    ensures
        terrain_payload(a + b) == terrain_payload(a) + terrain_payload(b),
{
    let f = |e: Option<Binary32>| unsigned16(stored_elevation(e)) as nat;
    assert((a + b).map_values(f) =~= a.map_values(f) + b.map_values(f));
    lemma_le_words_concat(a.map_values(f), b.map_values(f), 2);
}

/// The lengths that the bytes before a header declare.
#[derive(Clone, Copy, Debug, PartialEq, Eq, Structural)]
pub struct Header {
    pub json_len: u32,
    pub payload_len: u64,
}

/// The lengths that a prefix declares.
pub open spec fn declared(prefix: Seq<u8>) -> Header {
    Header {
        json_len: le_value(prefix.subrange(6, 10)) as u32,
        payload_len: le_value(prefix.subrange(10, 18)) as u64,
    }
}

/// The reason why a file with this prefix and length is no envelope, if there is
/// one.
pub open spec fn prefix_error(prefix: Seq<u8>, file_len: int, magic: Seq<u8>) -> Option<Seq<char>> {
    let header = declared(prefix);
    let expected = PREFIX + header.json_len + header.payload_len + CHECKSUM;
    if file_len < PREFIX + CHECKSUM {
        Some("truncated"@)
    } else if prefix.subrange(0, 4) != magic {
        Some("magic"@)
    } else if le_value(prefix.subrange(4, 6)) != VERSION {
        Some("version"@)
    } else if expected > u64::MAX {
        Some("length overflow"@)
    } else if file_len != expected {
        Some("length"@)
    } else {
        None
    }
}

/// Checks the first bytes of a file against its length.
pub fn read_prefix(prefix: &[u8], file_len: u64, magic: [u8; 4]) -> (header: Result<
    Header,
    StorageError,
>)
    requires
        file_len >= PREFIX + CHECKSUM ==> prefix@.len() == PREFIX,
    ensures
        header matches Ok(h) ==> prefix_error(prefix@, file_len as int, magic@) is None && h
            == declared(prefix@) && file_len == PREFIX + h.json_len + h.payload_len + CHECKSUM,
        header matches Err(e) ==> prefix_error(prefix@, file_len as int, magic@) matches Some(
            reason,
        ) && e@ == ErrorView::Format(reason),
{
    if file_len < 50 {
        return Err(StorageError::Format("truncated"));
    }
    if !same_bytes(&prefix[0..4], magic.as_slice()) {
        return Err(StorageError::Format("magic"));
    }
    if read_le(&prefix[4..6]) != VERSION as u64 {
        return Err(StorageError::Format("version"));
    }
    let wide_len: u64 = read_le(&prefix[6..10]);
    let payload_len: u64 = read_le(&prefix[10..18]);
    proof {
        crate::bytes::law_le_value_round_trip(prefix@.subrange(6, 10));
        crate::bytes::law_le_value_round_trip(prefix@.subrange(10, 18));
        lemma_pow256();
    }
    let json_len: u32 = wide_len as u32;
    let expected: u64 = match payload_len.checked_add(50 + json_len as u64) {
        Some(expected) => expected,
        None => {
            return Err(StorageError::Format("length overflow"));
        },
    };
    if file_len != expected {
        return Err(StorageError::Format("length"));
    }
    Ok(Header { json_len, payload_len })
}

pub open spec fn file_prefix(file: Seq<u8>) -> Seq<u8> {
    if file.len() < PREFIX {
        file
    } else {
        file.take(PREFIX as int)
    }
}

/// The JSON header of a file.
pub open spec fn file_json(file: Seq<u8>) -> Seq<u8> {
    file.subrange(PREFIX as int, PREFIX + declared(file_prefix(file)).json_len)
}

/// The payload of a file.
pub open spec fn file_payload(file: Seq<u8>) -> Seq<u8> {
    file.subrange(PREFIX + declared(file_prefix(file)).json_len, file.len() - CHECKSUM)
}

/// The checksum at the end of a file.
pub open spec fn file_checksum(file: Seq<u8>) -> Seq<u8> {
    file.subrange(file.len() - CHECKSUM, file.len() as int)
}

/// The reason why a file is no intact envelope, if there is one.
pub open spec fn file_error(file: Seq<u8>, magic: Seq<u8>) -> Option<ErrorView> {
    match prefix_error(file_prefix(file), file.len() as int, magic) {
        Some(reason) => Some(ErrorView::Format(reason)),
        None => if blake3_digest(hashed(magic, file_json(file), file_payload(file)))
            != file_checksum(file) {
            Some(ErrorView::Checksum)
        } else {
            None
        },
    }
}

/// Checks the lengths of a file and finds its JSON header. The checksum is not
/// looked at.
pub fn read_header(file: &[u8], magic: [u8; 4]) -> (header: Result<
    (Vec<u8>, Header),
    StorageError,
>)
    ensures
        header matches Ok((json, h)) ==> {
            &&& prefix_error(file_prefix(file@), file@.len() as int, magic@) is None
            &&& json@ == file_json(file@)
            &&& h == declared(file_prefix(file@))
            &&& file@.len() == PREFIX + h.json_len + h.payload_len + CHECKSUM
        },
        header matches Err(e) ==> prefix_error(
            file_prefix(file@),
            file@.len() as int,
            magic@,
        ) matches Some(reason) && e@ == ErrorView::Format(reason),
{
    let len: usize = file.len();
    let end: usize = if len < PREFIX {
        len
    } else {
        PREFIX
    };
    let prefix = &file[0..end];
    assert(prefix@ =~= file_prefix(file@));
    match read_prefix(prefix, len as u64, magic) {
        Err(error) => Err(error),
        Ok(header) => {
            let json_end: usize = PREFIX + header.json_len as usize;
            let mut json: Vec<u8> = Vec::new();
            json.extend_from_slice(&file[PREFIX..json_end]);
            assert(json@ =~= file_json(file@));
            Ok((json, header))
        },
    }
}

/// Checks a payload that arrives in blocks against its checksum.
pub struct PayloadCheck {
    hasher: blake3::Hasher,
    remaining: u64,
}

impl PayloadCheck {
    /// The bytes that the checksum covers so far.
    pub closed spec fn fed(&self) -> Seq<u8> {
        hasher_input(self.hasher)
    }

    /// The bytes of the payload that are still to come.
    pub closed spec fn spec_remaining(&self) -> u64 {
        self.remaining
    }

    pub fn begin(magic: [u8; 4], json: &[u8], payload_len: u64) -> (check: Self)
        ensures
            check.fed() == hashed(magic@, json@, Seq::empty()),
            check.spec_remaining() == payload_len,
    {
        let mut hasher = new_hasher();
        feed_head(&mut hasher, magic, json);
        PayloadCheck { hasher, remaining: payload_len }
    }

    /// The length of the next block: what is left, but at most [`BLOCK`].
    pub fn next_len(&self) -> (n: usize)
        ensures
            n == (if self.spec_remaining() > BLOCK {
                BLOCK as u64
            } else {
                self.spec_remaining()
            }),
    {
        if self.remaining > 65536 {
            BLOCK
        } else {
            self.remaining as usize
        }
    }

    pub fn absorb(&mut self, block: &[u8])
        requires
            block@.len() <= old(self).spec_remaining(),
        ensures
            final(self).fed() == old(self).fed() + block@,
            final(self).spec_remaining() == old(self).spec_remaining() - block@.len(),
    {
        feed(&mut self.hasher, block);
        self.remaining = self.remaining - block.len() as u64;
    }

    /// Compares the checksum at the end of the payload; nothing may follow it.
    pub fn finish(&self, stored: &[u8], at_end: bool) -> (checked: Result<(), StorageError>)
        ensures
            checked is Ok <==> blake3_digest(self.fed()) == stored@ && at_end,
            checked matches Err(e) ==> e@ == (if blake3_digest(self.fed()) != stored@ {
                ErrorView::Checksum
            } else {
                ErrorView::Format("trailing bytes"@)
            }),
    {
        let digest = finish(&self.hasher);
        if !same_bytes(digest.as_slice(), stored) {
            return Err(StorageError::Checksum);
        }
        if !at_end {
            return Err(StorageError::Format("trailing bytes"));
        }
        Ok(())
    }
}

/// Validates an envelope, including its payload checksum, block by block.
/// Returns the JSON header of an intact file.
pub fn validate(file: &[u8], magic: [u8; 4]) -> (json: Result<Vec<u8>, StorageError>)
    ensures
        json matches Ok(j) ==> file_error(file@, magic@) is None && j@ == file_json(file@),
        json matches Err(e) ==> file_error(file@, magic@) == Some(e@),
{
    match read_header(file, magic) {
        Err(error) => Err(error),
        Ok((json, header)) => {
            let len: usize = file.len();
            let start: usize = PREFIX + header.json_len as usize;
            let mut check = PayloadCheck::begin(magic, json.as_slice(), header.payload_len);
            let mut at: usize = start;
            assert(check.fed() =~= hashed(
                magic@,
                json@,
                file@.subrange(start as int, at as int),
            ));
            while at < len - 32
                invariant
                    len == file@.len(),
                    start <= at <= len - 32,
                    check.fed() == hashed(magic@, json@, file@.subrange(start as int, at as int)),
                    check.spec_remaining() == len - 32 - at,
                decreases len - at,
            {
                let n: usize = check.next_len();
                check.absorb(&file[at..at + n]);
                assert(check.fed() =~= hashed(
                    magic@,
                    json@,
                    file@.subrange(start as int, at + n),
                ));
                at = at + n;
            }
            match check.finish(&file[len - 32..len], true) {
                Err(error) => Err(error),
                Ok(()) => Ok(json),
            }
        },
    }
}

/// Reads an intact envelope: its JSON header and its payload.
pub fn read(file: &[u8], magic: [u8; 4]) -> (parts: Result<(Vec<u8>, Vec<u8>), StorageError>)
    ensures
        parts matches Ok((json, payload)) ==> file_error(file@, magic@) is None && json@
            == file_json(file@) && payload@ == file_payload(file@),
        parts matches Err(e) ==> file_error(file@, magic@) == Some(e@),
{
    match read_header(file, magic) {
        Err(error) => Err(error),
        Ok((json, header)) => {
            let len: usize = file.len();
            let start: usize = PREFIX + header.json_len as usize;
            let mut payload: Vec<u8> = Vec::new();
            payload.extend_from_slice(&file[start..len - 32]);
            assert(payload@ =~= file_payload(file@));
            match validate_tail(magic, json.as_slice(), payload.as_slice(), &file[len - 32..len]) {
                Err(error) => Err(error),
                Ok(()) => Ok((json, payload)),
            }
        },
    }
}

/// Compares the checksum of a header and a payload with a stored one.
fn validate_tail(magic: [u8; 4], json: &[u8], payload: &[u8], stored: &[u8]) -> (checked: Result<
    (),
    StorageError,
>)
    ensures
        checked is Ok <==> blake3_digest(hashed(magic@, json@, payload@)) == stored@,
        checked matches Err(e) ==> e@ == ErrorView::Checksum,
{
    let mut check = PayloadCheck::begin(magic, json, payload.len() as u64);
    check.absorb(payload);
    assert(check.fed() =~= hashed(magic@, json@, payload@));
    check.finish(stored, true)
}

/// Where the elevation with an index stands in a terrain file.
pub fn rdem_value_offset(metadata: &Metadata, header: Header, index: usize) -> (offset: Result<
    u64,
    StorageError,
>)
    requires
        PREFIX + header.json_len + header.payload_len + CHECKSUM <= u64::MAX,
    ensures
        offset matches Ok(o) ==> {
            &&& index < metadata.spec_cells() <= usize::MAX
            &&& header.payload_len == 2 * metadata.spec_cells()
            &&& o == PREFIX + header.json_len + 2 * index
        },
        offset matches Err(e) ==> e@ == (if metadata.spec_cells() > usize::MAX {
            ErrorView::Format("dimension overflow"@)
        } else {
            ErrorView::Format("rdem index"@)
        }),
        offset is Ok <==> index < metadata.spec_cells() <= usize::MAX && header.payload_len == 2
            * metadata.spec_cells(),
{
    let cells: usize = match metadata.cells() {
        Ok(cells) => cells,
        Err(error) => {
            return Err(error);
        },
    };
    if index >= cells || header.payload_len as u128 != cells as u128 * 2 {
        return Err(StorageError::Format("rdem index"));
    }
    Ok(18 + header.json_len as u64 + index as u64 * 2)
}

/// The elevation that two bytes hold, if the cell has terrain.
pub open spec fn terrain_value(low: u8, high: u8) -> Option<i16> {
    let value = signed16((low + 256 * high) as u16);
    if value == NO_TERRAIN {
        None
    } else {
        Some(value)
    }
}

pub fn decode_rdem_value(low: u8, high: u8) -> (value: Option<i16>)
    ensures
        value == terrain_value(low, high),
{
    let value: i16 = to_signed16(low as u16 + 256 * (high as u16));
    if value == NO_TERRAIN {
        None
    } else {
        Some(value)
    }
}

/// Reads one elevation of a terrain file, which has to be intact.
pub fn read_rdem_value(metadata: &Metadata, file: &[u8], index: usize) -> (value: Result<
    Option<i16>,
    StorageError,
>)
    ensures
        value is Ok <==> file_error(file@, RDEM_MAGIC@) is None && index < metadata.spec_cells()
            <= usize::MAX && declared(file_prefix(file@)).payload_len == 2
            * metadata.spec_cells(),
        value matches Ok(v) ==> file_payload(file@).len() == 2 * metadata.spec_cells() && v
            == terrain_value(file_payload(file@)[2 * index], file_payload(file@)[2 * index + 1]),
        file_error(file@, RDEM_MAGIC@) matches Some(e) ==> (value matches Err(x) && x@ == e),
        file_error(file@, RDEM_MAGIC@) is None ==> (value matches Err(x) ==> x@ == (
        if metadata.spec_cells() > usize::MAX {
            ErrorView::Format("dimension overflow"@)
        } else {
            ErrorView::Format("rdem index"@)
        })),
{
    match validate(file, RDEM_MAGIC) {
        Err(error) => {
            return Err(error);
        },
        Ok(_) => {},
    }
    match read_header(file, RDEM_MAGIC) {
        Err(error) => Err(error),
        Ok((json, header)) => {
            let len: usize = file.len();
            match rdem_value_offset(metadata, header, index) {
                Err(error) => Err(error),
                Ok(offset) => {
                    let at: usize = offset as usize;
                    Ok(decode_rdem_value(file[at], file[at + 1]))
                },
            }
        },
    }
}

/// Where the height with an index stands in a bare height file.
pub fn sample_offset(index: usize) -> (offset: Result<u64, StorageError>)
    ensures
        offset matches Ok(o) ==> o == 2 * index,
        offset matches Err(e) ==> 2 * index > usize::MAX && e@ == ErrorView::Format(
            "sample index"@,
        ),
{
    match index.checked_mul(2) {
        Some(offset) => Ok(offset as u64),
        None => Err(StorageError::Format("sample index")),
    }
}

/// The height that two bytes hold, if it is known.
pub fn known_height(low: u8, high: u8) -> (height: Option<u16>)
    ensures
        height == (if low + 256 * high == NO_DATA {
            None
        } else {
            Some((low + 256 * high) as u16)
        }),
{
    let height: u16 = low as u16 + 256 * (high as u16);
    if height == NO_DATA {
        None
    } else {
        Some(height)
    }
}

/// A stored header by the name of its file.
pub struct StoredHeader {
    pub name: String,
    pub metadata: Option<Metadata>,
}

/// The names of the files whose header was read and is for one radar
/// configuration, in the order of the files.
pub open spec fn names_with_hash(entries: Seq<StoredHeader>, hash: Seq<char>) -> Seq<Seq<char>>
    decreases entries.len(),
{
    if entries.len() == 0 {
        Seq::empty()
    } else {
        let before = names_with_hash(entries.drop_last(), hash);
        match entries.last().metadata {
            Some(metadata) => if metadata.radar_config_hash@ == hash {
                before.push(entries.last().name@)
            } else {
                before
            },
            None => before,
        }
    }
}

/// The texts of some names.
pub open spec fn name_texts(names: Seq<String>) -> Seq<Seq<char>> {
    names.map_values(|n: String| n@)
}

/// Puts a name among names that rise, behind those that do not come after it.
fn insert_name(names: &mut Vec<String>, name: String)
    requires
        texts_rise(name_texts(old(names)@)),
    ensures
        texts_rise(name_texts(final(names)@)),
        name_texts(final(names)@).to_multiset() == name_texts(old(names)@).to_multiset().insert(
            name@,
        ),
{
    let ghost before = name_texts(names@);
    let ghost text = name@;
    let mut at: usize = 0;
    while at < names.len() && not_after(names[at].as_str(), name.as_str())
        invariant
            at <= names@.len(),
            before == name_texts(names@),
            forall|i: int| 0 <= i < at ==> text_le(#[trigger] before[i], name@),
        ensures
            at <= names@.len(),
            forall|i: int| 0 <= i < at ==> text_le(#[trigger] before[i], name@),
            at < names@.len() ==> !text_le(before[at as int], name@),
        decreases names@.len() - at,
    {
        at += 1;
    }
    names.insert(at, name);
    proof {
        let after = name_texts(names@);
        assert(after =~= before.insert(at as int, text));
        vstd::seq_lib::to_multiset_insert(before, at as int, text);
        assert forall|i: int, j: int| 0 <= i < j < after.len() implies text_le(
            after[i],
            after[j],
        ) by {
            if j < at {
                assert(text_le(before[i], before[j]));
            } else if j == at {
                assert(text_le(before[i], text));
            } else {
                lemma_text_le_total(before[at as int], text);
                if j - 1 > at {
                    assert(text_le(before[at as int], before[j - 1]));
                    lemma_text_le_transitive(text, before[at as int], before[j - 1]);
                }
                if i < at {
                    assert(text_le(before[i], before[j - 1]));
                } else if i > at {
                    assert(text_le(before[i - 1], before[j - 1]));
                }
            }
        }
    }
}

/// Finds the files of a radar configuration, in the order of their names. Files
/// whose header cannot be read are passed over.
pub fn find_by_config_hash(entries: &[StoredHeader], hash: &String) -> (found: Vec<String>)
    ensures
        name_texts(found@).to_multiset() == names_with_hash(entries@, hash@).to_multiset(),
        texts_rise(name_texts(found@)),
{
    let mut found: Vec<String> = Vec::new();
    let mut i: usize = 0;
    assert(entries@.take(0) =~= Seq::<StoredHeader>::empty());
    assert(name_texts(found@) =~= Seq::<Seq<char>>::empty());
    while i < entries.len()
        invariant
            i <= entries@.len(),
            name_texts(found@).to_multiset() == names_with_hash(
                entries@.take(i as int),
                hash@,
            ).to_multiset(),
            texts_rise(name_texts(found@)),
        decreases entries@.len() - i,
    {
        assert(entries@.take(i + 1).drop_last() =~= entries@.take(i as int));
        match &entries[i].metadata {
            Some(metadata) => {
                if metadata.radar_config_hash == *hash {
                    insert_name(&mut found, entries[i].name.clone());
                    proof {
                        let before = names_with_hash(entries@.take(i as int), hash@);
                        let name = entries@[i as int].name@;
                        assert(entries@.take(i + 1).last() == entries@[i as int]);
                        assert(names_with_hash(entries@.take(i + 1), hash@) == before.push(name));
                        vstd::seq_lib::to_multiset_build(before, name);
                    }
                }
            },
            None => {},
        }
        i += 1;
    }
    assert(entries@.take(i as int) =~= entries@);
    found
}

proof fn lemma_envelope_parts(magic: Seq<u8>, json: Seq<u8>, payload: Seq<u8>, file: Seq<u8>)
    requires
        magic.len() == 4,
        json.len() <= u32::MAX,
        file == envelope(magic, json, payload),
        file.len() == PREFIX + json.len() + payload.len() + CHECKSUM,
        file.len() <= u64::MAX,
    ensures
        has_parts(file, magic, json, payload),
        file_checksum(file) == blake3_digest(hashed(magic, json, payload)),
{
    lemma_le_bytes_len(VERSION as nat, 2);
    lemma_le_bytes_len(json.len(), 4);
    lemma_le_bytes_len(payload.len(), 8);
    lemma_pieces(magic, json, payload, blake3_digest(hashed(magic, json, payload)), file);
}

/// The lengths that a file declares are right, and so are its parts but for the
/// checksum.
spec fn has_parts(file: Seq<u8>, magic: Seq<u8>, json: Seq<u8>, payload: Seq<u8>) -> bool {
    &&& file_prefix(file).subrange(0, 4) == magic
    &&& le_value(file_prefix(file).subrange(4, 6)) == VERSION
    &&& declared(file_prefix(file)) == (Header {
        json_len: json.len() as u32,
        payload_len: payload.len() as u64,
    })
    &&& file_json(file) == json
    &&& file_payload(file) == payload
}

proof fn lemma_pieces(
    magic: Seq<u8>,
    json: Seq<u8>,
    payload: Seq<u8>,
    checksum: Seq<u8>,
    file: Seq<u8>,
)
    requires
        magic.len() == 4,
        json.len() <= u32::MAX,
        checksum.len() == CHECKSUM,
        file == envelope_head(magic, json, payload.len()) + payload + checksum,
        file.len() <= u64::MAX,
    ensures
        file.len() == PREFIX + json.len() + payload.len() + CHECKSUM,
        has_parts(file, magic, json, payload),
        file_checksum(file) == checksum,
{
    lemma_pow256();
    lemma_le_bytes_len(VERSION as nat, 2);
    lemma_le_bytes_len(json.len(), 4);
    lemma_le_bytes_len(payload.len(), 8);
    law_le_round_trip(VERSION as nat, 2);
    law_le_round_trip(json.len(), 4);
    law_le_round_trip(payload.len(), 8);
    let prefix = file_prefix(file);
    assert(prefix.subrange(0, 4) =~= magic);
    assert(prefix.subrange(4, 6) =~= le_bytes(VERSION as nat, 2));
    assert(prefix.subrange(6, 10) =~= le_bytes(json.len(), 4));
    assert(prefix.subrange(10, 18) =~= le_bytes(payload.len(), 8));
    assert(file_json(file) =~= json);
    assert(file_payload(file) =~= payload);
    assert(file_checksum(file) =~= checksum);
}

/// What was written is read back: a complete envelope is intact, and its header
/// and payload are those that went into it.
pub proof fn law_envelope_round_trip(
    magic: Seq<u8>,
    json: Seq<u8>,
    payload: Seq<u8>,
    file: Seq<u8>,
)
    requires
        magic.len() == 4,
        json.len() <= u32::MAX,
        file == envelope(magic, json, payload),
        file.len() == PREFIX + json.len() + payload.len() + CHECKSUM,
        file.len() <= u64::MAX,
    ensures
        file_error(file, magic) is None,
        file_json(file) == json,
        file_payload(file) == payload,
{
    lemma_envelope_parts(magic, json, payload, file);
}

/// Damage is found: a file whose payload was changed after it was written is
/// refused for its checksum, unless the changed payload has the same hash.
pub proof fn law_changed_payload_is_refused(
    magic: Seq<u8>,
    json: Seq<u8>,
    payload: Seq<u8>,
    written: Seq<u8>,
    changed: Seq<u8>,
)
    requires
        magic.len() == 4,
        json.len() <= u32::MAX,
        written == envelope(magic, json, payload),
        written.len() == PREFIX + json.len() + payload.len() + CHECKSUM,
        written.len() <= u64::MAX,
        changed.len() == written.len(),
        forall|i: int|
            (0 <= i < PREFIX + json.len() || PREFIX + json.len() + payload.len() <= i
                < written.len()) ==> #[trigger] changed[i] == written[i],
        blake3_digest(hashed(magic, json, file_payload(changed))) != blake3_digest(
            hashed(magic, json, payload),
        ),
    ensures
        file_error(changed, magic) == Some(ErrorView::Checksum),
{
    let start = PREFIX + json.len() as int;
    let end = start + payload.len();
    let other = changed.subrange(start, end);
    let checksum = blake3_digest(hashed(magic, json, payload));
    lemma_le_bytes_len(VERSION as nat, 2);
    lemma_le_bytes_len(json.len(), 4);
    lemma_le_bytes_len(payload.len(), 8);
    let head = envelope_head(magic, json, payload.len());
    assert(head.len() == start);
    assert(changed.subrange(0, start) =~= head) by {
        assert(written.subrange(0, start) =~= head);
        assert forall|i: int| 0 <= i < start implies changed[i] == head[i] by {
            assert(changed[i] == written[i]);
        }
    }
    assert(changed =~= head + other + checksum) by {
        assert forall|i: int| 0 <= i < changed.len() implies changed[i] == (head + other
            + checksum)[i] by {
            if i < start {
                assert(changed.subrange(0, start)[i] == head[i]);
            } else if i >= end {
                assert(changed[i] == written[i]);
            }
        }
    }
    lemma_pieces(magic, json, other, checksum, changed);
}

/// Only complete envelopes are accepted: an intact file is the envelope of its
/// own header and payload, with nothing before, between or after them.
pub proof fn law_intact_files_are_envelopes(file: Seq<u8>, magic: Seq<u8>)
    requires
        magic.len() == 4,
        file_error(file, magic) is None,
    ensures
        file == envelope(magic, file_json(file), file_payload(file)),
{
    let prefix = file_prefix(file);
    let header = declared(prefix);
    crate::bytes::law_le_value_round_trip(prefix.subrange(4, 6));
    crate::bytes::law_le_value_round_trip(prefix.subrange(6, 10));
    crate::bytes::law_le_value_round_trip(prefix.subrange(10, 18));
    lemma_pow256();
    let json = file_json(file);
    let payload = file_payload(file);
    assert(prefix =~= prefix.subrange(0, 4) + prefix.subrange(4, 6) + prefix.subrange(6, 10)
        + prefix.subrange(10, 18));
    assert(le_bytes(json.len(), 4) =~= prefix.subrange(6, 10));
    assert(le_bytes(payload.len(), 8) =~= prefix.subrange(10, 18));
    assert(file =~= prefix + json + payload + file_checksum(file));
    assert(file =~= envelope(magic, json, payload));
}

/// A file with another magic is refused, whatever else it holds.
pub proof fn law_other_magic_is_refused(
    magic: Seq<u8>,
    other: Seq<u8>,
    json: Seq<u8>,
    payload: Seq<u8>,
    file: Seq<u8>,
)
    requires
        magic.len() == 4,
        other != magic,
        json.len() <= u32::MAX,
        file == envelope(magic, json, payload),
        file.len() == PREFIX + json.len() + payload.len() + CHECKSUM,
        file.len() <= u64::MAX,
    ensures
        file_error(file, other) == Some(ErrorView::Format("magic"@)),
{
    lemma_envelope_parts(magic, json, payload, file);
}

/// The heights of a payload are those that it was made from.
pub proof fn law_heights_round_trip(heights: Seq<u16>, i: int)
    requires
        0 <= i < heights.len(),
    ensures
        height_payload(heights).len() == 2 * heights.len(),
        u16_at(height_payload(heights), i) == heights[i],
        height_payload(heights)[2 * i] + 256 * height_payload(heights)[2 * i + 1] == heights[i],
{
    let values = heights.map_values(|h: u16| h as nat);
    lemma_le_words_len(values, 2);
    lemma_u16_at_words(values, i);
}

/// The elevation that is read back is the one that was stored: rounded where the
/// cell has terrain, and absent where it has none.
pub proof fn law_terrain_round_trip(elevations: Seq<Option<Binary32>>, i: int)
    requires
        0 <= i < elevations.len(),
    ensures
        terrain_payload(elevations).len() == 2 * elevations.len(),
        terrain_value(terrain_payload(elevations)[2 * i], terrain_payload(elevations)[2 * i + 1])
            == (match elevations[i] {
            Some(value) => Some(value.spec_rounded_elevation()),
            None => None,
        }),
{
    let values = elevations.map_values(
        |e: Option<Binary32>| unsigned16(stored_elevation(e)) as nat,
    );
    lemma_le_words_len(values, 2);
    lemma_u16_at_words(values, i);
    match elevations[i] {
        Some(value) => {
            value.lemma_rounded_elevation_bounds();
        },
        None => {},
    }
}

/// The layout of an envelope, byte by byte: magic, version, two lengths, header,
/// payload and the hash of all but the lengths.
pub proof fn law_envelope_layout(
    magic: Seq<u8>,
    json: Seq<u8>,
    payload: Seq<u8>,
    file: Seq<u8>,
)
    requires
        magic.len() == 4,
        json.len() <= u32::MAX,
        file == envelope(magic, json, payload),
        file.len() == 18 + json.len() + payload.len() + 32,
        file.len() <= u64::MAX,
    ensures
        file.subrange(0, 4) == magic,
        file[4] == 1 && file[5] == 0,
        le_value(file.subrange(6, 10)) == json.len(),
        le_value(file.subrange(10, 18)) == payload.len(),
        file.subrange(18, 18 + json.len() as int) == json,
        file.subrange(18 + json.len() as int, 18 + json.len() + payload.len() as int) == payload,
        file.skip(18 + json.len() + payload.len() as int) == blake3_digest(
            magic + seq![1u8, 0u8] + json + payload,
        ),
{
    lemma_envelope_parts(magic, json, payload, file);
    lemma_pow256();
    law_le_round_trip(json.len(), 4);
    law_le_round_trip(payload.len(), 8);
    reveal_with_fuel(le_bytes, 3);
    let version = le_bytes(VERSION as nat, 2);
    assert(version =~= seq![1u8, 0u8]);
    let head = magic + version;
    assert(file.subrange(0, 4) =~= magic);
    assert(file[4] == version[0] && file[5] == version[1]);
    assert(file.subrange(6, 10) =~= le_bytes(json.len(), 4));
    assert(file.subrange(10, 18) =~= le_bytes(payload.len(), 8));
    assert(file.subrange(18, 18 + json.len() as int) =~= json);
    assert(file.subrange(18 + json.len() as int, 18 + json.len() + payload.len() as int) =~= payload);
    assert(file.skip(18 + json.len() + payload.len() as int) =~= blake3_digest(
        hashed(magic, json, payload),
    ));
}

/// A prefix is accepted just where the file is long enough, starts with the magic,
/// has the known version and is as long as it declares.
pub proof fn law_prefix_is_refused_for_cause(prefix: Seq<u8>, file_len: int, magic: Seq<u8>)
    requires
        file_len >= 0,
        file_len <= u64::MAX,
        prefix.len() == 18 || file_len < 50,
    ensures
        file_len < 50 ==> prefix_error(prefix, file_len, magic) == Some("truncated"@),
        file_len >= 50 ==> {
            let json_len = le_value(prefix.subrange(6, 10)) as int;
            let payload_len = le_value(prefix.subrange(10, 18)) as int;
            let error = prefix_error(prefix, file_len, magic);
            &&& error is None <==> prefix.subrange(0, 4) == magic && le_value(
                prefix.subrange(4, 6),
            ) == 1 && file_len == 50 + json_len + payload_len
            &&& prefix.subrange(0, 4) != magic ==> error == Some("magic"@)
            &&& prefix.subrange(0, 4) == magic && le_value(prefix.subrange(4, 6)) != 1 ==> error
                == Some("version"@)
            &&& declared(prefix).json_len == json_len
            &&& declared(prefix).payload_len == payload_len
        },
{
    if file_len >= 50 {
        lemma_pow256();
        law_le_value_round_trip(prefix.subrange(6, 10));
        law_le_value_round_trip(prefix.subrange(10, 18));
    }
}

/// Words are stored in their order, eight bytes each.
pub proof fn law_words_round_trip(words: Seq<u64>, i: int)
    requires
        0 <= i < words.len(),
    ensures
        coverage_payload(words).len() == 8 * words.len(),
        le_value(coverage_payload(words).subrange(8 * i, 8 * i + 8)) == words[i],
{
    let values = words.map_values(|w: u64| w as nat);
    lemma_le_words_len(values, 8);
    lemma_le_words_at(values, 8, i);
    lemma_pow256();
    law_le_round_trip(words[i] as nat, 8);
}

/// Two bytes of terrain, the low one first, are a number in two's complement, or
/// nothing where they are the lowest one.
pub proof fn law_terrain_bytes_are_signed(low: u8, high: u8)
    ensures
        terrain_value(low, high) is None <==> low == 0 && high == 128,
        terrain_value(low, high) matches Some(value) ==> value == (if high < 128 {
            low + 256 * high
        } else {
            low + 256 * high - 65536
        }),
{
}

/// Two grids are the same just where nothing in which they are given differs.
pub proof fn law_any_difference_of_grids_is_noticed(a: &Metadata, b: &Metadata)
    ensures
        a.spec_same_grid(b) ==> {
            &&& a.crs@ == b.crs@
            &&& a.width == b.width && a.height == b.height && a.nodata == b.nodata
            &&& a.resolution_m.key() == b.resolution_m.key()
            &&& forall|i: int| 0 <= i < 2 ==> (#[trigger] a.origin@[i]).key() == b.origin@[i].key()
            &&& forall|i: int| 0 <= i < 4 ==> (#[trigger] a.extent@[i]).key() == b.extent@[i].key()
        },
        a.same_identity(b) ==> {
            &&& a.spec_same_grid(b)
            &&& a.radar_id@ == b.radar_id@
            &&& a.los_algorithm_version == b.los_algorithm_version
            &&& a.radar_config_hash@ == b.radar_config_hash@
            &&& a.terrain_hash@ == b.terrain_hash@
            &&& a.range_m.key() == b.range_m.key()
            &&& a.effective_earth_k.key() == b.effective_earth_k.key()
        },
        a.same_as(b) ==> a.same_identity(b) && a.calculated_at@ == b.calculated_at@,
{
}

/// A raster has the grid, and the identity, of itself, and of one that differs in
/// nothing but when it was calculated, where its numbers are numbers.
pub proof fn law_equal_rasters_are_the_same(a: &Metadata, b: &Metadata)
    requires
        a.crs@ == b.crs@,
        a.width == b.width,
        a.height == b.height,
        a.nodata == b.nodata,
        a.resolution_m == b.resolution_m,
        a.origin@ == b.origin@,
        a.extent@ == b.extent@,
        !a.resolution_m.spec_is_nan(),
        forall|i: int| 0 <= i < 2 ==> !(#[trigger] a.origin@[i]).spec_is_nan(),
        forall|i: int| 0 <= i < 4 ==> !(#[trigger] a.extent@[i]).spec_is_nan(),
    ensures
        a.spec_same_grid(b),
        a.radar_id@ == b.radar_id@ && a.los_algorithm_version == b.los_algorithm_version
            && a.radar_config_hash@ == b.radar_config_hash@ && a.terrain_hash@ == b.terrain_hash@
            && a.range_m == b.range_m && a.effective_earth_k == b.effective_earth_k
            && !a.range_m.spec_is_nan() && !a.effective_earth_k.spec_is_nan() ==> a.same_identity(b)
            && (a.calculated_at@ == b.calculated_at@ <==> a.same_as(b)),
{
    assert(!a.origin@[0].spec_is_nan() && !a.origin@[1].spec_is_nan());
    assert(!a.extent@[0].spec_is_nan() && !a.extent@[1].spec_is_nan());
    assert(!a.extent@[2].spec_is_nan() && !a.extent@[3].spec_is_nan());
}

/// A search finds just the names of the files whose header has the hash.
pub proof fn law_search_finds_the_hash(
    entries: Seq<StoredHeader>,
    hash: Seq<char>,
    name: Seq<char>,
)
    ensures
        names_with_hash(entries, hash).contains(name) <==> exists|i: int|
            0 <= i < entries.len() && (#[trigger] entries[i]).name@ == name && (
            entries[i].metadata matches Some(metadata) && metadata.radar_config_hash@ == hash),
        names_with_hash(entries, hash).len() <= entries.len(),
    decreases entries.len(),
{
    if entries.len() > 0 {
        let rest = entries.drop_last();
        law_search_finds_the_hash(rest, hash, name);
        let before = names_with_hash(rest, hash);
        let after = names_with_hash(entries, hash);
        let last = entries.last();
        assert(entries[entries.len() - 1] == last);
        assert(forall|i: int| 0 <= i < rest.len() ==> #[trigger] rest[i] == entries[i]);
        if after != before {
            vstd::seq_lib::lemma_seq_contains_after_push(before, last.name@, name);
        }
        if before.contains(name) {
            let i = choose|i: int|
                0 <= i < rest.len() && (#[trigger] rest[i]).name@ == name && (
                rest[i].metadata matches Some(metadata) && metadata.radar_config_hash@ == hash);
            assert(entries[i].name@ == name);
        }
        if exists|i: int|
            0 <= i < entries.len() && (#[trigger] entries[i]).name@ == name && (
            entries[i].metadata matches Some(metadata) && metadata.radar_config_hash@ == hash) {
            let i = choose|i: int|
                0 <= i < entries.len() && (#[trigger] entries[i]).name@ == name && (
                entries[i].metadata matches Some(metadata) && metadata.radar_config_hash@ == hash);
            if i < rest.len() {
                assert(rest[i].name@ == name);
                assert(before.contains(name));
            } else {
                assert(after == before.push(last.name@));
                assert(after[before.len() as int] == name);
            }
        }
    }
}

} // verus!
