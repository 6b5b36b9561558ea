//! Elevation tiles and the mosaic that they form.
use crate::bytes::{law_le_round_trip, le_bytes, le_value, le_words, lemma_le_bytes_len,
    lemma_le_words_len, lemma_pow256, lemma_u16_at_words, push_le, to_signed16, to_unsigned16,
    signed16, unsigned16};
use crate::digest::{blake3_digest, feed, finish, hasher_input, new_hasher};
use crate::float::{law_floor_is_the_integer_below, law_order_is_numeric, Binary64,
    INFINITE_MAGNITUDE};
use crate::text::{hex, hex_text, push_signed, signed_decimal};
use std::io::Read;
use std::sync::Arc;
use vstd::arithmetic::power2::{lemma2_to64, lemma_pow2_adds, lemma_pow2_pos, pow2};
use vstd::prelude::*;
use vstd::string::*;

verus! {

/// The sample of a cell without data.
pub const VOID: i16 = -32768;

/// Surface-height semantics used by LOS and persistent terrain fingerprints.
pub const TERRAIN_MODEL_VERSION: u16 = 2;

/// The most bytes that a tile may have when it is unpacked.
pub const MAX_TILE_BYTES: u64 = 30_000_000;

/// A one-degree tile by its south-west corner.
#[derive(Clone, Copy, Debug, Eq, Ord, PartialEq, PartialOrd, Structural)]
pub struct TileCoordinate {
    pub lat: i16,
    pub lon: i16,
}

impl TileCoordinate {
    /// The place of a coordinate in the order of latitudes, then longitudes.
    pub open spec fn key(self) -> int {
        self.lat * 65536 + self.lon
    }

    fn order_key(self) -> (key: i64)
        ensures
            key == self.key(),
    {
        self.lat as i64 * 65536 + self.lon as i64
    }

    pub proof fn lemma_key(self, other: Self)
        ensures
            self.key() == other.key() <==> self == other,
            self.key() < other.key() <==> self.lat < other.lat || (self.lat == other.lat
                && self.lon < other.lon),
    {
    }
}

#[derive(Debug)]
pub enum TerrainError {
    InvalidLength,
    Dimension,
    Io(String),
    Missing(TileCoordinate),
    Network(String),
    TooLarge,
    Coordinates,
    Projection,
}

impl TerrainError {
    pub open spec fn spec_message(&self) -> Seq<char> {
        match *self {
            TerrainError::InvalidLength => "invalid HGT byte length"@,
            TerrainError::Dimension => "unsupported HGT dimension"@,
            TerrainError::Io(reason) => "I/O: "@ + reason@,
            TerrainError::Missing(c) => "missing terrain tile TileCoordinate { lat: "@
                + signed_decimal(c.lat as int) + ", lon: "@ + signed_decimal(c.lon as int) + " }"@,
            TerrainError::Network(reason) => "network: "@ + reason@,
            TerrainError::TooLarge => "download exceeded configured size"@,
            TerrainError::Coordinates => "invalid geographic coordinates or range"@,
            TerrainError::Projection => "projection failed"@,
        }
    }

    pub fn message(&self) -> (text: String)
        ensures
            text@ == self.spec_message(),
    {
        match self {
            TerrainError::InvalidLength => "invalid HGT byte length".to_owned(),
            TerrainError::Dimension => "unsupported HGT dimension".to_owned(),
            TerrainError::Io(reason) => {
                let mut text = "I/O: ".to_owned();
                text.append(reason.as_str());
                text
            },
            TerrainError::Missing(c) => {
                let mut text = "missing terrain tile TileCoordinate { lat: ".to_owned();
                push_signed(&mut text, c.lat as i64);
                text.append(", lon: ");
                push_signed(&mut text, c.lon as i64);
                text.append(" }");
                text
            },
            TerrainError::Network(reason) => {
                let mut text = "network: ".to_owned();
                text.append(reason.as_str());
                text
            },
            TerrainError::TooLarge => "download exceeded configured size".to_owned(),
            TerrainError::Coordinates => "invalid geographic coordinates or range".to_owned(),
            TerrainError::Projection => "projection failed".to_owned(),
        }
    }
}

/// A square tile of elevation samples, row by row from the north.
#[derive(Debug)]
pub struct HgtTile {
    pub coordinate: TileCoordinate,
    pub dimension: usize,
    pub heights: Vec<i16>,
}

/// The signed number that two bytes hold, most significant byte first.
pub open spec fn big_endian(high: u8, low: u8) -> i16 {
    signed16((256 * high + low) as u16)
}

/// The error of some tile bytes, if there is one.
pub open spec fn tile_error(len: int) -> Option<TerrainError> {
    if len % 2 != 0 {
        Some(TerrainError::InvalidLength)
    } else if len / 2 != 1201 * 1201 && len / 2 != 3601 * 3601 {
        Some(TerrainError::Dimension)
    } else {
        None
    }
}

/// Tile bytes as samples.
pub open spec fn is_decoded(
    tile: &HgtTile,
    coordinate: TileCoordinate,
    bytes: Seq<u8>,
) -> bool {
    &&& tile.coordinate == coordinate
    &&& tile.dimension == 1201 || tile.dimension == 3601
    &&& tile.dimension * tile.dimension * 2 == bytes.len()
    &&& tile.heights@.len() == tile.dimension * tile.dimension
    &&& forall|i: int|
        0 <= i < tile.heights@.len() ==> #[trigger] tile.heights@[i] == big_endian(
            bytes[2 * i],
            bytes[2 * i + 1],
        )
}

/// The bytes that a gzip member holds, up to a limit; nothing where it is
/// damaged before that.
pub uninterp spec fn gzip_content(compressed: Seq<u8>, limit: u64) -> Option<Seq<u8>>;

/// `flate2::read::GzDecoder` over a byte slice, read to its end or to a limit:
/// the unpacked bytes, at most as many as the limit, or the text of the error.
/// Nothing is said of that text.
#[verifier::external_body]
fn gunzip(compressed: &[u8], limit: u64) -> (content: Result<Vec<u8>, String>)
    ensures
        content is Ok <==> gzip_content(compressed@, limit) is Some,
        content matches Ok(bytes) ==> gzip_content(compressed@, limit) == Some(bytes@)
            && bytes@.len() <= limit,
{
    let mut bytes: Vec<u8> = Vec::new();
    match flate2::read::GzDecoder::new(compressed).take(limit).read_to_end(&mut bytes) {
        Ok(_) => Ok(bytes),
        Err(error) => Err(error.to_string()),
    }
}

impl HgtTile {
    pub open spec fn wf(&self) -> bool {
        self.dimension >= 1
    }

    pub fn decode(coordinate: TileCoordinate, bytes: &[u8]) -> (tile: Result<Self, TerrainError>)
        ensures
            tile matches Ok(t) ==> is_decoded(&t, coordinate, bytes@),
            tile matches Err(e) ==> tile_error(bytes@.len() as int) == Some(e),
            tile is Ok <==> tile_error(bytes@.len() as int) is None,
    {
        let len: usize = bytes.len();
        if len % 2 != 0 {
            return Err(TerrainError::InvalidLength);
        }
        let samples: usize = len / 2;
        let dimension: usize = if samples == 1442401 {
            1201
        } else if samples == 12967201 {
            3601
        } else {
            return Err(TerrainError::Dimension);
        };
        let mut heights: Vec<i16> = Vec::new();
        let mut i: usize = 0;
        while i < samples
            invariant
                i <= samples,
                2 * samples == bytes@.len(),
                samples <= 12967201,
                heights@.len() == i,
                forall|j: int|
                    0 <= j < i ==> #[trigger] heights@[j] == big_endian(
                        bytes@[2 * j],
                        bytes@[2 * j + 1],
                    ),
            decreases samples - i,
        {
            let word: u16 = 256 * (bytes[2 * i] as u16) + bytes[2 * i + 1] as u16;
            heights.push(to_signed16(word));
            i += 1;
        }
        Ok(HgtTile { coordinate, dimension, heights })
    }

    /// Unpacks and decodes a compressed tile.
    pub fn decode_gzip(coordinate: TileCoordinate, compressed: &[u8]) -> (tile: Result<
        Self,
        TerrainError,
    >)
        ensures
            match gzip_content(compressed@, MAX_TILE_BYTES) {
                Some(bytes) => match tile {
                    Ok(t) => is_decoded(&t, coordinate, bytes),
                    Err(e) => tile_error(bytes.len() as int) == Some(e),
                },
                None => tile matches Err(e) && e is Io,
            },
    {
        match gunzip(compressed, MAX_TILE_BYTES) {
            Ok(bytes) => Self::decode(coordinate, bytes.as_slice()),
            Err(reason) => Err(TerrainError::Io(reason)),
        }
    }

    /// The sample at a place, if there is one and it is not void. The place is
    /// counted through the rows, so that a column beyond the last one is in the
    /// next row.
    pub open spec fn spec_sample(&self, row: int, col: int) -> Option<i16> {
        let i = row * self.dimension + col;
        if i < self.heights@.len() && self.heights@[i] != VOID {
            Some(self.heights@[i])
        } else {
            None
        }
    }

    pub fn sample(&self, row: usize, col: usize) -> (height: Option<i16>)
        ensures
            height == self.spec_sample(row as int, col as int),
    {
        let len: usize = self.heights.len();
        proof {
            assert(0 <= row * self.dimension) by (nonlinear_arith)
                requires
                    row >= 0,
                    self.dimension >= 0,
            ;
        }
        match row.checked_mul(self.dimension) {
            Some(start) => match start.checked_add(col) {
                Some(i) => if i < len && self.heights[i] != VOID {
                    Some(self.heights[i])
                } else {
                    None
                },
                None => None,
            },
            None => None,
        }
    }
}

/// Tiles in the order of their coordinates, one per coordinate.
pub struct TerrainMosaic {
    tiles: Vec<Arc<HgtTile>>,
}

pub open spec fn strictly_ordered(tiles: Seq<Arc<HgtTile>>) -> bool {
    forall|i: int, j: int|
        0 <= i < j < tiles.len() ==> (#[trigger] tiles[i]).coordinate.key() < (
        #[trigger] tiles[j]).coordinate.key()
}

/// Some tile has a coordinate.
pub open spec fn has_tile_at(tiles: Seq<Arc<HgtTile>>, coordinate: TileCoordinate) -> bool {
    exists|i: int| 0 <= i < tiles.len() && (#[trigger] tiles[i]).coordinate == coordinate
}

/// `tile` is the last one with a coordinate, or nothing where there is none.
pub open spec fn is_latest(
    tiles: Seq<Arc<HgtTile>>,
    coordinate: TileCoordinate,
    tile: Option<Arc<HgtTile>>,
) -> bool {
    match tile {
        None => forall|i: int|
            0 <= i < tiles.len() ==> (#[trigger] tiles[i]).coordinate != coordinate,
        Some(t) => exists|i: int|
            {
                &&& 0 <= i < tiles.len()
                &&& #[trigger] tiles[i] == t
                &&& t.coordinate == coordinate
                &&& forall|j: int|
                    i < j < tiles.len() ==> (#[trigger] tiles[j]).coordinate != coordinate
            },
    }
}

impl TerrainMosaic {
    /// The tiles in the order of their coordinates.
    pub closed spec fn spec_tiles(&self) -> Seq<Arc<HgtTile>> {
        self.tiles@
    }

    pub open spec fn wf(&self) -> bool {
        strictly_ordered(self.spec_tiles())
    }

    /// The tile with a coordinate, if there is one.
    pub open spec fn holds(&self, coordinate: TileCoordinate, tile: Option<Arc<HgtTile>>) -> bool {
        is_latest(self.spec_tiles(), coordinate, tile)
    }

    /// A mosaic of some tiles. Where two have the same coordinate, the later one
    /// stays.
    pub fn new(tiles: Vec<Arc<HgtTile>>) -> (mosaic: Self)
        ensures
            mosaic.wf(),
            forall|c: TileCoordinate, t: Option<Arc<HgtTile>>| #[trigger]
                mosaic.holds(c, t) <==> is_latest(tiles@, c, t),
    {
        let mut rest = tiles;
        let mut kept: Vec<Arc<HgtTile>> = Vec::new();
        while rest.len() > 0
            invariant
                rest@.len() <= tiles@.len(),
                rest@ == tiles@.take(rest@.len() as int),
                strictly_ordered(kept@),
                forall|i: int|
                    0 <= i < kept@.len() ==> is_latest(
                        tiles@,
                        (#[trigger] kept@[i]).coordinate,
                        Some(kept@[i]),
                    ),
                forall|j: int|
                    rest@.len() <= j < tiles@.len() ==> has_tile_at(
                        kept@,
                        (#[trigger] tiles@[j]).coordinate,
                    ),
            decreases rest@.len(),
        {
            let ghost before = rest@;
            let ghost old_kept = kept@;
            let tile = match rest.pop() {
                Some(tile) => tile,
                None => {
                    return TerrainMosaic { tiles: kept };
                },
            };
            let ghost at = rest@.len() as int;
            proof {
                assert(tile == tiles@[at]);
                assert(rest@ =~= tiles@.take(at));
            }
            let key: i64 = tile.coordinate.order_key();
            let place: usize = Self::place_of(&kept, key);
            if place < kept.len() && kept[place].coordinate.order_key() == key {
                proof {
                    tile.coordinate.lemma_key(kept@[place as int].coordinate);
                    assert(kept@[place as int].coordinate == tiles@[at].coordinate);
                }
            } else {
                proof {
                    assert forall|j: int| at < j < tiles@.len() implies (
                    #[trigger] tiles@[j]).coordinate != tile.coordinate by {
                        let i = choose|i: int|
                            0 <= i < kept@.len() && kept@[i].coordinate == tiles@[j].coordinate;
                        assert(kept@[i].coordinate.key() != key);
                    }
                    assert(is_latest(tiles@, tile.coordinate, Some(tile)));
                }
                let ghost pushed = tile;
                kept.insert(place, tile);
                proof {
                    assert(kept@ =~= old_kept.insert(place as int, pushed));
                    assert forall|i: int, j: int| 0 <= i < j < kept@.len() implies (
                    #[trigger] kept@[i]).coordinate.key() < (#[trigger] kept@[j]).coordinate.key() by {
                        let a = if i < place {
                            i
                        } else {
                            i - 1
                        };
                        let b = if j < place {
                            j
                        } else {
                            j - 1
                        };
                        if i != place && j != place {
                            assert(old_kept[a].coordinate.key() < old_kept[b].coordinate.key());
                        }
                    }
                    assert forall|i: int| 0 <= i < kept@.len() implies is_latest(
                        tiles@,
                        (#[trigger] kept@[i]).coordinate,
                        Some(kept@[i]),
                    ) by {
                        if i < place {
                            assert(kept@[i] == old_kept[i]);
                        } else if i > place {
                            assert(kept@[i] == old_kept[i - 1]);
                        }
                    }
                    assert forall|j: int| rest@.len() <= j < tiles@.len() implies has_tile_at(
                        kept@,
                        (#[trigger] tiles@[j]).coordinate,
                    ) by {
                        if j == at {
                            assert(kept@[place as int].coordinate == tiles@[j].coordinate);
                        } else {
                            let i = choose|i: int|
                                0 <= i < old_kept.len() && old_kept[i].coordinate
                                    == tiles@[j].coordinate;
                            if i < place {
                                assert(kept@[i] == old_kept[i]);
                            } else {
                                assert(kept@[i + 1] == old_kept[i]);
                            }
                        }
                    }
                }
            }
        }
        let mosaic = TerrainMosaic { tiles: kept };
        proof {
            assert forall|c: TileCoordinate, t: Option<Arc<HgtTile>>| #[trigger]
                mosaic.holds(c, t) <==> is_latest(tiles@, c, t) by {
                lemma_same_latest(kept@, tiles@, c, t);
            }
        }
        mosaic
    }

    /// The first place whose tile does not come before a key.
    fn place_of(tiles: &Vec<Arc<HgtTile>>, key: i64) -> (place: usize)
        requires
            strictly_ordered(tiles@),
        ensures
            place <= tiles@.len(),
            forall|i: int| 0 <= i < place ==> (#[trigger] tiles@[i]).coordinate.key() < key,
            forall|i: int|
                place <= i < tiles@.len() ==> key <= (#[trigger] tiles@[i]).coordinate.key(),
    {
        let mut low: usize = 0;
        let mut high: usize = tiles.len();
        while low < high
            invariant
                low <= high <= tiles@.len(),
                strictly_ordered(tiles@),
                forall|i: int| 0 <= i < low ==> (#[trigger] tiles@[i]).coordinate.key() < key,
                forall|i: int|
                    high <= i < tiles@.len() ==> key <= (#[trigger] tiles@[i]).coordinate.key(),
            decreases high - low,
        {
            let middle: usize = low + (high - low) / 2;
            if tiles[middle].coordinate.order_key() < key {
                low = middle + 1;
            } else {
                high = middle;
            }
        }
        low
    }

    pub fn tile(&self, coordinate: TileCoordinate) -> (tile: Result<&HgtTile, TerrainError>)
        requires
            self.wf(),
        ensures
            tile matches Ok(t) ==> t.coordinate == coordinate && exists|i: int|
                0 <= i < self.spec_tiles().len() && #[trigger] self.spec_tiles()[i] == Arc::new(*t),
            tile matches Ok(t) ==> self.holds(coordinate, Some(Arc::new(*t))),
            tile matches Err(e) ==> self.holds(coordinate, None) && e == TerrainError::Missing(
                coordinate,
            ),
    {
        let key: i64 = coordinate.order_key();
        let place: usize = Self::place_of(&self.tiles, key);
        if place < self.tiles.len() && self.tiles[place].coordinate.order_key() == key {
            let found: &Arc<HgtTile> = &self.tiles[place];
            proof {
                coordinate.lemma_key(found.coordinate);
                assert forall|j: int| place < j < self.tiles@.len() implies (
                #[trigger] self.tiles@[j]).coordinate != coordinate by {
                    assert(self.tiles@[place as int].coordinate.key()
                        < self.tiles@[j].coordinate.key());
                }
                assert(self.spec_tiles()[place as int] == *found);
            }
            Ok(&**found)
        } else {
            proof {
                assert forall|i: int| 0 <= i < self.spec_tiles().len() implies (
                #[trigger] self.spec_tiles()[i]).coordinate != coordinate by {
                    if i > place {
                        assert(self.tiles@[place as int].coordinate.key()
                            < self.tiles@[i].coordinate.key());
                    }
                }
            }
            Err(TerrainError::Missing(coordinate))
        }
    }

    pub fn len(&self) -> (n: usize)
        ensures
            n == self.spec_tiles().len(),
    {
        self.tiles.len()
    }

    pub fn is_empty(&self) -> (b: bool)
        ensures
            b <==> self.spec_tiles().len() == 0,
    {
        self.tiles.len() == 0
    }
}

impl Default for TerrainMosaic {
    fn default() -> (mosaic: Self)
        ensures
            mosaic.wf(),
            mosaic.spec_tiles() == Seq::<Arc<HgtTile>>::empty(),
    {
        TerrainMosaic { tiles: Vec::new() }
    }
}

/// An ordered selection of the latest tiles has the same latest tiles.
proof fn lemma_same_latest(
    kept: Seq<Arc<HgtTile>>,
    tiles: Seq<Arc<HgtTile>>,
    c: TileCoordinate,
    t: Option<Arc<HgtTile>>,
)
    requires
        strictly_ordered(kept),
        forall|i: int|
            0 <= i < kept.len() ==> is_latest(
                tiles,
                (#[trigger] kept[i]).coordinate,
                Some(kept[i]),
            ),
        forall|j: int|
            0 <= j < tiles.len() ==> has_tile_at(kept, (#[trigger] tiles[j]).coordinate),
    ensures
        is_latest(kept, c, t) <==> is_latest(tiles, c, t),
{
    if is_latest(kept, c, t) {
        match t {
            Some(tile) => {
                let i = choose|i: int|
                    0 <= i < kept.len() && #[trigger] kept[i] == tile && tile.coordinate == c;
                assert(is_latest(tiles, kept[i].coordinate, Some(kept[i])));
            },
            None => {
                assert forall|j: int| 0 <= j < tiles.len() implies (
                #[trigger] tiles[j]).coordinate != c by {
                    let i = choose|i: int|
                        0 <= i < kept.len() && kept[i].coordinate == tiles[j].coordinate;
                    assert(kept[i].coordinate != c);
                }
            },
        }
    }
    if is_latest(tiles, c, t) {
        match t {
            Some(tile) => {
                let j = choose|j: int|
                    {
                        &&& 0 <= j < tiles.len()
                        &&& #[trigger] tiles[j] == tile
                        &&& tile.coordinate == c
                        &&& forall|k: int|
                            j < k < tiles.len() ==> (#[trigger] tiles[k]).coordinate != c
                    };
                let i = choose|i: int|
                    0 <= i < kept.len() && kept[i].coordinate == tiles[j].coordinate;
                assert(is_latest(tiles, kept[i].coordinate, Some(kept[i])));
                let j2 = choose|j2: int|
                    {
                        &&& 0 <= j2 < tiles.len()
                        &&& #[trigger] tiles[j2] == kept[i]
                        &&& kept[i].coordinate == c
                        &&& forall|k: int|
                            j2 < k < tiles.len() ==> (#[trigger] tiles[k]).coordinate != c
                    };
                assert(tiles[j].coordinate == c);
                assert(tiles[j2].coordinate == c);
                assert(j == j2);
                assert(kept[i] == tile);
                assert forall|k: int| i < k < kept.len() implies (#[trigger] kept[k]).coordinate
                    != c by {
                    assert(kept[i].coordinate.key() < kept[k].coordinate.key());
                }
            },
            None => {
                assert forall|i: int| 0 <= i < kept.len() implies (#[trigger] kept[i]).coordinate
                    != c by {
                    assert(is_latest(tiles, kept[i].coordinate, Some(kept[i])));
                    let j = choose|j: int|
                        0 <= j < tiles.len() && #[trigger] tiles[j] == kept[i];
                    assert(tiles[j].coordinate != c);
                }
            },
        }
    }
}

/// A number lies between two bounds, both included.
pub open spec fn within(low: u64, number: Binary64, high: u64) -> bool {
    Binary64::from_bits(low).spec_le(number) && number.spec_le(Binary64::from_bits(high))
}

fn is_within(low: u64, number: Binary64, high: u64) -> (b: bool)
    ensures
        b == within(low, number, high),
{
    Binary64::from_bits(low).le(number) && number.le(Binary64::from_bits(high))
}

/// A latitude from -90 to 90 degrees.
pub open spec fn is_latitude(number: Binary64) -> bool {
    within(0xc056_8000_0000_0000, number, 0x4056_8000_0000_0000)
}

/// A longitude from -180 to 180 degrees.
pub open spec fn is_longitude(number: Binary64) -> bool {
    within(0xc066_8000_0000_0000, number, 0x4066_8000_0000_0000)
}

pub fn check_latitude(number: Binary64) -> (b: bool)
    ensures
        b == is_latitude(number),
{
    is_within(0xc056_8000_0000_0000, number, 0x4056_8000_0000_0000)
}

pub fn check_longitude(number: Binary64) -> (b: bool)
    ensures
        b == is_longitude(number),
{
    is_within(0xc066_8000_0000_0000, number, 0x4066_8000_0000_0000)
}

/// The tile that holds a place. The north pole and the antimeridian belong to
/// the last tile before them.
pub open spec fn tile_holding(latitude: Binary64, longitude: Binary64) -> TileCoordinate {
    TileCoordinate {
        lat: if latitude.spec_floor() > 89 {
            89
        } else {
            latitude.spec_floor() as i16
        },
        lon: if longitude.spec_num_eq(Binary64::from_bits(0x4066_8000_0000_0000)) {
            179
        } else {
            longitude.spec_floor() as i16
        },
    }
}

/// Finds the tile of a place.
pub fn tile_of(latitude: Binary64, longitude: Binary64) -> (tile: Result<
    TileCoordinate,
    TerrainError,
>)
    ensures
        tile is Ok <==> is_latitude(latitude) && is_longitude(longitude),
        tile matches Ok(c) ==> c == tile_holding(latitude, longitude),
        tile matches Err(e) ==> e == TerrainError::Coordinates,
{
    if !check_latitude(latitude) || !check_longitude(longitude) {
        return Err(TerrainError::Coordinates);
    }
    let south: i32 = latitude.floor();
    let lat: i16 = if south > 89 {
        89
    } else {
        south as i16
    };
    let lon: i16 = if longitude.num_eq(Binary64::from_bits(0x4066_8000_0000_0000)) {
        179
    } else {
        let west: i32 = longitude.floor();
        proof {
            longitude.lemma_floor_below();
        }
        west as i16
    };
    Ok(TileCoordinate { lat, lon })
}

/// The smaller of two numbers.
pub open spec fn smaller(a: int, b: int) -> int {
    if b < a {
        b
    } else {
        a
    }
}

/// The surface height of a tile at a place: the sample there, or at the nearest
/// edge, but never below the water.
pub open spec fn surface_height(tile: &HgtTile, row: int, col: int) -> Option<i16> {
    match tile.spec_sample(smaller(row, tile.dimension - 1), smaller(col, tile.dimension - 1)) {
        Some(height) => Some(
            if height < 0 {
                0
            } else {
                height
            },
        ),
        None => None,
    }
}

impl TerrainMosaic {
    /// All tiles have samples.
    pub open spec fn tiles_wf(&self) -> bool {
        forall|i: int| 0 <= i < self.spec_tiles().len() ==> (#[trigger] self.spec_tiles()[i]).wf()
    }

    /// `height` is what the mosaic says of a place whose row and column in its
    /// tile are known.
    pub open spec fn is_sample(
        &self,
        latitude: Binary64,
        longitude: Binary64,
        row: usize,
        col: usize,
        height: Result<Option<i16>, TerrainError>,
    ) -> bool {
        match height {
            Ok(h) => is_latitude(latitude) && is_longitude(longitude) && exists|
                tile: Arc<HgtTile>,
            | #[trigger]
                self.holds(tile_holding(latitude, longitude), Some(tile)) && h == surface_height(
                    &tile,
                    row as int,
                    col as int,
                ),
            Err(e) => if is_latitude(latitude) && is_longitude(longitude) {
                e == TerrainError::Missing(tile_holding(latitude, longitude)) && self.holds(
                    tile_holding(latitude, longitude),
                    None,
                )
            } else {
                e == TerrainError::Coordinates
            },
        }
    }

    /// The surface height at a place whose row and column in its tile are known.
    /// Tiles hold bathymetry in ocean cells; a viewshed follows the water
    /// surface, not the sea floor.
    pub fn sample(&self, latitude: Binary64, longitude: Binary64, row: usize, col: usize) -> (height:
        Result<Option<i16>, TerrainError>)
        requires
            self.wf(),
            self.tiles_wf(),
        ensures
            self.is_sample(latitude, longitude, row, col, height),
    {
        let coordinate = match tile_of(latitude, longitude) {
            Ok(coordinate) => coordinate,
            Err(error) => {
                return Err(error);
            },
        };
        let tile = match self.tile(coordinate) {
            Ok(tile) => tile,
            Err(error) => {
                return Err(error);
            },
        };
        let ghost shared = Arc::new(*tile);
        proof {
            let i = choose|i: int|
                0 <= i < self.spec_tiles().len() && #[trigger] self.spec_tiles()[i] == shared;
            assert(self.spec_tiles()[i].wf());
            assert(self.holds(coordinate, Some(shared)));
        }
        let last: usize = tile.dimension - 1;
        let inner_row: usize = if last < row {
            last
        } else {
            row
        };
        let inner_col: usize = if last < col {
            last
        } else {
            col
        };
        Ok(
            match tile.sample(inner_row, inner_col) {
                Some(height) => Some(
                    if height < 0 {
                        0
                    } else {
                        height
                    },
                ),
                None => None,
            },
        )
    }

    /// Deterministic hash of tile coordinates, dimensions and every decoded
    /// elevation sample, in the order of the coordinates.
    pub fn content_hash(&self) -> (text: String)
        ensures
            text@ == hex(blake3_digest(mosaic_bytes(self.spec_tiles()))),
    {
        let mut hasher = new_hasher();
        let mut version: Vec<u8> = Vec::new();
        push_le(&mut version, TERRAIN_MODEL_VERSION as u64, 2);
        feed(&mut hasher, version.as_slice());
        let mut i: usize = 0;
        assert(self.tiles@.take(0) =~= Seq::<Arc<HgtTile>>::empty());
        assert(hasher_input(hasher) =~= mosaic_bytes(self.tiles@.take(0)));
        while i < self.tiles.len()
            invariant
                i <= self.tiles@.len(),
                hasher_input(hasher) == mosaic_bytes(self.tiles@.take(i as int)),
            decreases self.tiles@.len() - i,
        {
            assert(self.tiles@.take(i + 1).drop_last() =~= self.tiles@.take(i as int));
            let bytes = encode_tile(&self.tiles[i]);
            feed(&mut hasher, bytes.as_slice());
            i += 1;
        }
        assert(self.tiles@.take(i as int) =~= self.tiles@);
        let digest = finish(&hasher);
        hex_text(digest.as_slice())
    }
}

/// What the hash of a mosaic covers of one tile.
pub open spec fn tile_bytes(tile: &HgtTile) -> Seq<u8> {
    le_bytes(unsigned16(tile.coordinate.lat) as nat, 2) + le_bytes(
        unsigned16(tile.coordinate.lon) as nat,
        2,
    ) + le_bytes(tile.dimension as nat, 8) + le_words(
        tile.heights@.map_values(|h: i16| unsigned16(h) as nat),
        2,
    )
}

/// What the hash of a mosaic covers: the model version, then every tile.
pub open spec fn mosaic_bytes(tiles: Seq<Arc<HgtTile>>) -> Seq<u8>
    decreases tiles.len(),
{
    if tiles.len() == 0 {
        le_bytes(TERRAIN_MODEL_VERSION as nat, 2)
    } else {
        mosaic_bytes(tiles.drop_last()) + tile_bytes(&tiles.last())
    }
}

fn encode_tile(tile: &HgtTile) -> (bytes: Vec<u8>)
    ensures
        bytes@ == tile_bytes(tile),
{
    let mut bytes: Vec<u8> = Vec::new();
    push_le(&mut bytes, to_unsigned16(tile.coordinate.lat) as u64, 2);
    push_le(&mut bytes, to_unsigned16(tile.coordinate.lon) as u64, 2);
    push_le(&mut bytes, tile.dimension as u64, 8);
    let ghost head = bytes@;
    let ghost values = tile.heights@.map_values(|h: i16| unsigned16(h) as nat);
    let mut i: usize = 0;
    assert(values.take(0) =~= Seq::<nat>::empty());
    assert(bytes@ =~= head + le_words(values.take(0), 2));
    while i < tile.heights.len()
        invariant
            i <= tile.heights@.len(),
            values == tile.heights@.map_values(|h: i16| unsigned16(h) as nat),
            bytes@ == head + le_words(values.take(i as int), 2),
        decreases tile.heights@.len() - i,
    {
        assert(values.take(i + 1).drop_last() =~= values.take(i as int));
        push_le(&mut bytes, to_unsigned16(tile.heights[i]) as u64, 2);
        i += 1;
        assert(bytes@ =~= head + le_words(values.take(i as int), 2));
    }
    assert(values.take(i as int) =~= values);
    assert(bytes@ =~= tile_bytes(tile));
    bytes
}

/// Two mosaics that hold the same tiles hold them in the same order, so that
/// their content hashes agree whatever the order in which the tiles came.
pub proof fn law_mosaic_is_canonical(a: TerrainMosaic, b: TerrainMosaic)
    requires
        a.wf(),
        b.wf(),
        forall|c: TileCoordinate, t: Option<Arc<HgtTile>>| #[trigger]
            a.holds(c, t) <==> #[trigger] b.holds(c, t),
    ensures
        a.spec_tiles() == b.spec_tiles(),
        mosaic_bytes(a.spec_tiles()) == mosaic_bytes(b.spec_tiles()),
{
    let s = a.spec_tiles();
    let t = b.spec_tiles();
    assert forall|tile: Arc<HgtTile>| s.contains(tile) <==> t.contains(tile) by {
        lemma_ordered_holds(s, tile);
        lemma_ordered_holds(t, tile);
        assert(a.holds(tile.coordinate, Some(tile)) <==> b.holds(tile.coordinate, Some(tile)));
    }
    lemma_ordered_unique(s, t);
}

proof fn lemma_ordered_holds(tiles: Seq<Arc<HgtTile>>, tile: Arc<HgtTile>)
    requires
        strictly_ordered(tiles),
    ensures
        tiles.contains(tile) <==> is_latest(tiles, tile.coordinate, Some(tile)),
{
    if tiles.contains(tile) {
        let i = choose|i: int| 0 <= i < tiles.len() && tiles[i] == tile;
        assert forall|j: int| i < j < tiles.len() implies (#[trigger] tiles[j]).coordinate
            != tile.coordinate by {
            assert(tiles[i].coordinate.key() < tiles[j].coordinate.key());
        }
        assert(tiles[i] == tile);
    }
}

proof fn lemma_ordered_unique(s: Seq<Arc<HgtTile>>, t: Seq<Arc<HgtTile>>)
    requires
        strictly_ordered(s),
        strictly_ordered(t),
        forall|tile: Arc<HgtTile>| s.contains(tile) <==> t.contains(tile),
    ensures
        s == t,
    decreases s.len(),
{
    if s.len() == 0 {
        if t.len() > 0 {
            assert(t.contains(t[0]));
        }
        assert(s =~= t);
    } else {
        let last = s.last();
        assert(s.contains(last));
        assert(t.contains(last));
        let at = choose|i: int| 0 <= i < t.len() && t[i] == last;
        if at < t.len() - 1 {
            let other = t.last();
            assert(t.contains(other));
            let from = choose|i: int| 0 <= i < s.len() && s[i] == other;
            assert(t[at].coordinate.key() < t[t.len() - 1].coordinate.key());
            if from < s.len() - 1 {
                assert(s[from].coordinate.key() < s[s.len() - 1].coordinate.key());
            }
        }
        let s2 = s.drop_last();
        let t2 = t.drop_last();
        assert(strictly_ordered(s2)) by {
            assert forall|i: int, j: int| 0 <= i < j < s2.len() implies (
            #[trigger] s2[i]).coordinate.key() < (#[trigger] s2[j]).coordinate.key() by {
                assert(s[i].coordinate.key() < s[j].coordinate.key());
            }
        }
        assert(strictly_ordered(t2)) by {
            assert forall|i: int, j: int| 0 <= i < j < t2.len() implies (
            #[trigger] t2[i]).coordinate.key() < (#[trigger] t2[j]).coordinate.key() by {
                assert(t[i].coordinate.key() < t[j].coordinate.key());
            }
        }
        assert forall|tile: Arc<HgtTile>| s2.contains(tile) <==> t2.contains(tile) by {
            lemma_drop_last_contains(s, tile);
            lemma_drop_last_contains(t, tile);
        }
        lemma_ordered_unique(s2, t2);
        assert(s =~= s2.push(last));
        assert(t =~= t2.push(last));
    }
}

proof fn lemma_drop_last_contains(s: Seq<Arc<HgtTile>>, tile: Arc<HgtTile>)
    requires
        strictly_ordered(s),
        s.len() > 0,
    ensures
        s.drop_last().contains(tile) <==> s.contains(tile) && tile != s.last(),
{
    let rest = s.drop_last();
    if rest.contains(tile) {
        let i = choose|i: int| 0 <= i < rest.len() && rest[i] == tile;
        assert(s[i] == tile);
        assert(s[i].coordinate.key() < s[s.len() - 1].coordinate.key());
    }
    if s.contains(tile) && tile != s.last() {
        let i = choose|i: int| 0 <= i < s.len() && s[i] == tile;
        assert(rest[i] == tile);
    }
}

/// The latitude of a radar, its longitude and a range of at most a thousand
/// kilometres.
pub open spec fn radius_wf(latitude: Binary64, longitude: Binary64, range_m: Binary64) -> bool {
    is_latitude(latitude) && is_longitude(longitude) && within(
        0,
        range_m,
        0x412e_8480_0000_0000,
    )
}

pub fn check_radius(latitude: Binary64, longitude: Binary64, range_m: Binary64) -> (checked: Result<
    (),
    TerrainError,
>)
    ensures
        checked is Ok <==> radius_wf(latitude, longitude, range_m),
        checked matches Err(e) ==> e == TerrainError::Coordinates,
{
    if !check_latitude(latitude) || !check_longitude(longitude) || !is_within(
        0,
        range_m,
        0x412e_8480_0000_0000,
    ) {
        return Err(TerrainError::Coordinates);
    }
    Ok(())
}

/// The tile of a place lies on the globe.
pub proof fn lemma_tile_holding(latitude: Binary64, longitude: Binary64)
    requires
        is_latitude(latitude),
        is_longitude(longitude),
    ensures
        -90 <= tile_holding(latitude, longitude).lat <= 89,
        -180 <= tile_holding(latitude, longitude).lon <= 179,
{
    latitude.lemma_floor_degrees(90);
    longitude.lemma_floor_degrees(180);
}

/// A row of tiles, or the nearest one.
pub open spec fn capped_row(row: i16) -> int {
    if row < -90 {
        -90
    } else if row > 89 {
        89
    } else {
        row as int
    }
}

/// Which tiles a radar needs: its own, and those of the rows from `south` to
/// `north` whose column is needed. Column 0 is the one east of the antimeridian.
pub open spec fn is_needed(
    tile: TileCoordinate,
    own: TileCoordinate,
    south: i16,
    north: i16,
    columns: Seq<bool>,
) -> bool {
    tile == own || (capped_row(south) <= tile.lat <= capped_row(north) && -180 <= tile.lon <= 179
        && columns[tile.lon + 180])
}

fn cap_row(row: i16) -> (capped: i16)
    ensures
        capped == capped_row(row),
{
    if row < -90 {
        -90
    } else if row > 89 {
        89
    } else {
        row
    }
}

/// Returns every one-degree tile of some rows and columns, and the one that holds
/// the radar, ordered and without repetition. The rows and columns are those of a
/// conservative geodesic bounding box around a radar; a row beyond a pole stands
/// for the last one before it.
pub fn tiles_for_radius(
    latitude: Binary64,
    longitude: Binary64,
    range_m: Binary64,
    south: i16,
    north: i16,
    columns: &[bool],
) -> (tiles: Result<Vec<TileCoordinate>, TerrainError>)
    requires
        columns@.len() == 360,
    ensures
        tiles is Ok <==> radius_wf(latitude, longitude, range_m),
        tiles matches Err(e) ==> e == TerrainError::Coordinates,
        tiles matches Ok(found) ==> {
            let own = tile_holding(latitude, longitude);
            &&& found@.contains(own)
            &&& forall|i: int|
                0 <= i < found@.len() ==> is_needed(
                    #[trigger] found@[i],
                    own,
                    south,
                    north,
                    columns@,
                ) && -90 <= found@[i].lat <= 89 && -180 <= found@[i].lon <= 179
            &&& forall|tile: TileCoordinate|
                is_needed(tile, own, south, north, columns@) ==> #[trigger] found@.contains(tile)
            &&& forall|i: int, j: int|
                0 <= i < j < found@.len() ==> (#[trigger] found@[i]).key() < (
                #[trigger] found@[j]).key()
        },
{
    match check_radius(latitude, longitude, range_m) {
        Ok(()) => {},
        Err(error) => {
            return Err(error);
        },
    }
    let own = match tile_of(latitude, longitude) {
        Ok(own) => own,
        Err(error) => {
            return Err(error);
        },
    };
    proof {
        lemma_tile_holding(latitude, longitude);
    }
    let low: i16 = cap_row(south);
    let high: i16 = cap_row(north);
    let first: i16 = if own.lat < low {
        own.lat
    } else {
        low
    };
    let last: i16 = if own.lat > high {
        own.lat
    } else {
        high
    };
    let mut tiles: Vec<TileCoordinate> = Vec::new();
    let mut lat: i16 = first;
    while lat <= last
        invariant
            -90 <= first <= lat <= last + 1,
            last <= 89,
            first <= own.lat <= last,
            -180 <= own.lon <= 179,
            low == capped_row(south),
            high == capped_row(north),
            first <= low,
            high <= last,
            columns@.len() == 360,
            forall|i: int|
                0 <= i < tiles@.len() ==> is_needed(
                    #[trigger] tiles@[i],
                    own,
                    south,
                    north,
                    columns@,
                ) && -90 <= tiles@[i].lat < lat && -180 <= tiles@[i].lon <= 179,
            forall|tile: TileCoordinate|
                is_needed(tile, own, south, north, columns@) && tile.lat < lat
                    ==> #[trigger] tiles@.contains(tile),
            forall|i: int, j: int|
                0 <= i < j < tiles@.len() ==> (#[trigger] tiles@[i]).key() < (
                #[trigger] tiles@[j]).key(),
        decreases last + 1 - lat,
    {
        let in_rows = low <= lat && lat <= high;
        let mut column: usize = 0;
        while column < 360
            invariant
                column <= 360,
                -90 <= first <= lat <= last <= 89,
                -180 <= own.lon <= 179,
                low == capped_row(south),
                high == capped_row(north),
                in_rows == (low <= lat <= high),
                columns@.len() == 360,
                forall|i: int|
                    0 <= i < tiles@.len() ==> is_needed(
                        #[trigger] tiles@[i],
                        own,
                        south,
                        north,
                        columns@,
                    ) && -90 <= tiles@[i].lat && -180 <= tiles@[i].lon <= 179 && (tiles@[i].lat
                        < lat || (tiles@[i].lat == lat && tiles@[i].lon < column - 180)),
                forall|tile: TileCoordinate|
                    is_needed(tile, own, south, north, columns@) && (tile.lat < lat || (tile.lat
                        == lat && tile.lon < column - 180)) ==> #[trigger] tiles@.contains(tile),
                forall|i: int, j: int|
                    0 <= i < j < tiles@.len() ==> (#[trigger] tiles@[i]).key() < (
                    #[trigger] tiles@[j]).key(),
            decreases 360 - column,
        {
            let lon: i16 = column as i16 - 180;
            let is_own = lat == own.lat && lon == own.lon;
            if is_own || (in_rows && columns[column]) {
                let ghost before = tiles@;
                let tile = TileCoordinate { lat, lon };
                tiles.push(tile);
                proof {
                    assert forall|other: TileCoordinate|
                        is_needed(other, own, south, north, columns@) && (other.lat < lat || (
                        other.lat == lat && other.lon < column + 1 - 180)) implies #[trigger]
                    tiles@.contains(other) by {
                        if other == tile {
                            assert(tiles@[before.len() as int] == other);
                        } else {
                            assert(before.contains(other));
                            let i = choose|i: int| 0 <= i < before.len() && before[i] == other;
                            assert(tiles@[i] == other);
                        }
                    }
                    assert forall|i: int, j: int| 0 <= i < j < tiles@.len() implies (
                    #[trigger] tiles@[i]).key() < (#[trigger] tiles@[j]).key() by {
                        if j == before.len() {
                            before[i].lemma_key(tile);
                        } else {
                            assert(before[i].key() < before[j].key());
                        }
                    }
                }
            }
            column += 1;
        }
        lat = lat + 1;
    }
    assert(is_needed(own, own, south, north, columns@));
    Ok(tiles)
}

/// Some list holds a tile.
pub open spec fn any_holds(lists: Seq<Vec<TileCoordinate>>, tile: TileCoordinate) -> bool {
    exists|i: int| 0 <= i < lists.len() && #[trigger] lists[i]@.contains(tile)
}

pub open spec fn keys_rise(tiles: Seq<TileCoordinate>) -> bool {
    forall|i: int, j: int|
        0 <= i < j < tiles.len() ==> (#[trigger] tiles[i]).key() < (#[trigger] tiles[j]).key()
}

/// Puts a tile into an ordered list, unless it is there.
fn add_coordinate(tiles: &mut Vec<TileCoordinate>, tile: TileCoordinate)
    requires
        keys_rise(old(tiles)@),
    ensures
        keys_rise(final(tiles)@),
        forall|other: TileCoordinate| #[trigger]
            final(tiles)@.contains(other) <==> other == tile || old(tiles)@.contains(other),
{
    let key: i64 = tile.order_key();
    let mut low: usize = 0;
    let mut high: usize = tiles.len();
    while low < high
        invariant
            low <= high <= tiles@.len(),
            tiles@ == old(tiles)@,
            key == tile.key(),
            keys_rise(tiles@),
            forall|i: int| 0 <= i < low ==> (#[trigger] tiles@[i]).key() < key,
            forall|i: int| high <= i < tiles@.len() ==> key <= (#[trigger] tiles@[i]).key(),
        decreases high - low,
    {
        let middle: usize = low + (high - low) / 2;
        if tiles[middle].order_key() < key {
            low = middle + 1;
        } else {
            high = middle;
        }
    }
    let ghost before = tiles@;
    if low < tiles.len() && tiles[low].order_key() == key {
        proof {
            tile.lemma_key(before[low as int]);
            assert(before[low as int] == tile);
        }
        return;
    }
    tiles.insert(low, tile);
    proof {
        assert(tiles@ =~= before.insert(low as int, tile));
        assert forall|i: int, j: int| 0 <= i < j < tiles@.len() implies (
        #[trigger] tiles@[i]).key() < (#[trigger] tiles@[j]).key() by {
            let a = if i < low {
                i
            } else {
                i - 1
            };
            let b = if j < low {
                j
            } else {
                j - 1
            };
            if i != low && j != low {
                assert(before[a].key() < before[b].key());
            } else if i == low {
                if b > low {
                    assert(before[low as int].key() < before[b].key());
                }
            }
        }
        assert forall|other: TileCoordinate| #[trigger]
            tiles@.contains(other) <==> other == tile || before.contains(other) by {
            if tiles@.contains(other) {
                let i = choose|i: int| 0 <= i < tiles@.len() && tiles@[i] == other;
                if i < low {
                    assert(before[i] == other);
                } else if i > low {
                    assert(before[i - 1] == other);
                }
            }
            if other == tile {
                assert(tiles@[low as int] == other);
            } else if before.contains(other) {
                let i = choose|i: int| 0 <= i < before.len() && before[i] == other;
                if i < low {
                    assert(tiles@[i] == other);
                } else {
                    assert(tiles@[i + 1] == other);
                }
            }
        }
    }
}

/// The tiles that several radars need together, ordered and without repetition.
pub fn merge_coordinates(lists: &[Vec<TileCoordinate>]) -> (tiles: Vec<TileCoordinate>)
    ensures
        keys_rise(tiles@),
        forall|tile: TileCoordinate| #[trigger]
            tiles@.contains(tile) <==> any_holds(lists@, tile),
{
    let mut tiles: Vec<TileCoordinate> = Vec::new();
    let mut l: usize = 0;
    while l < lists.len()
        invariant
            l <= lists@.len(),
            keys_rise(tiles@),
            forall|tile: TileCoordinate| #[trigger]
                tiles@.contains(tile) <==> any_holds(lists@.take(l as int), tile),
        decreases lists@.len() - l,
    {
        let list = &lists[l];
        let ghost before = tiles@;
        let mut i: usize = 0;
        while i < list.len()
            invariant
                i <= list@.len(),
                keys_rise(tiles@),
                forall|tile: TileCoordinate| #[trigger]
                    tiles@.contains(tile) <==> before.contains(tile) || list@.take(
                        i as int,
                    ).contains(tile),
            decreases list@.len() - i,
        {
            let ghost part = list@.take(i as int);
            add_coordinate(&mut tiles, list[i]);
            proof {
                assert(list@.take(i + 1) =~= part.push(list@[i as int]));
                assert forall|tile: TileCoordinate| #[trigger]
                    tiles@.contains(tile) <==> before.contains(tile) || list@.take(
                        i + 1,
                    ).contains(tile) by {
                    let longer = part.push(list@[i as int]);
                    if part.contains(tile) {
                        let k = choose|k: int| 0 <= k < part.len() && part[k] == tile;
                        assert(longer[k] == tile);
                    }
                    if tile == list@[i as int] {
                        assert(longer[i as int] == tile);
                    }
                    if longer.contains(tile) {
                        let k = choose|k: int| 0 <= k < longer.len() && longer[k] == tile;
                        if k < part.len() {
                            assert(part[k] == tile);
                        }
                    }
                }
            }
            i += 1;
        }
        proof {
            let done = lists@.take(l as int);
            let more = lists@.take(l + 1);
            assert(list@.take(i as int) =~= list@);
            assert forall|tile: TileCoordinate| #[trigger]
                tiles@.contains(tile) <==> any_holds(more, tile) by {
                assert(forall|k: int| 0 <= k < l ==> more[k] == done[k]);
                if any_holds(done, tile) {
                    let k = choose|k: int| 0 <= k < done.len() && #[trigger] done[k]@.contains(tile);
                    assert(more[k]@.contains(tile));
                }
                if list@.contains(tile) {
                    assert(more[l as int]@.contains(tile));
                }
                if any_holds(more, tile) {
                    let k = choose|k: int| 0 <= k < more.len() && #[trigger] more[k]@.contains(tile);
                    if k < l {
                        assert(done[k]@.contains(tile));
                    }
                }
            }
        }
        l += 1;
    }
    assert(lists@.take(l as int) =~= lists@);
    tiles
}

/// A mosaic samples the tile of a place at the row and the column asked for, or at
/// the tile's last ones where these lie beyond it. The height is that entry of the
/// tile, row by row, raised to zero where it is negative, and is absent just where
/// the entry is void.
pub proof fn law_sample_reads_row_and_column(
    mosaic: TerrainMosaic,
    latitude: Binary64,
    longitude: Binary64,
    row: usize,
    col: usize,
    height: Result<Option<i16>, TerrainError>,
    k: int,
    r: int,
    c: int,
)
    requires
        mosaic.wf(),
        mosaic.is_sample(latitude, longitude, row, col, height),
        is_latitude(latitude),
        is_longitude(longitude),
        0 <= k < mosaic.spec_tiles().len(),
        mosaic.spec_tiles()[k].coordinate == tile_holding(latitude, longitude),
        mosaic.spec_tiles()[k].dimension >= 1,
        mosaic.spec_tiles()[k].heights@.len() == mosaic.spec_tiles()[k].dimension
            * mosaic.spec_tiles()[k].dimension,
        0 <= r < mosaic.spec_tiles()[k].dimension,
        0 <= c < mosaic.spec_tiles()[k].dimension,
        row == r || (row > r && r == mosaic.spec_tiles()[k].dimension - 1),
        col == c || (col > c && c == mosaic.spec_tiles()[k].dimension - 1),
    ensures
        ({
            let tile = mosaic.spec_tiles()[k];
            let entry = tile.heights@[r * tile.dimension + c];
            &&& height is Ok
            &&& height->Ok_0 is None <==> entry == -32768
            &&& height->Ok_0 matches Some(h) ==> h >= 0 && (entry >= 0 ==> h == entry) && (entry < 0
                ==> h == 0)
        }),
{
    let tiles = mosaic.spec_tiles();
    let place = tile_holding(latitude, longitude);
    let tile = tiles[k];
    crate::los::lemma_row_major(tile.dimension as int, tile.dimension as int, c, r);
    match height {
        Ok(h) => {
            let found = choose|found: Arc<HgtTile>| #[trigger]
                mosaic.holds(place, Some(found)) && h == surface_height(
                    &found,
                    row as int,
                    col as int,
                );
            let i = choose|i: int|
                {
                    &&& 0 <= i < tiles.len()
                    &&& #[trigger] tiles[i] == found
                    &&& found.coordinate == place
                    &&& forall|j: int|
                        i < j < tiles.len() ==> (#[trigger] tiles[j]).coordinate != place
                };
            assert(i == k) by {
                if i < k {
                    assert(tiles[k].coordinate != place);
                } else if k < i {
                    assert(tiles[k].coordinate.key() < tiles[i].coordinate.key());
                }
            }
        },
        Err(e) => {
            assert(mosaic.holds(place, None));
            assert(tiles[k].coordinate != place);
        },
    }
}

/// A place is refused just where it is off the globe, and its tile is missing just
/// where the mosaic has none for it.
pub proof fn law_sample_fails_for_cause(
    mosaic: TerrainMosaic,
    latitude: Binary64,
    longitude: Binary64,
    row: usize,
    col: usize,
    height: Result<Option<i16>, TerrainError>,
)
    requires
        mosaic.is_sample(latitude, longitude, row, col, height),
    ensures
        height is Ok <==> is_latitude(latitude) && is_longitude(longitude) && exists|k: int|
            0 <= k < mosaic.spec_tiles().len() && (#[trigger] mosaic.spec_tiles()[k]).coordinate
                == tile_holding(latitude, longitude),
        height matches Err(e) ==> if is_latitude(latitude) && is_longitude(longitude) {
            e == TerrainError::Missing(tile_holding(latitude, longitude))
        } else {
            e == TerrainError::Coordinates
        },
{
    let tiles = mosaic.spec_tiles();
    let place = tile_holding(latitude, longitude);
    match height {
        Ok(h) => {
            let found = choose|found: Arc<HgtTile>| #[trigger]
                mosaic.holds(place, Some(found)) && h == surface_height(
                    &found,
                    row as int,
                    col as int,
                );
            let i = choose|i: int|
                {
                    &&& 0 <= i < tiles.len()
                    &&& #[trigger] tiles[i] == found
                    &&& found.coordinate == place
                    &&& forall|j: int|
                        i < j < tiles.len() ==> (#[trigger] tiles[j]).coordinate != place
                };
            assert(tiles[i].coordinate == place);
        },
        Err(e) => {},
    }
}

/// A tile reads its own entries row by row: one step to the east is the next entry,
/// and a void entry reads as nothing.
pub proof fn law_tile_reads_row_by_row(tile: &HgtTile, row: int, col: int)
    requires
        0 <= row < tile.dimension,
        0 <= col < tile.dimension,
        tile.heights@.len() == tile.dimension * tile.dimension,
    ensures
        tile.spec_sample(row, col) is None <==> tile.heights@[row * tile.dimension + col] == -32768,
        tile.spec_sample(row, col) matches Some(h) ==> h == tile.heights@[row * tile.dimension
            + col],
{
    crate::los::lemma_row_major(tile.dimension as int, tile.dimension as int, col, row);
}

/// A decoded tile holds the numbers of its bytes, two bytes each, the high one
/// first, in two's complement. Just the two known sizes can be decoded.
pub proof fn law_tile_is_decoded_big_end_first(
    tile: &HgtTile,
    coordinate: TileCoordinate,
    bytes: Seq<u8>,
    i: int,
)
    requires
        is_decoded(tile, coordinate, bytes),
        0 <= i < tile.heights@.len(),
    ensures
        tile.coordinate == coordinate,
        bytes.len() == 2 * tile.heights@.len(),
        tile.heights@.len() == tile.dimension * tile.dimension,
        ({
            let read = 256 * bytes[2 * i] + bytes[2 * i + 1];
            tile.heights@[i] == (if bytes[2 * i] >= 128 {
                read - 65536
            } else {
                read as int
            })
        }),
{
}

/// A file is decoded just where it has the size of a tile, and an odd length is
/// told from a wrong one.
pub proof fn law_tile_sizes_are_two(len: int)
    requires
        len >= 0,
    ensures
        tile_error(len) is None <==> len == 2 * 1201 * 1201 || len == 2 * 3601 * 3601,
        tile_error(len) == Some(TerrainError::InvalidLength) <==> len % 2 == 1,
        tile_error(len) matches Some(e) ==> e == TerrainError::InvalidLength || e
            == TerrainError::Dimension,
{
}

/// The tile of a place is named for its south-west corner: the place lies in it,
/// from its whole degrees up to, and not including, the next ones. The poles and
/// the antimeridian belong to the tile before them. A place is given by its
/// significand in units of a power of two.
pub proof fn law_place_lies_in_its_tile(latitude: Binary64, longitude: Binary64)
    requires
        is_latitude(latitude),
        is_longitude(longitude),
    ensures
        ({
            let tile = tile_holding(latitude, longitude);
            let unit = pow2((-latitude.exponent()) as nat);
            let north = latitude.signed_significand();
            &&& -90 <= tile.lat <= 89
            &&& tile.lat * unit <= north
            &&& north < (tile.lat + 1) * unit || (tile.lat == 89 && north == 90 * unit)
        }),
        ({
            let tile = tile_holding(latitude, longitude);
            let unit = pow2((-longitude.exponent()) as nat);
            let east = longitude.signed_significand();
            &&& -180 <= tile.lon <= 179
            &&& tile.lon * unit <= east
            &&& east < (tile.lon + 1) * unit || (tile.lon == 179 && east == 180 * unit)
        }),
{
    lemma_tile_holding(latitude, longitude);
    lemma_degrees_below(latitude, 90);
    lemma_degrees_below(longitude, 180);
    latitude.lemma_floor_degrees(90);
    longitude.lemma_floor_degrees(180);
    let tile = tile_holding(latitude, longitude);
    let high = pow2((-latitude.exponent()) as nat);
    if latitude.spec_floor() >= 90 {
        assert(tile.lat * high == 89 * high);
    } else {
        assert(tile.lat == latitude.spec_floor());
        assert((tile.lat + 1) * high == (latitude.spec_floor() + 1) * high);
    }
    let wide = pow2((-longitude.exponent()) as nat);
    if longitude.spec_num_eq(Binary64::from_bits(0x4066_8000_0000_0000)) {
        assert(tile.lon * wide == 179 * wide);
    } else {
        assert(tile.lon == longitude.spec_floor());
        assert((tile.lon + 1) * wide == (longitude.spec_floor() + 1) * wide);
    }
}

proof fn lemma_degrees_below(number: Binary64, degrees: int)
    requires
        degrees == 90 && is_latitude(number) || degrees == 180 && is_longitude(number),
    ensures
        ({
            let unit = pow2((-number.exponent()) as nat);
            let whole = number.spec_floor();
            &&& whole * unit <= number.signed_significand() < (whole + 1) * unit
            &&& (whole >= degrees || number.key() == (if degrees == 90 {
                0x4056_8000_0000_0000int
            } else {
                0x4066_8000_0000_0000int
            })) ==> {
                &&& number.signed_significand() == degrees * unit
                &&& (degrees - 1) * unit <= number.signed_significand()
            }
        }),
{
    number.lemma_floor_degrees(degrees);
    law_floor_is_the_integer_below(number);
    let unit = pow2((-number.exponent()) as nat);
    let whole = number.spec_floor();
    if whole >= degrees {
        assert(whole == degrees);
        assert(whole * unit == degrees * unit);
    }
}

/// Latitudes run from -90 to 90 and longitudes from -180 to 180, ends included: a
/// number is one where its significand is no more than that many units.
pub proof fn law_globe_ends_at_its_poles(number: Binary64)
    ensures
        is_latitude(number) <==> number.spec_is_finite() && number.exponent() < 0
            && number.significand() <= 90 * pow2((-number.exponent()) as nat),
        is_longitude(number) <==> number.spec_is_finite() && number.exponent() < 0
            && number.significand() <= 180 * pow2((-number.exponent()) as nat),
{
    if is_latitude(number) {
        number.lemma_floor_degrees(90);
    }
    if is_longitude(number) {
        number.lemma_floor_degrees(180);
    }
    if number.spec_is_finite() && number.exponent() < 0 {
        let places = (-number.exponent()) as nat;
        lemma2_to64();
        lemma_pow2_adds(32, 13);
        lemma_pow2_adds(32, 14);
        if number.spec_magnitude() > 0x4056_8000_0000_0000 {
            assert(places <= 46);
            if places < 46 {
                lemma_pow2_adds(places, (45 - places) as nat);
                lemma_pow2_pos((45 - places) as nat);
                assert(pow2(places) <= pow2(45)) by (nonlinear_arith)
                    requires
                        pow2(places) * pow2((45 - places) as nat) == pow2(45),
                        pow2((45 - places) as nat) >= 1,
                        pow2(places) >= 0,
                ;
            }
        }
        if number.spec_magnitude() > 0x4066_8000_0000_0000 {
            assert(places <= 45);
            if places < 45 {
                lemma_pow2_adds(places, (44 - places) as nat);
                lemma_pow2_pos((44 - places) as nat);
                lemma_pow2_adds(32, 12);
                assert(pow2(places) <= pow2(44)) by (nonlinear_arith)
                    requires
                        pow2(places) * pow2((44 - places) as nat) == pow2(44),
                        pow2((44 - places) as nat) >= 1,
                        pow2(places) >= 0,
                ;
            }
        }
    }
}

/// What the hash of a mosaic covers can be read back: the place of a tile, its
/// size and every entry, in their order.
pub proof fn law_hashed_tile_is_read_back(tile: &HgtTile, i: int)
    requires
        0 <= i < tile.heights@.len(),
    ensures
        tile_bytes(tile).len() == 12 + 2 * tile.heights@.len(),
        ({
            let bytes = tile_bytes(tile);
            &&& (bytes[0] + 256 * bytes[1] - tile.coordinate.lat) % 65536 == 0
            &&& (bytes[2] + 256 * bytes[3] - tile.coordinate.lon) % 65536 == 0
            &&& le_value(bytes.subrange(4, 12)) == tile.dimension
            &&& (bytes[12 + 2 * i] + 256 * bytes[13 + 2 * i] - tile.heights@[i]) % 65536 == 0
        }),
{
    let values = tile.heights@.map_values(|h: i16| unsigned16(h) as nat);
    let lat = le_bytes(unsigned16(tile.coordinate.lat) as nat, 2);
    let lon = le_bytes(unsigned16(tile.coordinate.lon) as nat, 2);
    let size = le_bytes(tile.dimension as nat, 8);
    let words = le_words(values, 2);
    lemma_le_bytes_len(unsigned16(tile.coordinate.lat) as nat, 2);
    lemma_le_bytes_len(unsigned16(tile.coordinate.lon) as nat, 2);
    lemma_le_bytes_len(tile.dimension as nat, 8);
    lemma_le_words_len(values, 2);
    lemma_u16_at_words(values, i);
    lemma_pow256();
    law_le_round_trip(tile.dimension as nat, 8);
    let bytes = tile_bytes(tile);
    assert(bytes.subrange(4, 12) =~= size);
    reveal_with_fuel(le_bytes, 3);
    assert(bytes[0] == lat[0] && bytes[1] == lat[1]);
    assert(bytes[2] == lon[0] && bytes[3] == lon[1]);
    assert(bytes[12 + 2 * i] == words[2 * i] && bytes[13 + 2 * i] == words[2 * i + 1]);
    assert(values[i] == unsigned16(tile.heights@[i]));
}

/// A range runs from nothing to a thousand kilometres, and only for places on the
/// globe.
pub proof fn law_range_ends_at_a_thousand_kilometres(
    latitude: Binary64,
    longitude: Binary64,
    range_m: Binary64,
)
    ensures
        radius_wf(latitude, longitude, range_m) <==> {
            &&& is_latitude(latitude)
            &&& is_longitude(longitude)
            &&& range_m.spec_is_finite()
            &&& range_m.bits <= 0x8000_0000_0000_0000
            &&& range_m.exponent() < 0
            &&& range_m.significand() <= 1_000_000 * pow2((-range_m.exponent()) as nat)
        },
{
    let most = Binary64::from_bits(0x412e_8480_0000_0000);
    lemma2_to64();
    lemma_pow2_adds(32, 1);
    assert(most.exponent() == -33);
    assert(most.significand() == 1_000_000 * pow2(33));
    if range_m.bits == 0x8000_0000_0000_0000 {
        lemma_pow2_pos(1074);
    } else if range_m.bits < INFINITE_MAGNITUDE {
        let e = range_m.exponent();
        if e <= -33 {
            law_order_is_numeric(range_m, most);
            let more = (-33 - e) as nat;
            lemma_pow2_adds(33, more);
            assert(most.significand() * pow2(more) == 1_000_000 * pow2((-e) as nat))
                by (nonlinear_arith)
                requires
                    most.significand() == 1_000_000 * pow2(33),
                    pow2(33) * pow2(more) == pow2((-e) as nat),
            ;
        } else if e < 0 {
            let places = (-e) as nat;
            lemma_pow2_adds(places, (32 - places) as nat);
            lemma_pow2_pos((32 - places) as nat);
            assert(pow2(places) <= pow2(32)) by (nonlinear_arith)
                requires
                    pow2(places) * pow2((32 - places) as nat) == pow2(32),
                    pow2((32 - places) as nat) >= 1,
                    pow2(places) >= 0,
            ;
            assert(range_m.bits > most.bits);
        } else {
            assert(range_m.bits > most.bits);
        }
    }
}

/// The tiles that a radar needs: its own, and in every needed column those from the
/// southern to the northern row, as far as the globe has rows.
pub proof fn law_needed_tiles_fill_the_box(
    tile: TileCoordinate,
    own: TileCoordinate,
    south: i16,
    north: i16,
    columns: Seq<bool>,
)
    requires
        columns.len() == 360,
        -90 <= tile.lat <= 89,
        south <= 89,
        -90 <= north,
    ensures
        is_needed(own, own, south, north, columns),
        tile != own ==> (is_needed(tile, own, south, north, columns) <==> south <= tile.lat <= north
            && -180 <= tile.lon < 180 && columns[180 + tile.lon]),
{
}

/// Tiles are ordered from south to north, and those of a row from west to east.
pub proof fn law_tiles_are_ordered_by_row(a: TileCoordinate, b: TileCoordinate)
    requires
        -180 <= a.lon <= 179,
        -180 <= b.lon <= 179,
    ensures
        a.key() < b.key() <==> a.lat < b.lat || (a.lat == b.lat && a.lon < b.lon),
{
}

/// The hash of a mosaic covers the model version once, and then every tile in its
/// order: what is covered of more tiles follows what is covered of the first ones.
pub proof fn law_hash_covers_every_tile(a: Seq<Arc<HgtTile>>, b: Seq<Arc<HgtTile>>)
    ensures
        mosaic_bytes(a).take(2) == seq![2u8, 0u8],
        mosaic_bytes(a + b) == mosaic_bytes(a) + mosaic_bytes(b).skip(2),
        b.len() == 1 ==> mosaic_bytes(b).skip(2) == tile_bytes(&b[0]),
    decreases a.len() + b.len(),
{
    reveal_with_fuel(le_bytes, 3);
    let head = le_bytes(TERRAIN_MODEL_VERSION as nat, 2);
    assert(head =~= seq![2u8, 0u8]);
    if b.len() == 0 {
        assert(a + b =~= a);
        assert(mosaic_bytes(b).skip(2) =~= Seq::<u8>::empty());
        assert(mosaic_bytes(a + b) =~= mosaic_bytes(a) + mosaic_bytes(b).skip(2));
        if a.len() > 0 {
            law_hash_covers_every_tile(a.drop_last(), b);
            assert(mosaic_bytes(a).take(2) =~= mosaic_bytes(a.drop_last()).take(2));
        } else {
            assert(mosaic_bytes(a).take(2) =~= head);
        }
    } else {
        let rest = b.drop_last();
        law_hash_covers_every_tile(a, rest);
        law_hash_covers_every_tile(rest, Seq::empty());
        lemma_mosaic_bytes_len(rest);
        assert((a + b).drop_last() =~= a + rest);
        assert((a + b).last() == b.last());
        assert(mosaic_bytes(b).skip(2) =~= mosaic_bytes(rest).skip(2) + tile_bytes(&b.last()));
        assert(mosaic_bytes(a + b) =~= mosaic_bytes(a) + mosaic_bytes(b).skip(2));
        if b.len() == 1 {
            assert(mosaic_bytes(rest).skip(2) =~= Seq::<u8>::empty());
            assert(mosaic_bytes(b).skip(2) =~= tile_bytes(&b[0]));
        }
    }
}

proof fn lemma_mosaic_bytes_len(tiles: Seq<Arc<HgtTile>>)
    ensures
        mosaic_bytes(tiles).len() >= 2,
        tiles.len() == 0 ==> mosaic_bytes(tiles).len() == 2,
    decreases tiles.len(),
{
    lemma_le_bytes_len(TERRAIN_MODEL_VERSION as nat, 2);
    if tiles.len() > 0 {
        lemma_mosaic_bytes_len(tiles.drop_last());
    }
}

/// Of several lists of tiles, just those that stand in one of them are merged.
pub proof fn law_merged_tiles_come_from_the_lists(
    lists: Seq<Vec<TileCoordinate>>,
    tile: TileCoordinate,
    i: int,
    k: int,
)
    requires
        0 <= i < lists.len(),
        0 <= k < lists[i]@.len(),
    ensures
        any_holds(lists, lists[i]@[k]),
        any_holds(lists, tile) ==> exists|j: int|
            0 <= j < lists.len() && (#[trigger] lists[j])@.contains(tile),
{
    assert(lists[i]@.contains(lists[i]@[k]));
    if any_holds(lists, tile) {
        let j = choose|j: int| 0 <= j < lists.len() && #[trigger] lists[j]@.contains(tile);
        assert(lists[j]@.contains(tile));
    }
}

} // verus!
