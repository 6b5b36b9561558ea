//! Hierarchical H3 export of height rasters.
//!
//! Candidate cells are walked from a coarse resolution down to the target one.
//! Coarse cells without any visible pixel are pruned; a leaf cell exports the
//! lowest height among its pixels.
use crate::bitset::how_many;
use crate::float::Binary64;
use crate::storage::{Metadata, NO_DATA};
use crate::text::{chars_of, concat_text, concatenated, decimal, decimal_text, digit_char,
    is_blank, spec_is_blank, text_of_chars, to_digit_char};
use vstd::arithmetic::power2::pow2;
use vstd::prelude::*;

verus! {

#[derive(Debug)]
pub enum H3ExportError {
    InvalidResolution(u8),
    InvalidProjection(String),
    DimensionMismatch { expected: usize, actual: usize },
    H3Coord(String),
}

impl H3ExportError {
    pub open spec fn spec_message(&self) -> Seq<char> {
        match *self {
            H3ExportError::InvalidResolution(res) => "invalid resolution "@ + decimal(res as nat)
                + ": must be between 0 and 15"@,
            H3ExportError::InvalidProjection(reason) => "invalid CRS or projection: "@ + reason@,
            H3ExportError::DimensionMismatch {
                expected,
                actual,
            } => "dimension overflow or mismatch: metadata has "@ + decimal(expected as nat)
                + " cells, got "@ + decimal(actual as nat),
            H3ExportError::H3Coord(reason) => "H3 coordinate error: "@ + reason@,
        }
    }

    pub fn message(&self) -> (text: String)
        ensures
            text@ == self.spec_message(),
    {
        match self {
            H3ExportError::InvalidResolution(res) => {
                let number = decimal_text(*res as u64);
                let parts: [&str; 3] = [
                    "invalid resolution ",
                    number.as_str(),
                    ": must be between 0 and 15",
                ];
                let text = concat_text(parts.as_slice());
                proof {
                    reveal_with_fuel(concatenated, 4);
                    assert(parts@.drop_last().drop_last().drop_last() =~= Seq::<&str>::empty());
                    assert(text@ =~= self.spec_message());
                }
                text
            },
            H3ExportError::InvalidProjection(reason) => {
                let parts: [&str; 2] = ["invalid CRS or projection: ", reason.as_str()];
                let text = concat_text(parts.as_slice());
                proof {
                    reveal_with_fuel(concatenated, 3);
                    assert(parts@.drop_last().drop_last() =~= Seq::<&str>::empty());
                    assert(text@ =~= self.spec_message());
                }
                text
            },
            H3ExportError::DimensionMismatch { expected, actual } => {
                let wanted = decimal_text(*expected as u64);
                let got = decimal_text(*actual as u64);
                let parts: [&str; 4] = [
                    "dimension overflow or mismatch: metadata has ",
                    wanted.as_str(),
                    " cells, got ",
                    got.as_str(),
                ];
                let text = concat_text(parts.as_slice());
                proof {
                    reveal_with_fuel(concatenated, 5);
                    assert(parts@.drop_last().drop_last().drop_last().drop_last() =~= Seq::<
                        &str,
                    >::empty());
                    assert(text@ =~= self.spec_message());
                }
                text
            },
            H3ExportError::H3Coord(reason) => {
                let parts: [&str; 2] = ["H3 coordinate error: ", reason.as_str()];
                let text = concat_text(parts.as_slice());
                proof {
                    reveal_with_fuel(concatenated, 3);
                    assert(parts@.drop_last().drop_last() =~= Seq::<&str>::empty());
                    assert(text@ =~= self.spec_message());
                }
                text
            },
        }
    }
}

/// Configuration for the H3 coverage export.
#[derive(Clone, Copy, Debug, PartialEq, Eq)]
pub struct H3ExportConfig {
    /// Target H3 resolution (default: 7). Valid values: 0..=15.
    pub target_resolution: u8,
    /// Coarse starting resolution for hierarchical pruning (default: 5).
    pub start_resolution: u8,
    /// Optional altitude bucket step in meters (e.g. 100 for [0, 100[, [100, 200[...).
    pub altitude_bucket_m: Option<u16>,
    /// Whether records carry closed polygon boundary coordinates [lon, lat] in degrees.
    pub include_boundary: bool,
}

impl Default for H3ExportConfig {
    fn default() -> (config: Self)
        ensures
            config == (H3ExportConfig {
                target_resolution: 7,
                start_resolution: 5,
                altitude_bucket_m: None,
                include_boundary: true,
            }),
    {
        H3ExportConfig {
            target_resolution: 7,
            start_resolution: 5,
            altitude_bucket_m: None,
            include_boundary: true,
        }
    }
}

/// A single exported H3 cell representing visible radar coverage.
#[derive(Debug)]
pub struct H3Record {
    /// H3 cell index in lowercase 15-character hexadecimal string.
    pub h3: String,
    /// H3 resolution level.
    pub res: u8,
    /// Minimum visible altitude floor in meters: the lowest altitude of the visible pixels whose
    /// centre lies in the cell, or that of the pixel under its centre where there is none.
    pub min_floor_m: u16,
    /// Optional quantized altitude bucket in meters.
    pub altitude_bucket_m: Option<u16>,
    /// Optional closed hexagon boundary coordinates as `[[lon, lat], ...]`.
    pub boundary: Option<Vec<[Binary64; 2]>>,
}

/// Execution statistics for the export operation.
#[derive(Clone, Copy, Debug, PartialEq, Eq)]
pub struct H3ExportStats {
    pub total_candidate_roots: usize,
    pub pruned_coarse_cells: usize,
    pub visited_leaf_cells: usize,
    pub exported_cells: usize,
    pub min_altitude_m: Option<u16>,
    pub max_altitude_m: Option<u16>,
}

pub open spec fn lowest_of(a: Option<u16>, b: Option<u16>) -> Option<u16> {
    match (a, b) {
        (Some(x), Some(y)) => Some(
            if y < x {
                y
            } else {
                x
            },
        ),
        (Some(x), None) => Some(x),
        (None, y) => y,
    }
}

pub open spec fn highest_of(a: Option<u16>, b: Option<u16>) -> Option<u16> {
    match (a, b) {
        (Some(x), Some(y)) => Some(
            if y > x {
                y
            } else {
                x
            },
        ),
        (Some(x), None) => Some(x),
        (None, y) => y,
    }
}

impl Default for H3ExportStats {
    fn default() -> (stats: Self)
        ensures
            stats == (H3ExportStats {
                total_candidate_roots: 0,
                pruned_coarse_cells: 0,
                visited_leaf_cells: 0,
                exported_cells: 0,
                min_altitude_m: None,
                max_altitude_m: None,
            }),
    {
        H3ExportStats {
            total_candidate_roots: 0,
            pruned_coarse_cells: 0,
            visited_leaf_cells: 0,
            exported_cells: 0,
            min_altitude_m: None,
            max_altitude_m: None,
        }
    }
}

impl H3ExportStats {
    /// The statistics of two parts of an export.
    pub open spec fn merged(self, other: Self) -> Self {
        H3ExportStats {
            total_candidate_roots: (self.total_candidate_roots
                + other.total_candidate_roots) as usize,
            pruned_coarse_cells: (self.pruned_coarse_cells + other.pruned_coarse_cells) as usize,
            visited_leaf_cells: (self.visited_leaf_cells + other.visited_leaf_cells) as usize,
            exported_cells: (self.exported_cells + other.exported_cells) as usize,
            min_altitude_m: lowest_of(self.min_altitude_m, other.min_altitude_m),
            max_altitude_m: highest_of(self.max_altitude_m, other.max_altitude_m),
        }
    }

    /// The counts of two parts can be added.
    pub open spec fn sums_fit(self, other: Self) -> bool {
        &&& self.total_candidate_roots + other.total_candidate_roots <= usize::MAX
        &&& self.pruned_coarse_cells + other.pruned_coarse_cells <= usize::MAX
        &&& self.visited_leaf_cells + other.visited_leaf_cells <= usize::MAX
        &&& self.exported_cells + other.exported_cells <= usize::MAX
    }

    pub fn merge(&mut self, other: &Self)
        requires
            old(self).sums_fit(*other),
        ensures
            *final(self) == old(self).merged(*other),
    {
        self.total_candidate_roots = self.total_candidate_roots + other.total_candidate_roots;
        self.pruned_coarse_cells = self.pruned_coarse_cells + other.pruned_coarse_cells;
        self.visited_leaf_cells = self.visited_leaf_cells + other.visited_leaf_cells;
        self.exported_cells = self.exported_cells + other.exported_cells;
        self.min_altitude_m = match (self.min_altitude_m, other.min_altitude_m) {
            (Some(a), Some(b)) => Some(
                if b < a {
                    b
                } else {
                    a
                },
            ),
            (Some(a), None) => Some(a),
            (None, b) => b,
        };
        self.max_altitude_m = match (self.max_altitude_m, other.max_altitude_m) {
            (Some(a), Some(b)) => Some(
                if b > a {
                    b
                } else {
                    a
                },
            ),
            (Some(a), None) => Some(a),
            (None, b) => b,
        };
    }
}

/// Merging does not depend on the order of the parts, nor on how they are
/// grouped.
pub proof fn law_merge_is_commutative_and_associative(
    a: H3ExportStats,
    b: H3ExportStats,
    c: H3ExportStats,
)
    requires
        a.sums_fit(b),
        b.sums_fit(c),
        a.sums_fit(b.merged(c)),
        a.merged(b).sums_fit(c),
    ensures
        a.merged(b) == b.merged(a),
        a.merged(b).merged(c) == a.merged(b.merged(c)),
{
}

/// A word of a text: a maximal run of characters that are not blank.
pub open spec fn is_word(text: Seq<char>, a: int, b: int) -> bool {
    &&& 0 <= a < b <= text.len()
    &&& a == 0 || spec_is_blank(text[a - 1])
    &&& b == text.len() || spec_is_blank(text[b])
    &&& forall|i: int| a <= i < b ==> !spec_is_blank(#[trigger] text[i])
}

pub open spec fn word_has_key(text: Seq<char>, a: int, b: int, key: Seq<char>) -> bool {
    a + key.len() <= b && text.subrange(a, a + key.len()) == key
}

/// `value` is what follows a key in the last word that begins with it.
pub open spec fn is_last_value(text: Seq<char>, key: Seq<char>, value: Option<Seq<char>>) -> bool {
    match value {
        None => forall|a: int, b: int| #[trigger]
            is_word(text, a, b) ==> !word_has_key(text, a, b, key),
        Some(found) => exists|a: int, b: int|
            {
                &&& #[trigger] is_word(text, a, b)
                &&& word_has_key(text, a, b, key)
                &&& text.subrange(a + key.len(), b) == found
                &&& forall|c: int, d: int| #[trigger]
                    is_word(text, c, d) && a < c ==> !word_has_key(text, c, d, key)
            },
    }
}

/// Finds what follows a key in the last word of a text that begins with it.
pub fn last_value(text: &str, key: &str) -> (value: Option<String>)
    ensures
        is_last_value(
            text@,
            key@,
            match value {
                Some(found) => Some(found@),
                None => None,
            },
        ),
{
    let chars = chars_of(text);
    let wanted = chars_of(key);
    let len: usize = chars.len();
    let mut found: Option<(usize, usize)> = None;
    let mut at: usize = 0;
    while at < len
        invariant
            at <= len,
            len == chars@.len(),
            chars@ == text@,
            wanted@ == key@,
            at == 0 || at == len || spec_is_blank(text@[at - 1]) || spec_is_blank(text@[at as int]),
            match found {
                None => forall|a: int, b: int| #[trigger]
                    is_word(text@, a, b) && a < at ==> !word_has_key(text@, a, b, key@),
                Some((from, end)) => from < at && is_word(text@, from as int, end as int)
                    && word_has_key(text@, from as int, end as int, key@) && forall|
                    c: int,
                    d: int,
                | #[trigger]
                    is_word(text@, c, d) && from < c && c < at ==> !word_has_key(text@, c, d, key@),
            },
        decreases len - at,
    {
        if is_blank(chars[at]) {
            at += 1;
            continue;
        }
        let start: usize = at;
        let mut end: usize = at + 1;
        while end < len && !is_blank(chars[end])
            invariant
                start < end <= len,
                len == chars@.len(),
                chars@ == text@,
                forall|i: int| start <= i < end ==> !spec_is_blank(#[trigger] text@[i]),
            decreases len - end,
        {
            end += 1;
        }
        proof {
            assert(!spec_is_blank(text@[start as int]));
            assert(is_word(text@, start as int, end as int));
            assert forall|a: int, b: int| #[trigger]
                is_word(text@, a, b) && start <= a && a < end implies a == start && b == end by {
                if a > start {
                    assert(!spec_is_blank(text@[a - 1]));
                }
                if b < end {
                    assert(!spec_is_blank(text@[b]));
                }
                if end < b {
                    assert(!spec_is_blank(text@[end as int]));
                }
            }
        }
        if starts_with(&chars, start, end, &wanted) {
            found = Some((start, end));
        }
        at = end;
    }
    match found {
        None => None,
        Some((from, end)) => {
            let value = text_of_chars(&chars, from + wanted.len(), end);
            assert(value@ =~= text@.subrange(from + key@.len(), end as int));
            Some(value)
        },
    }
}

fn starts_with(chars: &Vec<char>, start: usize, end: usize, key: &Vec<char>) -> (b: bool)
    requires
        start <= end <= chars@.len(),
    ensures
        b == word_has_key(chars@, start as int, end as int, key@),
{
    if key.len() > end - start {
        return false;
    }
    let mut i: usize = 0;
    while i < key.len()
        invariant
            i <= key@.len(),
            start + key@.len() <= end <= chars@.len(),
            forall|j: int| 0 <= j < i ==> chars@[start + j] == key@[j],
        decreases key@.len() - i,
    {
        if chars[start + i] != key[i] {
            assert(chars@.subrange(start as int, start + key@.len())[i as int] != key@[i as int]);
            return false;
        }
        i += 1;
    }
    assert(chars@.subrange(start as int, start + key@.len()) =~= key@);
    true
}

/// The centre that a projection text names: the values of its last `+lat_0=`
/// and `+lon_0=` words, as text.
pub fn projection_centre(crs: &str) -> (centre: (Option<String>, Option<String>))
    ensures
        is_last_value(
            crs@,
            "+lat_0="@,
            match centre.0 {
                Some(found) => Some(found@),
                None => None,
            },
        ),
        is_last_value(
            crs@,
            "+lon_0="@,
            match centre.1 {
                Some(found) => Some(found@),
                None => None,
            },
        ),
{
    (last_value(crs, "+lat_0="), last_value(crs, "+lon_0="))
}

/// Reads a projection centre whose two numbers have been read, or says what is
/// missing.
pub fn parse_local_projection(
    crs: &str,
    latitude: Option<Binary64>,
    longitude: Option<Binary64>,
) -> (centre: Result<(Binary64, Binary64), H3ExportError>)
    ensures
        centre is Ok <==> latitude is Some && longitude is Some,
        centre matches Ok((lat, lon)) ==> latitude == Some(lat) && longitude == Some(lon),
        centre matches Err(e) ==> (e matches H3ExportError::InvalidProjection(reason) && reason@
            == "missing +lat_0 or +lon_0 in CRS: "@ + crs@),
{
    match (latitude, longitude) {
        (Some(lat), Some(lon)) => Ok((lat, lon)),
        _ => {
            let parts: [&str; 2] = ["missing +lat_0 or +lon_0 in CRS: ", crs];
            let reason = concat_text(parts.as_slice());
            proof {
                reveal_with_fuel(concatenated, 3);
                assert(parts@.drop_last().drop_last() =~= Seq::<&str>::empty());
                assert(reason@ =~= "missing +lat_0 or +lon_0 in CRS: "@ + crs@);
            }
            Err(H3ExportError::InvalidProjection(reason))
        },
    }
}

/// Checks an export and picks its resolutions: the start is never finer than
/// the target.
pub fn plan_export(metadata: &Metadata, height_count: usize, config: &H3ExportConfig) -> (plan:
    Result<(u8, u8), H3ExportError>)
    ensures
        plan is Ok <==> config.target_resolution <= 15 && metadata.spec_cells() == height_count,
        plan matches Ok((start, target)) ==> target == config.target_resolution && start == (
        if config.start_resolution < target {
            config.start_resolution
        } else {
            target
        }),
        plan matches Err(e) ==> e == (if config.target_resolution > 15 {
            H3ExportError::InvalidResolution(config.target_resolution)
        } else if metadata.spec_cells() > usize::MAX {
            H3ExportError::DimensionMismatch { expected: 0, actual: height_count }
        } else {
            H3ExportError::DimensionMismatch {
                expected: metadata.spec_cells() as usize,
                actual: height_count,
            }
        }),
{
    if config.target_resolution > 15 {
        return Err(H3ExportError::InvalidResolution(config.target_resolution));
    }
    match metadata.cells() {
        Err(_) => Err(H3ExportError::DimensionMismatch { expected: 0, actual: height_count }),
        Ok(expected) => {
            if height_count != expected {
                return Err(H3ExportError::DimensionMismatch { expected, actual: height_count });
            }
            let start: u8 = if config.start_resolution < config.target_resolution {
                config.start_resolution
            } else {
                config.target_resolution
            };
            Ok((start, config.target_resolution))
        },
    }
}

/// The resolution of a cell index: its bits 52 to 55.
pub open spec fn spec_resolution(cell: u64) -> u8 {
    ((cell as int / 0x10_0000_0000_0000) % 16) as u8
}

pub fn cell_resolution(cell: u64) -> (res: u8)
    ensures
        res == spec_resolution(cell),
        res < 16,
{
    ((cell / 0x10_0000_0000_0000) % 16) as u8
}

/// A number in hexadecimal, without leading zeros.
pub open spec fn hexadecimal(n: nat) -> Seq<char>
    decreases n,
{
    if n < 16 {
        seq![digit_char(n as int)]
    } else {
        hexadecimal(n / 16).push(digit_char((n % 16) as int))
    }
}

fn push_hexadecimal(out: &mut String, n: u64)
    ensures
        final(out)@ == old(out)@ + hexadecimal(n as nat),
    decreases n,
{
    if n >= 16 {
        push_hexadecimal(out, n / 16);
    }
    let low: u8 = (n % 16) as u8;
    out.push(to_digit_char(low));
    assert(out@ =~= old(out)@ + hexadecimal(n as nat));
}

/// The text of a cell index.
pub fn cell_text(cell: u64) -> (text: String)
    ensures
        text@ == hexadecimal(cell as nat),
{
    let mut text = String::new();
    push_hexadecimal(&mut text, cell);
    assert(text@ =~= hexadecimal(cell as nat));
    text
}

/// The cells within `k` steps of a cell, in the order of
/// `CellIndex::grid_disk_safe`; nothing where the number is no cell index.
pub uninterp spec fn h3_disk(cell: u64, k: u32) -> Option<Seq<u64>>;

/// The children of a cell at a resolution, in the order of
/// `CellIndex::children`; nothing where the numbers are no cell index and no
/// resolution.
pub uninterp spec fn h3_children(cell: u64, res: u8) -> Option<Seq<u64>>;

/// How many cells a disk has at most.
pub open spec fn disk_size(k: int) -> int {
    3 * k * (k + 1) + 1
}

/// The cell of a coarser resolution that a cell lies in: the digits of finer
/// resolutions are unused there, which is written as 7, three bits each.
pub open spec fn ancestor(cell: u64, res: int) -> int {
    let unused = pow2((3 * (15 - res)) as nat) as int;
    let digits = cell as int % 0x10_0000_0000_0000;
    cell as int / 0x100_0000_0000_0000 * 0x100_0000_0000_0000 + res * 0x10_0000_0000_0000 + (digits
        / unused * unused + unused - 1)
}

/// Cells of one resolution, none of them twice.
pub open spec fn is_level(cells: Seq<u64>, res: int) -> bool {
    cells.no_duplicates() && forall|i: int|
        0 <= i < cells.len() ==> spec_resolution(#[trigger] cells[i]) == res
}

/// `h3o::CellIndex::grid_disk_safe`, between raw indexes: the cells of the disk,
/// none of them twice, at the resolution of the cell. It reserves room for two and
/// a half times the size of the disk at once, which has to be countable.
#[verifier::external_body]
fn grid_disk(cell: u64, k: u32) -> (cells: Option<Vec<u64>>)
    requires
        5 * disk_size(k as int) <= usize::MAX,
    ensures
        cells is Some <==> h3_disk(cell, k) is Some,
        cells matches Some(found) ==> Some(found@) == h3_disk(cell, k) && is_level(
            found@,
            spec_resolution(cell) as int,
        ),
{
    let origin = h3o::CellIndex::try_from(cell).ok()?;
    Some(origin.grid_disk_safe(k).map(u64::from).collect())
}

/// `h3o::CellIndex::children`, between raw indexes: the children have the
/// resolution that is asked for, none of them comes twice, and each lies in the
/// cell, as `CellIndex::parent` has it.
#[verifier::external_body]
fn children(cell: u64, res: u8) -> (cells: Option<Vec<u64>>)
    ensures
        cells is Some <==> h3_children(cell, res) is Some,
        cells matches Some(found) ==> Some(found@) == h3_children(cell, res),
        cells matches Some(found) ==> is_level(found@, res as int) && forall|i: int|
            0 <= i < found@.len() ==> ancestor(
                #[trigger] found@[i],
                spec_resolution(cell) as int,
            ) == cell,
{
    let parent = h3o::CellIndex::try_from(cell).ok()?;
    let resolution = h3o::Resolution::try_from(res).ok()?;
    Some(parent.children(resolution).map(u64::from).collect())
}

/// Three rings more than the extent needs.
pub fn disk_radius(rings: u32) -> (k: u32)
    ensures
        k == (if rings + 3 > u32::MAX {
            u32::MAX as int
        } else {
            rings + 3
        }),
{
    rings.saturating_add(3)
}

/// The cells from which an export starts: the disk round the centre of the
/// raster. None where the centre is no cell index.
pub fn candidate_roots(center: u64, k: u32) -> (roots: Option<Vec<u64>>)
    requires
        5 * disk_size(k as int) <= usize::MAX,
    ensures
        roots is Some <==> h3_disk(center, k) is Some,
        roots matches Some(found) ==> Some(found@) == h3_disk(center, k) && is_level(
            found@,
            spec_resolution(center) as int,
        ),
{
    grid_disk(center, k)
}

/// The bounds of some projected points.
#[derive(Clone, Copy, Debug, PartialEq, Eq, Structural)]
pub struct Bounds {
    pub min_x: Binary64,
    pub max_x: Binary64,
    pub min_y: Binary64,
    pub max_y: Binary64,
}

/// The bounds of points, which start from the infinities.
pub open spec fn bounds_of(points: Seq<(Binary64, Binary64)>) -> Bounds
    decreases points.len(),
{
    if points.len() == 0 {
        Bounds {
            min_x: Binary64::from_bits(0x7ff0_0000_0000_0000),
            max_x: Binary64::negative_infinity(),
            min_y: Binary64::from_bits(0x7ff0_0000_0000_0000),
            max_y: Binary64::negative_infinity(),
        }
    } else {
        let before = bounds_of(points.drop_last());
        let (x, y) = points.last();
        Bounds {
            min_x: before.min_x.spec_min(x),
            max_x: before.max_x.spec_max(x),
            min_y: before.min_y.spec_min(y),
            max_y: before.max_y.spec_max(y),
        }
    }
}

pub open spec fn bounds_finite(bounds: Bounds) -> bool {
    bounds.min_x.spec_is_finite() && bounds.max_x.spec_is_finite() && bounds.min_y.spec_is_finite()
        && bounds.max_y.spec_is_finite()
}

/// The bounds of some points.
pub fn point_bounds(points: &[(Binary64, Binary64)]) -> (bounds: Bounds)
    ensures
        bounds == bounds_of(points@),
{
    let mut bounds = Bounds {
        min_x: Binary64::from_bits(0x7ff0_0000_0000_0000),
        max_x: Binary64::negative_infinity(),
        min_y: Binary64::from_bits(0x7ff0_0000_0000_0000),
        max_y: Binary64::negative_infinity(),
    };
    let mut i: usize = 0;
    assert(points@.take(0) =~= Seq::<(Binary64, Binary64)>::empty());
    while i < points.len()
        invariant
            i <= points@.len(),
            bounds == bounds_of(points@.take(i as int)),
        decreases points@.len() - i,
    {
        assert(points@.take(i + 1).drop_last() =~= points@.take(i as int));
        let (x, y) = points[i];
        bounds = Bounds {
            min_x: bounds.min_x.min(x),
            max_x: bounds.max_x.max(x),
            min_y: bounds.min_y.min(y),
            max_y: bounds.max_y.max(y),
        };
        i += 1;
    }
    assert(points@.take(i as int) =~= points@);
    bounds
}

/// Bounds leave out no point, whatever the order of the points.
pub proof fn law_bounds_hold_every_point(points: Seq<(Binary64, Binary64)>, i: int)
    requires
        0 <= i < points.len(),
    ensures
        !points[i].0.spec_is_nan() ==> bounds_of(points).min_x.spec_le(points[i].0)
            && points[i].0.spec_le(bounds_of(points).max_x),
        !points[i].1.spec_is_nan() ==> bounds_of(points).min_y.spec_le(points[i].1)
            && points[i].1.spec_le(bounds_of(points).max_y),
    decreases points.len(),
{
    lemma_bounds_are_numbers(points.drop_last());
    if i < points.len() - 1 {
        law_bounds_hold_every_point(points.drop_last(), i);
    }
}

proof fn lemma_bounds_are_numbers(points: Seq<(Binary64, Binary64)>)
    ensures
        !bounds_of(points).min_x.spec_is_nan(),
        !bounds_of(points).max_x.spec_is_nan(),
        !bounds_of(points).min_y.spec_is_nan(),
        !bounds_of(points).max_y.spec_is_nan(),
    decreases points.len(),
{
    if points.len() > 0 {
        lemma_bounds_are_numbers(points.drop_last());
    }
}

/// The bounds of the points that could be projected, where they are finite.
pub fn projected_bounds(points: &[(Binary64, Binary64)]) -> (bounds: Option<Bounds>)
    ensures
        bounds == (if bounds_finite(bounds_of(points@)) {
            Some(bounds_of(points@))
        } else {
            None
        }),
{
    let bounds = point_bounds(points);
    if bounds.min_x.is_finite() && bounds.max_x.is_finite() && bounds.min_y.is_finite()
        && bounds.max_y.is_finite() {
        Some(bounds)
    } else {
        None
    }
}

/// A box of pixels that may reach beyond the raster.
#[derive(Clone, Copy, Debug, PartialEq, Eq, Structural)]
pub struct RawBox {
    pub col_min: i64,
    pub col_max: i64,
    pub row_min: i64,
    pub row_max: i64,
}

/// A box of pixels of the raster, both ends included.
#[derive(Clone, Copy, Debug, PartialEq, Eq, Structural)]
pub struct RasterBBox {
    pub col_min: usize,
    pub col_max: usize,
    pub row_min: usize,
    pub row_max: usize,
}

pub open spec fn at_least_zero(n: i64) -> usize {
    if n < 0 {
        0
    } else {
        n as usize
    }
}

pub open spec fn at_most(n: i64, limit: int) -> usize {
    if n > limit {
        limit as usize
    } else {
        n as usize
    }
}

/// A box cut to a raster; nothing where it lies beside it.
pub open spec fn cut_box(raw: RawBox, width: int, height: int) -> Option<RasterBBox> {
    if raw.col_max < 0 || raw.col_min >= width || raw.row_max < 0 || raw.row_min >= height {
        None
    } else {
        Some(
            RasterBBox {
                col_min: at_least_zero(raw.col_min),
                col_max: at_most(raw.col_max, width - 1),
                row_min: at_least_zero(raw.row_min),
                row_max: at_most(raw.row_max, height - 1),
            },
        )
    }
}

impl RasterBBox {
    /// The box lies in a raster.
    pub open spec fn fits(&self, width: int, height: int) -> bool {
        self.col_max < width && self.row_max < height
    }

    /// The box holds a pixel.
    pub open spec fn holds(&self, row: int, col: int) -> bool {
        self.row_min <= row <= self.row_max && self.col_min <= col <= self.col_max
    }
}

/// Cuts the pixel box of a cell to the raster.
pub fn cell_raster_bbox(raw: RawBox, width: u32, height: u32) -> (bbox: Option<RasterBBox>)
    requires
        width > 0,
        height > 0,
    ensures
        bbox == cut_box(raw, width as int, height as int),
        bbox matches Some(b) ==> b.fits(width as int, height as int),
{
    let wide: i64 = width as i64;
    let high: i64 = height as i64;
    if raw.col_max < 0 || raw.col_min >= wide || raw.row_max < 0 || raw.row_min >= high {
        return None;
    }
    Some(
        RasterBBox {
            col_min: if raw.col_min < 0 {
                0
            } else {
                raw.col_min as usize
            },
            col_max: if raw.col_max > wide - 1 {
                (wide - 1) as usize
            } else {
                raw.col_max as usize
            },
            row_min: if raw.row_min < 0 {
                0
            } else {
                raw.row_min as usize
            },
            row_max: if raw.row_max > high - 1 {
                (high - 1) as usize
            } else {
                raw.row_max as usize
            },
        },
    )
}

/// A number as an `i64`, or the nearest one.
pub open spec fn nearest_i64(n: int) -> i64 {
    if n < i64::MIN {
        i64::MIN
    } else if n > i64::MAX {
        i64::MAX
    } else {
        n as i64
    }
}

/// By how much the box of a coarse cell is widened on each side: a quarter of its
/// length, and one.
pub open spec fn margin(low: i64, high: i64) -> int {
    if low < high {
        (high - low) / 4 + 1
    } else {
        1
    }
}

/// The box of a coarse cell with room for what lies below it: finer cells reach
/// beyond the boundary of the cell that they lie in.
pub open spec fn widened(raw: RawBox) -> RawBox {
    let beside = margin(raw.col_min, raw.col_max);
    let above = margin(raw.row_min, raw.row_max);
    RawBox {
        col_min: nearest_i64(raw.col_min - beside),
        col_max: nearest_i64(raw.col_max + beside),
        row_min: nearest_i64(raw.row_min - above),
        row_max: nearest_i64(raw.row_max + above),
    }
}

/// A box lies within another.
pub open spec fn lies_within(inner: RawBox, outer: RawBox) -> bool {
    outer.col_min <= inner.col_min && inner.col_max <= outer.col_max && outer.row_min
        <= inner.row_min && inner.row_max <= outer.row_max
}

/// The pixels that decide on a cell: those of its box, which is widened for cells
/// that are coarser than the target.
pub open spec fn search_box_of(
    cell: u64,
    target: u8,
    raw: Option<RawBox>,
    width: int,
    height: int,
) -> Option<RasterBBox> {
    match raw {
        None => None,
        Some(r) => if spec_resolution(cell) < target {
            cut_box(widened(r), width, height)
        } else {
            cut_box(r, width, height)
        },
    }
}

fn to_nearest_i64(n: i128) -> (nearest: i64)
    ensures
        nearest == nearest_i64(n as int),
{
    if n < i64::MIN as i128 {
        i64::MIN
    } else if n > i64::MAX as i128 {
        i64::MAX
    } else {
        n as i64
    }
}

fn margin_of(low: i64, high: i64) -> (n: i128)
    ensures
        n == margin(low, high),
        1 <= n <= 0x4000_0000_0000_0001,
{
    if low < high {
        (high as i128 - low as i128) / 4 + 1
    } else {
        1
    }
}

/// Finds the pixels that decide on a cell.
pub fn search_box(cell: u64, target: u8, raw: Option<RawBox>, width: u32, height: u32) -> (bbox:
    Option<RasterBBox>)
    requires
        width > 0,
        height > 0,
    ensures
        bbox == search_box_of(cell, target, raw, width as int, height as int),
        bbox matches Some(b) ==> b.fits(width as int, height as int),
{
    match raw {
        None => None,
        Some(r) => {
            if cell_resolution(cell) >= target {
                return cell_raster_bbox(r, width, height);
            }
            let beside: i128 = margin_of(r.col_min, r.col_max);
            let above: i128 = margin_of(r.row_min, r.row_max);
            let wide = RawBox {
                col_min: to_nearest_i64(r.col_min as i128 - beside),
                col_max: to_nearest_i64(r.col_max as i128 + beside),
                row_min: to_nearest_i64(r.row_min as i128 - above),
                row_max: to_nearest_i64(r.row_max as i128 + above),
            };
            cell_raster_bbox(wide, width, height)
        },
    }
}

/// What is visible in a box is visible in a box around it.
pub proof fn lemma_outer_box_sees(
    heights: Seq<u16>,
    width: int,
    height: int,
    nodata: u16,
    inner: RawBox,
    outer: RawBox,
)
    requires
        0 < width <= u32::MAX,
        0 < height <= u32::MAX,
        lies_within(inner, outer),
        cut_box(inner, width, height) is Some,
        box_sees(heights, width, cut_box(inner, width, height)->0, nodata),
    ensures
        cut_box(outer, width, height) is Some,
        box_sees(heights, width, cut_box(outer, width, height)->0, nodata),
{
    let (a, b) = (cut_box(inner, width, height)->0, cut_box(outer, width, height)->0);
    let (r, c) = choose|r: int, c: int|
        a.holds(r, c) && #[trigger] pixel(heights, width, r, c) != nodata;
    assert(b.holds(r, c) && pixel(heights, width, r, c) != nodata);
}

/// A leaf cell with a floor has a visible pixel in its box, where the pixel under
/// its centre lies in it.
pub proof fn law_floor_lies_in_the_box(
    heights: Seq<u16>,
    width: int,
    height: int,
    nodata: u16,
    sample: &LeafSample,
    floor: u16,
)
    requires
        is_floor(heights, width, height, nodata, sample, floor),
        floor != NO_DATA,
        sample.center matches Some((row, col)) ==> sample.bbox.holds(row as int, col as int),
    ensures
        box_sees(heights, width, sample.bbox, nodata),
{
    if any_counts(heights, width, nodata, sample) {
        let (row, col) = choose|row: int, col: int| #[trigger]
            counts_for(heights, width, nodata, sample, row, col);
        assert(sample.bbox.holds(row, col) && pixel(heights, width, row, col) != nodata);
    } else {
        let (row, col) = sample.center->0;
        assert(sample.bbox.holds(row as int, col as int) && pixel(
            heights,
            width,
            row as int,
            col as int,
        ) != nodata);
    }
}

/// A raster of heights, row by row.
pub open spec fn raster_wf(heights: Seq<u16>, width: int, height: int) -> bool {
    heights.len() == width * height
}

pub open spec fn pixel(heights: Seq<u16>, width: int, row: int, col: int) -> u16 {
    heights[row * width + col]
}

/// Some pixel of a box is visible.
pub open spec fn box_sees(heights: Seq<u16>, width: int, bbox: RasterBBox, nodata: u16) -> bool {
    exists|row: int, col: int|
        bbox.holds(row, col) && #[trigger] pixel(heights, width, row, col) != nodata
}

/// Whether any pixel of a box is visible.
pub fn has_visible(heights: &[u16], width: usize, height: usize, bbox: RasterBBox, nodata: u16) -> (b:
    bool)
    requires
        raster_wf(heights@, width as int, height as int),
        bbox.fits(width as int, height as int),
    ensures
        b == box_sees(heights@, width as int, bbox, nodata),
{
    let len: usize = heights.len();
    let mut row: usize = bbox.row_min;
    while row <= bbox.row_max
        invariant
            bbox.row_min <= row,
            row <= bbox.row_max + 1 || row == bbox.row_min,
            len == heights@.len(),
            raster_wf(heights@, width as int, height as int),
            bbox.fits(width as int, height as int),
            forall|r: int, c: int|
                bbox.holds(r, c) && r < row ==> #[trigger] pixel(heights@, width as int, r, c)
                    == nodata,
        decreases bbox.row_max + 1 - row,
    {
        let mut col: usize = bbox.col_min;
        while col <= bbox.col_max
            invariant
                bbox.row_min <= row <= bbox.row_max,
                bbox.col_min <= col,
                col <= bbox.col_max + 1 || col == bbox.col_min,
                len == heights@.len(),
                raster_wf(heights@, width as int, height as int),
                bbox.fits(width as int, height as int),
                forall|c: int|
                    bbox.holds(row as int, c) && c < col ==> #[trigger] pixel(
                        heights@,
                        width as int,
                        row as int,
                        c,
                    ) == nodata,
            decreases bbox.col_max + 1 - col,
        {
            proof {
                crate::los::lemma_row_major(width as int, height as int, col as int, row as int);
                assert(0 <= row * width) by (nonlinear_arith)
                    requires
                        row >= 0,
                        width >= 0,
                ;
            }
            if heights[row * width + col] != nodata {
                assert(pixel(heights@, width as int, row as int, col as int) != nodata);
                assert(bbox.holds(row as int, col as int));
                return true;
            }
            col += 1;
        }
        row += 1;
    }
    false
}

/// What one step of the traversal leaves: the cells to look at next, and the
/// leaf cells.
#[derive(Debug)]
pub struct Frontier {
    pub next: Vec<u64>,
    pub leaves: Vec<u64>,
    pub pruned: usize,
}

/// What becomes of one cell.
pub enum Fate {
    Pruned,
    Leaf,
    Descend,
}

pub open spec fn fate_of(
    heights: Seq<u16>,
    width: int,
    nodata: u16,
    target: u8,
    cell: u64,
    bbox: Option<RasterBBox>,
) -> Fate {
    match bbox {
        None => Fate::Pruned,
        Some(b) => if spec_resolution(cell) < target {
            if box_sees(heights, width, b, nodata) {
                Fate::Descend
            } else {
                Fate::Pruned
            }
        } else {
            Fate::Leaf
        },
    }
}

/// The children one level below a cell.
pub open spec fn children_below(cell: u64) -> Seq<u64> {
    match h3_children(cell, (spec_resolution(cell) + 1) as u8) {
        Some(cells) => cells,
        None => Seq::empty(),
    }
}

/// What the first `n` cells of a step leave.
pub open spec fn frontier_after(
    heights: Seq<u16>,
    width: int,
    nodata: u16,
    target: u8,
    cells: Seq<u64>,
    boxes: Seq<Option<RasterBBox>>,
    n: nat,
) -> (Seq<u64>, Seq<u64>, nat)
    decreases n,
{
    if n == 0 {
        (Seq::empty(), Seq::empty(), 0)
    } else {
        let (next, leaves, pruned) = frontier_after(
            heights,
            width,
            nodata,
            target,
            cells,
            boxes,
            (n - 1) as nat,
        );
        let cell = cells[n - 1];
        match fate_of(heights, width, nodata, target, cell, boxes[n - 1]) {
            Fate::Pruned => (next, leaves, pruned + 1),
            Fate::Leaf => (next, leaves.push(cell), pruned),
            Fate::Descend => (next + children_below(cell), leaves, pruned),
        }
    }
}

pub open spec fn boxes_fit(boxes: Seq<Option<RasterBBox>>, width: int, height: int) -> bool {
    forall|i: int|
        0 <= i < boxes.len() ==> ((#[trigger] boxes[i]) matches Some(b) ==> b.fits(width, height))
}

/// A cell lies in one of some cells, one level finer.
pub open spec fn has_parent(cells: Seq<u64>, child: u64) -> bool {
    exists|i: int|
        0 <= i < cells.len() && spec_resolution(child) == spec_resolution(#[trigger] cells[i]) + 1
            && ancestor(child, spec_resolution(cells[i]) as int) == cells[i]
}

/// Each cell of a level lies in one of the level above, one level finer.
pub open spec fn one_level_below(cells: Seq<u64>, next: Seq<u64>) -> bool {
    forall|j: int| 0 <= j < next.len() ==> has_parent(cells, #[trigger] next[j])
}

/// Children of different cells of a level are different.
proof fn lemma_children_differ(
    cells: Seq<u64>,
    i: int,
    res: int,
    next: Seq<u64>,
    below: Seq<u64>,
)
    requires
        0 <= i < cells.len(),
        is_level(cells, res),
        is_level(next, res + 1),
        one_level_below(cells.take(i), next),
        is_level(below, res + 1),
        forall|m: int| 0 <= m < below.len() ==> ancestor(#[trigger] below[m], res) == cells[i],
    ensures
        is_level(next + below, res + 1),
{
    let all = next + below;
    assert forall|j: int, m: int| 0 <= j < m < all.len() implies all[j] != all[m] by {
        if j < next.len() && m >= next.len() && all[j] == all[m] {
            assert(has_parent(cells.take(i), next[j]));
            let k = choose|k: int|
                0 <= k < cells.take(i).len() && spec_resolution(next[j]) == spec_resolution(
                    #[trigger] cells.take(i)[k],
                ) + 1 && ancestor(next[j], spec_resolution(cells.take(i)[k]) as int)
                    == cells.take(i)[k];
            assert(cells.take(i)[k] == cells[k]);
            assert(spec_resolution(cells[k]) == res);
            assert(below[m - next.len()] == all[m]);
        }
    }
}

/// More cells have no fewer children.
proof fn lemma_more_parents(cells: Seq<u64>, more: Seq<u64>, next: Seq<u64>)
    requires
        cells.len() <= more.len(),
        more.take(cells.len() as int) == cells,
        one_level_below(cells, next),
    ensures
        one_level_below(more, next),
{
    assert forall|j: int| 0 <= j < next.len() implies has_parent(more, #[trigger] next[j]) by {
        assert(has_parent(cells, next[j]));
        let k = choose|k: int|
            0 <= k < cells.len() && spec_resolution(next[j]) == spec_resolution(#[trigger] cells[k])
                + 1 && ancestor(next[j], spec_resolution(cells[k]) as int) == cells[k];
        assert(more[k] == cells[k]);
    }
}

/// One step of the hierarchical traversal. A cell beside the raster is pruned; a
/// coarse cell is replaced by its children, or pruned where no pixel of its box
/// is visible; a cell at the target resolution is a leaf.
pub fn traverse_h3_node(
    metadata: &Metadata,
    heights: &[u16],
    target: u8,
    cells: &[u64],
    boxes: &[Option<RasterBBox>],
) -> (frontier: Frontier)
    requires
        raster_wf(heights@, metadata.width as int, metadata.height as int),
        cells@.len() == boxes@.len(),
        boxes_fit(boxes@, metadata.width as int, metadata.height as int),
    ensures
        (frontier.next@, frontier.leaves@, frontier.pruned as nat) == frontier_after(
            heights@,
            metadata.width as int,
            metadata.nodata,
            target,
            cells@,
            boxes@,
            cells@.len(),
        ),
        frontier.pruned <= cells@.len(),
        one_level_below(cells@, frontier.next@),
        forall|res: int| #[trigger]
            is_level(cells@, res) ==> is_level(frontier.next@, res + 1) && is_level(
                frontier.leaves@,
                res,
            ),
{
    let mut next: Vec<u64> = Vec::new();
    let mut leaves: Vec<u64> = Vec::new();
    let mut pruned: usize = 0;
    let mut i: usize = 0;
    while i < cells.len()
        invariant
            i <= cells@.len(),
            pruned <= i,
            raster_wf(heights@, metadata.width as int, metadata.height as int),
            cells@.len() == boxes@.len(),
            boxes_fit(boxes@, metadata.width as int, metadata.height as int),
            one_level_below(cells@.take(i as int), next@),
            forall|j: int|
                0 <= j < leaves@.len() ==> cells@.take(i as int).contains(#[trigger] leaves@[j]),
            forall|res: int| #[trigger]
                is_level(cells@, res) ==> is_level(next@, res + 1) && is_level(leaves@, res),
            (next@, leaves@, pruned as nat) == frontier_after(
                heights@,
                metadata.width as int,
                metadata.nodata,
                target,
                cells@,
                boxes@,
                i as nat,
            ),
        decreases cells@.len() - i,
    {
        let cell: u64 = cells[i];
        let ghost passed = cells@.take(i as int);
        let ghost with_cell = cells@.take(i + 1);
        let ghost next_before = next@;
        let ghost leaves_before = leaves@;
        proof {
            assert(with_cell =~= passed.push(cell));
            assert(with_cell.take(i as int) =~= passed);
            lemma_more_parents(passed, with_cell, next@);
            assert forall|j: int| 0 <= j < leaves@.len() implies with_cell.contains(
                #[trigger] leaves@[j],
            ) by {
                assert(passed.contains(leaves@[j]));
                let k = choose|k: int| 0 <= k < passed.len() && passed[k] == leaves@[j];
                assert(with_cell[k] == leaves@[j]);
            }
        }
        match boxes[i] {
            None => {
                pruned = pruned + 1;
            },
            Some(bbox) => {
                let res: u8 = cell_resolution(cell);
                if res < target {
                    if has_visible(
                        heights,
                        metadata.width as usize,
                        metadata.height as usize,
                        bbox,
                        metadata.nodata,
                    ) {
                        match children(cell, res + 1) {
                            Some(below) => {
                                next.extend_from_slice(below.as_slice());
                                proof {
                                    assert(next@ =~= next_before + below@);
                                    assert(with_cell[i as int] == cell);
                                    assert forall|j: int| 0 <= j < next@.len() implies has_parent(
                                        with_cell,
                                        #[trigger] next@[j],
                                    ) by {
                                        if j < next_before.len() {
                                            assert(has_parent(with_cell, next_before[j]));
                                        } else {
                                            let child = below@[j - next_before.len()];
                                            assert(spec_resolution(child) == res + 1);
                                            assert(ancestor(child, res as int) == cell);
                                        }
                                    }
                                    assert forall|level: int| #[trigger]
                                        is_level(cells@, level) implies is_level(
                                        next@,
                                        level + 1,
                                    ) by {
                                        assert(spec_resolution(cells@[i as int]) == level);
                                        lemma_children_differ(
                                            cells@,
                                            i as int,
                                            level,
                                            next_before,
                                            below@,
                                        );
                                    }
                                }
                            },
                            None => {
                                assert(next@ + children_below(cell) =~= next@);
                            },
                        }
                    } else {
                        pruned = pruned + 1;
                    }
                } else {
                    leaves.push(cell);
                    proof {
                        assert(with_cell[i as int] == cell);
                        assert forall|j: int| 0 <= j < leaves@.len() implies with_cell.contains(
                            #[trigger] leaves@[j],
                        ) by {
                            if j < leaves_before.len() {
                                assert(with_cell.contains(leaves_before[j]));
                            }
                        }
                        assert forall|level: int| #[trigger]
                            is_level(cells@, level) implies is_level(leaves@, level) by {
                            assert(spec_resolution(cells@[i as int]) == level);
                            assert forall|j: int, k: int| 0 <= j < k < leaves@.len() implies
                            leaves@[j] != leaves@[k] by {
                                assert(passed.contains(leaves_before[j]));
                            }
                        }
                    }
                }
            },
        }
        i += 1;
    }
    assert(cells@.take(i as int) =~= cells@);
    Frontier { next, leaves, pruned }
}

/// `<[u64]>::sort_unstable`: the same numbers in ascending order.
#[verifier::external_body]
fn sort_numbers(numbers: &mut Vec<u64>)
    ensures
        final(numbers)@.to_multiset() == old(numbers)@.to_multiset(),
        final(numbers)@.len() == old(numbers)@.len(),
        forall|i: int, j: int|
            0 <= i <= j < final(numbers)@.len() ==> final(numbers)@[i] <= final(numbers)@[j],
{
    numbers.sort_unstable();
}

/// Puts leaf cells in the order of their texts. Cell indexes have the same number
/// of digits, so that this is their numeric order.
pub fn sort_cells(cells: &mut Vec<u64>)
    ensures
        final(cells)@.to_multiset() == old(cells)@.to_multiset(),
        final(cells)@.len() == old(cells)@.len(),
        forall|i: int, j: int|
            0 <= i <= j < final(cells)@.len() ==> final(cells)@[i] <= final(cells)@[j],
{
    sort_numbers(cells);
}

/// What was measured for a leaf cell: which pixels of its box have their centre
/// in the cell, row by row; the pixel under the centre of the cell; and the
/// outline.
#[derive(Debug)]
pub struct LeafSample {
    pub bbox: RasterBBox,
    pub inside: Vec<bool>,
    pub center: Option<(i64, i64)>,
    pub outline: Vec<[Binary64; 2]>,
}

impl LeafSample {
    pub open spec fn columns(&self) -> int {
        if self.bbox.col_min <= self.bbox.col_max {
            self.bbox.col_max - self.bbox.col_min + 1
        } else {
            0
        }
    }

    pub open spec fn rows(&self) -> int {
        if self.bbox.row_min <= self.bbox.row_max {
            self.bbox.row_max - self.bbox.row_min + 1
        } else {
            0
        }
    }

    pub open spec fn wf(&self, width: int, height: int) -> bool {
        &&& self.bbox.fits(width, height)
        &&& self.inside@.len() == self.rows() * self.columns()
    }

    /// The centre of a pixel lies in the cell.
    pub open spec fn covers(&self, row: int, col: int) -> bool {
        self.bbox.holds(row, col) && self.inside@[(row - self.bbox.row_min) * self.columns() + (col
            - self.bbox.col_min)]
    }
}

/// A visible pixel of a cell.
pub open spec fn counts_for(
    heights: Seq<u16>,
    width: int,
    nodata: u16,
    sample: &LeafSample,
    row: int,
    col: int,
) -> bool {
    sample.covers(row, col) && pixel(heights, width, row, col) != nodata
}

pub open spec fn any_counts(
    heights: Seq<u16>,
    width: int,
    nodata: u16,
    sample: &LeafSample,
) -> bool {
    exists|row: int, col: int| #[trigger] counts_for(heights, width, nodata, sample, row, col)
}

/// The height under the centre of a cell, for a cell smaller than a pixel.
pub open spec fn center_height(
    heights: Seq<u16>,
    width: int,
    height: int,
    nodata: u16,
    center: Option<(i64, i64)>,
) -> u16 {
    match center {
        Some((row, col)) => if 0 <= col < width && 0 <= row < height && pixel(
            heights,
            width,
            row as int,
            col as int,
        ) != nodata {
            pixel(heights, width, row as int, col as int)
        } else {
            NO_DATA
        },
        None => NO_DATA,
    }
}

/// `floor` is the lowest height among the visible pixels of a cell; where there
/// is none, the height under its centre.
pub open spec fn is_floor(
    heights: Seq<u16>,
    width: int,
    height: int,
    nodata: u16,
    sample: &LeafSample,
    floor: u16,
) -> bool {
    if any_counts(heights, width, nodata, sample) {
        &&& forall|row: int, col: int| #[trigger]
            counts_for(heights, width, nodata, sample, row, col) ==> floor <= pixel(
                heights,
                width,
                row,
                col,
            )
        &&& exists|row: int, col: int| #[trigger]
            counts_for(heights, width, nodata, sample, row, col) && pixel(heights, width, row, col)
                == floor
    } else {
        floor == center_height(heights, width, height, nodata, sample.center)
    }
}

/// The lowest altitude of a leaf cell.
pub fn leaf_floor(metadata: &Metadata, heights: &[u16], sample: &LeafSample) -> (floor: u16)
    requires
        raster_wf(heights@, metadata.width as int, metadata.height as int),
        sample.wf(metadata.width as int, metadata.height as int),
    ensures
        is_floor(
            heights@,
            metadata.width as int,
            metadata.height as int,
            metadata.nodata,
            sample,
            floor,
        ),
{
    let len: usize = heights.len();
    let inside_len: usize = sample.inside.len();
    let width: usize = metadata.width as usize;
    let height: usize = metadata.height as usize;
    let nodata: u16 = metadata.nodata;
    let bbox = sample.bbox;
    let columns: usize = if bbox.col_min <= bbox.col_max {
        bbox.col_max - bbox.col_min + 1
    } else {
        0
    };
    let mut min_val: u16 = NO_DATA;
    let mut matching = false;
    let mut row: usize = bbox.row_min;
    while row <= bbox.row_max
        invariant
            bbox == sample.bbox,
            bbox.row_min <= row,
            row <= bbox.row_max + 1 || row == bbox.row_min,
            len == heights@.len(),
            inside_len == sample.inside@.len(),
            columns == sample.columns(),
            nodata == metadata.nodata,
            width == metadata.width,
            height == metadata.height,
            raster_wf(heights@, width as int, height as int),
            sample.wf(width as int, height as int),
            lowest_so_far(heights@, width as int, nodata, sample, row as int, bbox.col_min as int,
                matching, min_val),
        decreases bbox.row_max + 1 - row,
    {
        let mut col: usize = bbox.col_min;
        while col <= bbox.col_max
            invariant
                bbox == sample.bbox,
                bbox.row_min <= row <= bbox.row_max,
                bbox.col_min <= col,
                col <= bbox.col_max + 1 || col == bbox.col_min,
                len == heights@.len(),
                inside_len == sample.inside@.len(),
                columns == sample.columns(),
                nodata == metadata.nodata,
                width == metadata.width,
                height == metadata.height,
                raster_wf(heights@, width as int, height as int),
                sample.wf(width as int, height as int),
                lowest_so_far(heights@, width as int, nodata, sample, row as int, col as int,
                    matching, min_val),
            decreases bbox.col_max + 1 - col,
        {
            proof {
                crate::los::lemma_row_major(width as int, height as int, col as int, row as int);
                crate::los::lemma_row_major(
                    columns as int,
                    sample.rows(),
                    col - bbox.col_min,
                    row - bbox.row_min,
                );
                assert(0 <= row * width) by (nonlinear_arith)
                    requires
                        row >= 0,
                        width >= 0,
                ;
                assert(0 <= (row - bbox.row_min) * columns) by (nonlinear_arith)
                    requires
                        row >= bbox.row_min,
                        columns >= 0,
                ;
                assert(sample.rows() * columns == columns * sample.rows()) by (nonlinear_arith);
            }
            let val: u16 = heights[row * width + col];
            let covered = sample.inside[(row - bbox.row_min) * columns + (col - bbox.col_min)];
            if val != nodata && covered {
                assert(counts_for(
                    heights@,
                    width as int,
                    nodata,
                    sample,
                    row as int,
                    col as int,
                ));
                if val < min_val {
                    min_val = val;
                }
                matching = true;
            }
            col += 1;
        }
        row += 1;
    }
    proof {
        assert forall|r: int, c: int| #[trigger]
            counts_for(heights@, width as int, nodata, sample, r, c) implies scanned(
            row as int,
            bbox.col_min as int,
            r,
            c,
        ) by {}
    }
    if !matching {
        match sample.center {
            Some((r, c)) => {
                if c >= 0 && c < metadata.width as i64 && r >= 0 && r < metadata.height as i64 {
                    proof {
                        crate::los::lemma_row_major(width as int, height as int, c as int, r as int);
                        assert(0 <= r * width) by (nonlinear_arith)
                            requires
                                r >= 0,
                                width >= 0,
                        ;
                    }
                    let val: u16 = heights[r as usize * width + c as usize];
                    if val != nodata {
                        min_val = val;
                    }
                }
            },
            None => {},
        }
    }
    min_val
}

/// A pixel has been passed by a scan that stands at `(row, col)`.
spec fn scanned(row: int, col: int, r: int, c: int) -> bool {
    r < row || (r == row && c < col)
}

spec fn lowest_so_far(
    heights: Seq<u16>,
    width: int,
    nodata: u16,
    sample: &LeafSample,
    row: int,
    col: int,
    matching: bool,
    lowest: u16,
) -> bool {
    &&& forall|r: int, c: int| #[trigger]
        counts_for(heights, width, nodata, sample, r, c) && scanned(row, col, r, c) ==> matching
            && lowest <= pixel(heights, width, r, c)
    &&& matching ==> exists|r: int, c: int| #[trigger]
        counts_for(heights, width, nodata, sample, r, c) && pixel(heights, width, r, c) == lowest
    &&& !matching ==> lowest == NO_DATA
}

/// The lower end of the bucket that a height falls into.
pub open spec fn bucket_of(height: u16, step: u16) -> u16 {
    (height as int / step as int * step) as u16
}

fn bucket(height: u16, step: u16) -> (start: u16)
    requires
        step > 0,
    ensures
        start == bucket_of(height, step),
        start <= height,
{
    assert(height as int / step as int * step <= height) by (nonlinear_arith)
        requires
            step > 0,
            height >= 0,
    ;
    height / step * step
}

/// A bucket starts at a multiple of the step and is one step long.
pub proof fn law_bucket_holds_its_height(height: u16, step: u16)
    requires
        step > 0,
    ensures
        bucket_of(height, step) <= height,
        height < bucket_of(height, step) + step,
        bucket_of(height, step) as int % step as int == 0,
{
    let h = height as int;
    let s = step as int;
    assert(h / s * s <= h && h < h / s * s + s && (h / s * s) % s == 0) by (nonlinear_arith)
        requires
            s > 0,
            h >= 0,
    ;
}

/// The outline of a cell as a closed ring.
pub open spec fn closed_ring(outline: Seq<[Binary64; 2]>) -> Seq<[Binary64; 2]> {
    if outline.len() == 0 {
        outline
    } else {
        outline.push(outline[0])
    }
}

/// The ring of a cell holds every vertex of its outline in its order, and ends
/// with the first again. A cell without an outline has an empty ring.
pub proof fn law_exported_outline_is_closed(outline: Seq<[Binary64; 2]>)
    ensures
        outline.len() == 0 ==> closed_ring(outline).len() == 0,
        outline.len() > 0 ==> {
            &&& closed_ring(outline).len() == outline.len() + 1
            &&& closed_ring(outline)[outline.len() as int] == outline[0]
            &&& closed_ring(outline).first() == closed_ring(outline).last()
        },
        forall|i: int| 0 <= i < outline.len() ==> #[trigger] closed_ring(outline)[i] == outline[i],
{
}

fn close_ring(outline: &Vec<[Binary64; 2]>) -> (ring: Vec<[Binary64; 2]>)
    ensures
        ring@ == closed_ring(outline@),
{
    let mut ring: Vec<[Binary64; 2]> = Vec::new();
    let mut i: usize = 0;
    while i < outline.len()
        invariant
            i <= outline@.len(),
            ring@ == outline@.take(i as int),
        decreases outline@.len() - i,
    {
        ring.push(outline[i]);
        i += 1;
        assert(ring@ =~= outline@.take(i as int));
    }
    assert(ring@ =~= outline@);
    if outline.len() > 0 {
        ring.push(outline[0]);
    }
    ring
}

/// `record` is what a leaf cell with a known floor exports.
pub open spec fn is_record(
    config: &H3ExportConfig,
    cell: u64,
    sample: &LeafSample,
    floor: u16,
    record: &H3Record,
) -> bool {
    &&& record.h3@ == hexadecimal(cell as nat)
    &&& record.res == config.target_resolution
    &&& record.min_floor_m == floor
    &&& record.altitude_bucket_m == (match config.altitude_bucket_m {
        Some(step) => Some(bucket_of(floor, step)),
        None => None,
    })
    &&& record.boundary is Some <==> config.include_boundary
    &&& record.boundary matches Some(ring) ==> ring@ == closed_ring(sample.outline@)
}

/// The floor of a leaf cell.
pub open spec fn floor_of(metadata: &Metadata, heights: Seq<u16>, sample: &LeafSample) -> u16 {
    choose|floor: u16|
        is_floor(
            heights,
            metadata.width as int,
            metadata.height as int,
            metadata.nodata,
            sample,
            floor,
        )
}

proof fn lemma_floor_is_unique(
    metadata: &Metadata,
    heights: Seq<u16>,
    sample: &LeafSample,
    floor: u16,
)
    requires
        is_floor(
            heights,
            metadata.width as int,
            metadata.height as int,
            metadata.nodata,
            sample,
            floor,
        ),
    ensures
        floor_of(metadata, heights, sample) == floor,
{
    let other = floor_of(metadata, heights, sample);
    assert(is_floor(
        heights,
        metadata.width as int,
        metadata.height as int,
        metadata.nodata,
        sample,
        other,
    ));
}

/// The indexes of the leaf cells, among the first `n`, that have a floor.
pub open spec fn exported(
    metadata: &Metadata,
    heights: Seq<u16>,
    samples: Seq<LeafSample>,
    n: nat,
) -> Seq<int>
    decreases n,
{
    if n == 0 {
        Seq::empty()
    } else {
        let before = exported(metadata, heights, samples, (n - 1) as nat);
        if floor_of(metadata, heights, &samples[n - 1]) != NO_DATA {
            before.push(n - 1)
        } else {
            before
        }
    }
}

/// Exported leaf cells keep their order, and every one with a floor is exported.
pub proof fn lemma_exported_ascends(
    metadata: &Metadata,
    heights: Seq<u16>,
    samples: Seq<LeafSample>,
    n: nat,
)
    ensures
        ({
            let chosen = exported(metadata, heights, samples, n);
            &&& forall|i: int, j: int| 0 <= i < j < chosen.len() ==> chosen[i] < chosen[j]
            &&& forall|i: int|
                0 <= i < chosen.len() ==> 0 <= #[trigger] chosen[i] < n && floor_of(
                    metadata,
                    heights,
                    &samples[chosen[i]],
                ) != NO_DATA
            &&& forall|k: int|
                0 <= k < n && floor_of(metadata, heights, &#[trigger] samples[k]) != NO_DATA
                    ==> chosen.contains(k)
        }),
    decreases n,
{
    if n > 0 {
        let before = exported(metadata, heights, samples, (n - 1) as nat);
        let chosen = exported(metadata, heights, samples, n);
        lemma_exported_ascends(metadata, heights, samples, (n - 1) as nat);
        assert forall|k: int|
            0 <= k < n && floor_of(metadata, heights, &#[trigger] samples[k])
                != NO_DATA implies chosen.contains(k) by {
            if k == n - 1 {
                assert(chosen[before.len() as int] == k);
            } else {
                assert(before.contains(k));
                let i = choose|i: int| 0 <= i < before.len() && before[i] == k;
                assert(chosen[i] == k);
            }
        }
    }
}

/// Cells in ascending order, none of them twice.
pub open spec fn strictly_ascends(cells: Seq<u64>) -> bool {
    forall|i: int, j: int| 0 <= i < j < cells.len() ==> cells[i] < cells[j]
}

/// The lowest of the exported floors among the first `n` leaf cells.
pub open spec fn lowest_floor(
    metadata: &Metadata,
    heights: Seq<u16>,
    samples: Seq<LeafSample>,
    n: nat,
) -> Option<u16>
    decreases n,
{
    if n == 0 {
        None
    } else {
        let floor = floor_of(metadata, heights, &samples[n - 1]);
        lowest_of(
            lowest_floor(metadata, heights, samples, (n - 1) as nat),
            if floor != NO_DATA {
                Some(floor)
            } else {
                None
            },
        )
    }
}

/// The highest of the exported floors among the first `n` leaf cells.
pub open spec fn highest_floor(
    metadata: &Metadata,
    heights: Seq<u16>,
    samples: Seq<LeafSample>,
    n: nat,
) -> Option<u16>
    decreases n,
{
    if n == 0 {
        None
    } else {
        let floor = floor_of(metadata, heights, &samples[n - 1]);
        highest_of(
            highest_floor(metadata, heights, samples, (n - 1) as nat),
            if floor != NO_DATA {
                Some(floor)
            } else {
                None
            },
        )
    }
}

pub open spec fn samples_wf(samples: Seq<LeafSample>, metadata: &Metadata) -> bool {
    forall|i: int|
        0 <= i < samples.len() ==> (#[trigger] samples[i]).wf(
            metadata.width as int,
            metadata.height as int,
        )
}

/// Turns leaf cells into records: one for each that has a floor, in the order of
/// the cells.
pub fn extract_h3_records(
    metadata: &Metadata,
    heights: &[u16],
    config: &H3ExportConfig,
    cells: &[u64],
    samples: &[LeafSample],
) -> (export: (Vec<H3Record>, H3ExportStats))
    requires
        raster_wf(heights@, metadata.width as int, metadata.height as int),
        config.altitude_bucket_m != Some(0u16),
        cells@.len() == samples@.len(),
        samples_wf(samples@, metadata),
    ensures
        ({
            let chosen = exported(metadata, heights@, samples@, samples@.len());
            &&& export.0@.len() == chosen.len()
            &&& forall|i: int|
                0 <= i < chosen.len() ==> is_record(
                    config,
                    cells@[chosen[i]],
                    &samples@[chosen[i]],
                    floor_of(metadata, heights@, &samples@[chosen[i]]),
                    &#[trigger] export.0@[i],
                )
            &&& export.1 == (H3ExportStats {
                total_candidate_roots: 0,
                pruned_coarse_cells: 0,
                visited_leaf_cells: cells@.len() as usize,
                exported_cells: chosen.len() as usize,
                min_altitude_m: lowest_floor(metadata, heights@, samples@, samples@.len()),
                max_altitude_m: highest_floor(metadata, heights@, samples@, samples@.len()),
            })
        }),
{
    let mut records: Vec<H3Record> = Vec::new();
    let mut lowest: Option<u16> = None;
    let mut highest: Option<u16> = None;
    let mut i: usize = 0;
    while i < cells.len()
        invariant
            i <= cells@.len(),
            raster_wf(heights@, metadata.width as int, metadata.height as int),
            config.altitude_bucket_m != Some(0u16),
            cells@.len() == samples@.len(),
            samples_wf(samples@, metadata),
            records@.len() <= i,
            records@.len() == exported(metadata, heights@, samples@, i as nat).len(),
            forall|j: int|
                0 <= j < records@.len() ==> is_record(
                    config,
                    cells@[exported(metadata, heights@, samples@, i as nat)[j]],
                    &samples@[exported(metadata, heights@, samples@, i as nat)[j]],
                    floor_of(
                        metadata,
                        heights@,
                        &samples@[exported(metadata, heights@, samples@, i as nat)[j]],
                    ),
                    &#[trigger] records@[j],
                ),
            lowest == lowest_floor(metadata, heights@, samples@, i as nat),
            highest == highest_floor(metadata, heights@, samples@, i as nat),
        decreases cells@.len() - i,
    {
        let sample = &samples[i];
        let ghost before = exported(metadata, heights@, samples@, i as nat);
        let floor: u16 = leaf_floor(metadata, heights, sample);
        proof {
            lemma_floor_is_unique(metadata, heights@, sample, floor);
        }
        if floor != NO_DATA {
            let altitude_bucket_m = match config.altitude_bucket_m {
                Some(step) => Some(bucket(floor, step)),
                None => None,
            };
            let boundary = if config.include_boundary {
                Some(close_ring(&sample.outline))
            } else {
                None
            };
            let record = H3Record {
                h3: cell_text(cells[i]),
                res: config.target_resolution,
                min_floor_m: floor,
                altitude_bucket_m,
                boundary,
            };
            records.push(record);
            lowest = match lowest {
                Some(low) => Some(
                    if floor < low {
                        floor
                    } else {
                        low
                    },
                ),
                None => Some(floor),
            };
            highest = match highest {
                Some(high) => Some(
                    if floor > high {
                        floor
                    } else {
                        high
                    },
                ),
                None => Some(floor),
            };
        }
        i += 1;
    }
    let stats = H3ExportStats {
        total_candidate_roots: 0,
        pruned_coarse_cells: 0,
        visited_leaf_cells: cells.len(),
        exported_cells: records.len(),
        min_altitude_m: lowest,
        max_altitude_m: highest,
    };
    (records, stats)
}

/// One text comes before another of the same length: they agree up to a place,
/// where the first has the smaller character.
pub open spec fn comes_before(a: Seq<char>, b: Seq<char>) -> bool {
    a.len() == b.len() && exists|k: int|
        0 <= k < a.len() && #[trigger] (a[k] as u32) < b[k] as u32 && a.take(k) == b.take(k)
}

proof fn lemma_hexadecimal_order(a: nat, b: nat)
    requires
        a < b,
        hexadecimal(a).len() == hexadecimal(b).len(),
    ensures
        comes_before(hexadecimal(a), hexadecimal(b)),
    decreases b,
{
    let left = hexadecimal(a);
    let right = hexadecimal(b);
    if b < 16 {
        assert((left[0] as u32) < right[0] as u32);
        assert(left.take(0) =~= right.take(0));
    } else if a < 16 {
        lemma_hexadecimal_len(b / 16);
        assert(false);
    } else {
        let last = left.len() - 1;
        if a / 16 == b / 16 {
            assert((left[last] as u32) < right[last] as u32);
            assert(left.take(last) =~= right.take(last));
        } else {
            lemma_hexadecimal_order(a / 16, b / 16);
            let left_head = hexadecimal(a / 16);
            let right_head = hexadecimal(b / 16);
            let k = choose|k: int|
                0 <= k < left_head.len() && #[trigger] (left_head[k] as u32) < right_head[k] as u32
                    && left_head.take(k) == right_head.take(k);
            assert((left[k] as u32) < right[k] as u32);
            assert(left.take(k) =~= left_head.take(k));
            assert(right.take(k) =~= right_head.take(k));
        }
    }
}

proof fn lemma_hexadecimal_len(n: nat)
    ensures
        hexadecimal(n).len() >= 1,
    decreases n,
{
    if n >= 16 {
        lemma_hexadecimal_len(n / 16);
    }
}

/// The texts of cell indexes have fifteen digits, and their order is the numeric
/// order of the indexes.
pub proof fn law_text_order_is_numeric_order(a: u64, b: u64)
    requires
        0x0800_0000_0000_0000 <= a < b < 0x0900_0000_0000_0000,
    ensures
        hexadecimal(a as nat).len() == 15,
        hexadecimal(b as nat).len() == 15,
        comes_before(hexadecimal(a as nat), hexadecimal(b as nat)),
{
    reveal_with_fuel(hexadecimal, 16);
    assert(hexadecimal(a as nat).len() == 15);
    assert(hexadecimal(b as nat).len() == 15);
    lemma_hexadecimal_order(a as nat, b as nat);
}

/// No cell is exported twice: where the leaf cells ascend strictly, so do the
/// cells of the records, and their texts differ.
pub proof fn law_no_cell_is_exported_twice(
    metadata: &Metadata,
    heights: Seq<u16>,
    config: &H3ExportConfig,
    cells: Seq<u64>,
    samples: Seq<LeafSample>,
    records: Seq<H3Record>,
    i: int,
    j: int,
)
    requires
        strictly_ascends(cells),
        cells.len() == samples.len(),
        ({
            let chosen = exported(metadata, heights, samples, samples.len());
            &&& records.len() == chosen.len()
            &&& forall|k: int|
                0 <= k < chosen.len() ==> is_record(
                    config,
                    cells[chosen[k]],
                    &samples[chosen[k]],
                    floor_of(metadata, heights, &samples[chosen[k]]),
                    &#[trigger] records[k],
                )
        }),
        0 <= i < j < records.len(),
    ensures
        records[i].h3@ != records[j].h3@,
        ({
            let chosen = exported(metadata, heights, samples, samples.len());
            cells[chosen[i]] < cells[chosen[j]]
        }),
{
    let chosen = exported(metadata, heights, samples, samples.len());
    lemma_exported_ascends(metadata, heights, samples, samples.len());
    let (a, b) = (cells[chosen[i]], cells[chosen[j]]);
    assert(chosen[i] < chosen[j]);
    assert(records[i].h3@ == hexadecimal(a as nat) && records[j].h3@ == hexadecimal(b as nat));
    if records[i].h3@ == records[j].h3@ {
        lemma_hexadecimal_order(a as nat, b as nat);
    }
}

/// A raster without any visible pixel is pruned completely: no coarse cell is
/// followed, and no leaf cell is exported.
pub proof fn law_no_data_exports_nothing(
    metadata: &Metadata,
    heights: Seq<u16>,
    target: u8,
    cell: u64,
    bbox: Option<RasterBBox>,
    sample: &LeafSample,
)
    requires
        raster_wf(heights, metadata.width as int, metadata.height as int),
        forall|i: int| 0 <= i < heights.len() ==> #[trigger] heights[i] == metadata.nodata,
        bbox matches Some(b) ==> b.fits(metadata.width as int, metadata.height as int),
        sample.wf(metadata.width as int, metadata.height as int),
    ensures
        !(fate_of(heights, metadata.width as int, metadata.nodata, target, cell, bbox)
            is Descend),
        floor_of(metadata, heights, sample) == NO_DATA,
{
    let width = metadata.width as int;
    let height = metadata.height as int;
    assert forall|row: int, col: int|
        0 <= row < height && 0 <= col < width implies #[trigger] pixel(heights, width, row, col)
        == metadata.nodata by {
        crate::los::lemma_row_major(width, height, col, row);
    }
    assert(is_floor(heights, width, height, metadata.nodata, sample, NO_DATA)) by {
        assert(!any_counts(heights, width, metadata.nodata, sample));
    }
    lemma_floor_is_unique(metadata, heights, sample, NO_DATA);
}

/// No visible pixel of a cell lies below the exported floor.
pub proof fn law_lowest_altitude_wins(
    metadata: &Metadata,
    heights: Seq<u16>,
    sample: &LeafSample,
    floor: u16,
    row: int,
    col: int,
)
    requires
        is_floor(
            heights,
            metadata.width as int,
            metadata.height as int,
            metadata.nodata,
            sample,
            floor,
        ),
        counts_for(heights, metadata.width as int, metadata.nodata, sample, row, col),
    ensures
        floor <= pixel(heights, metadata.width as int, row, col),
{
}

/// A record shows its cell: the floor, the bucket that the floor falls in, and,
/// where it is asked for, every vertex of the outline in its order, with the first
/// again at the end.
pub proof fn law_record_shows_its_cell(
    config: &H3ExportConfig,
    cell: u64,
    sample: &LeafSample,
    floor: u16,
    record: &H3Record,
)
    requires
        is_record(config, cell, sample, floor, record),
        config.altitude_bucket_m != Some(0u16),
    ensures
        record.res == config.target_resolution,
        record.min_floor_m == floor,
        hexadecimal_value(record.h3@) == cell,
        record.altitude_bucket_m is Some <==> config.altitude_bucket_m is Some,
        record.altitude_bucket_m matches Some(bucket) ==> {
            let step = config.altitude_bucket_m->0;
            bucket <= floor && floor < bucket + step && bucket as int % step as int == 0
        },
        record.boundary is Some <==> config.include_boundary,
        record.boundary matches Some(ring) ==> {
            let outline = sample.outline@;
            &&& outline.len() == 0 ==> ring@.len() == 0
            &&& outline.len() > 0 ==> ring@.len() == outline.len() + 1 && ring@[outline.len() as int]
                == outline[0]
            &&& forall|i: int| 0 <= i < outline.len() ==> #[trigger] ring@[i] == outline[i]
        },
{
    law_hexadecimal_is_read_back(cell as nat);
    law_exported_outline_is_closed(sample.outline@);
    if let Some(step) = config.altitude_bucket_m {
        law_bucket_holds_its_height(floor, step);
    }
}

/// The number that a hexadecimal text stands for.
pub open spec fn hexadecimal_value(text: Seq<char>) -> nat
    decreases text.len(),
{
    if text.len() == 0 {
        0
    } else {
        let code = text.last() as nat;
        let digit: int = if code < 97 {
            code - 48
        } else {
            code - 97 + 10
        };
        (16 * hexadecimal_value(text.drop_last()) + digit) as nat
    }
}

/// Reading a cell's text as a hexadecimal number gives the cell back.
pub proof fn law_hexadecimal_is_read_back(n: nat)
    ensures
        hexadecimal_value(hexadecimal(n)) == n,
    decreases n,
{
    let text = hexadecimal(n);
    if n < 16 {
        assert(text.drop_last() =~= Seq::<char>::empty());
        assert(hexadecimal_value(text.drop_last()) == 0);
    } else {
        law_hexadecimal_is_read_back(n / 16);
        assert(text.drop_last() =~= hexadecimal(n / 16));
    }
}

/// The floor of a leaf is the lowest height among the visible pixels that it
/// covers. Where it covers none, it is the height of the pixel under its centre,
/// if there is one that is visible, and the reserved value otherwise.
pub proof fn law_floor_is_the_lowest_pixel(
    heights: Seq<u16>,
    width: int,
    height: int,
    nodata: u16,
    sample: &LeafSample,
    floor: u16,
)
    requires
        is_floor(heights, width, height, nodata, sample, floor),
        sample.wf(width, height),
    ensures
        ({
            let across = sample.bbox.col_max - sample.bbox.col_min + 1;
            let seen = |row: int, col: int|
                sample.bbox.row_min <= row <= sample.bbox.row_max && sample.bbox.col_min <= col
                    <= sample.bbox.col_max && sample.inside@[(row - sample.bbox.row_min) * across
                    + (col - sample.bbox.col_min)] && heights[row * width + col] != nodata;
            let none = forall|row: int, col: int| !(#[trigger] seen(row, col));
            &&& forall|row: int, col: int| #[trigger]
                seen(row, col) ==> floor <= heights[row * width + col]
            &&& !none ==> exists|row: int, col: int| #[trigger]
                seen(row, col) && heights[row * width + col] == floor
            &&& none ==> match sample.center {
                Some((row, col)) => if 0 <= row < height && 0 <= col < width && heights[row * width
                    + col] != nodata {
                    floor == heights[row * width + col]
                } else {
                    floor == 65535
                },
                None => floor == 65535,
            }
        }),
{
    let across = sample.bbox.col_max - sample.bbox.col_min + 1;
    let seen = |row: int, col: int|
        sample.bbox.row_min <= row <= sample.bbox.row_max && sample.bbox.col_min <= col
            <= sample.bbox.col_max && sample.inside@[(row - sample.bbox.row_min) * across + (col
            - sample.bbox.col_min)] && heights[row * width + col] != nodata;
    assert(sample.bbox.col_min <= sample.bbox.col_max ==> sample.columns() == across);
    assert forall|row: int, col: int| #[trigger] seen(row, col) == counts_for(
        heights,
        width,
        nodata,
        sample,
        row,
        col,
    ) by {}
    if any_counts(heights, width, nodata, sample) {
        let (row, col) = choose|row: int, col: int| #[trigger]
            counts_for(heights, width, nodata, sample, row, col) && pixel(heights, width, row, col)
                == floor;
        assert(seen(row, col));
        assert forall|r: int, c: int| #[trigger] seen(r, c) implies floor <= heights[r * width
            + c] by {
            assert(counts_for(heights, width, nodata, sample, r, c));
            assert(floor <= pixel(heights, width, r, c));
        }
    } else {
        assert forall|r: int, c: int| !(#[trigger] seen(r, c)) by {
            if seen(r, c) {
                assert(counts_for(heights, width, nodata, sample, r, c));
            }
        }
    }
}

/// Just the leaves with a floor are exported, each once, in their order.
pub proof fn law_leaves_with_a_floor_are_exported(
    metadata: &Metadata,
    heights: Seq<u16>,
    samples: Seq<LeafSample>,
    n: nat,
)
    requires
        n <= samples.len(),
    ensures
        ({
            let chosen = exported(metadata, heights, samples, n);
            &&& forall|i: int, j: int| 0 <= i < j < chosen.len() ==> chosen[i] < chosen[j]
            &&& forall|i: int|
                0 <= i < chosen.len() ==> 0 <= #[trigger] chosen[i] < n && floor_of(
                    metadata,
                    heights,
                    &samples[chosen[i]],
                ) != 65535
            &&& forall|k: int|
                0 <= k < n && floor_of(metadata, heights, &#[trigger] samples[k]) != 65535
                    ==> chosen.contains(k)
        }),
{
    lemma_exported_ascends(metadata, heights, samples, n);
}

/// The altitudes of an export are the lowest and the highest of its floors: every
/// exported floor lies between them, each is one of these floors, and there is
/// none where nothing is exported.
pub proof fn law_altitudes_span_the_floors(
    metadata: &Metadata,
    heights: Seq<u16>,
    samples: Seq<LeafSample>,
    n: nat,
)
    requires
        n <= samples.len(),
    ensures
        ({
            let lowest = lowest_floor(metadata, heights, samples, n);
            let highest = highest_floor(metadata, heights, samples, n);
            &&& forall|k: int|
                0 <= k < n && floor_of(metadata, heights, &#[trigger] samples[k]) != 65535
                    ==> lowest is Some && highest is Some && lowest->0 <= floor_of(
                    metadata,
                    heights,
                    &samples[k],
                ) <= highest->0
            &&& lowest matches Some(low) ==> low != 65535 && exists|k: int|
                0 <= k < n && floor_of(metadata, heights, &#[trigger] samples[k]) == low
            &&& highest matches Some(high) ==> high != 65535 && exists|k: int|
                0 <= k < n && floor_of(metadata, heights, &#[trigger] samples[k]) == high
        }),
    decreases n,
{
    if n > 0 {
        law_altitudes_span_the_floors(metadata, heights, samples, (n - 1) as nat);
        assert(samples[n - 1] == samples[n - 1]);
    }
}

/// Merged statistics add up the counts, and their altitudes span those of both
/// parts and no more.
pub proof fn law_merge_adds_up(a: H3ExportStats, b: H3ExportStats)
    requires
        a.sums_fit(b),
    ensures
        ({
            let sum = a.merged(b);
            &&& sum.total_candidate_roots == a.total_candidate_roots + b.total_candidate_roots
            &&& sum.pruned_coarse_cells == a.pruned_coarse_cells + b.pruned_coarse_cells
            &&& sum.visited_leaf_cells == a.visited_leaf_cells + b.visited_leaf_cells
            &&& sum.exported_cells == a.exported_cells + b.exported_cells
            &&& a.min_altitude_m is Some ==> sum.min_altitude_m is Some && sum.min_altitude_m->0
                <= a.min_altitude_m->0
            &&& b.min_altitude_m is Some ==> sum.min_altitude_m is Some && sum.min_altitude_m->0
                <= b.min_altitude_m->0
            &&& sum.min_altitude_m == a.min_altitude_m || sum.min_altitude_m == b.min_altitude_m
            &&& a.max_altitude_m is Some ==> sum.max_altitude_m is Some && sum.max_altitude_m->0
                >= a.max_altitude_m->0
            &&& b.max_altitude_m is Some ==> sum.max_altitude_m is Some && sum.max_altitude_m->0
                >= b.max_altitude_m->0
            &&& sum.max_altitude_m == a.max_altitude_m || sum.max_altitude_m == b.max_altitude_m
        }),
{
}

/// Bounds are no wider than the points need: each side runs through a point, or
/// lies at infinity where there is none.
pub proof fn law_bounds_touch_their_points(points: Seq<(Binary64, Binary64)>)
    ensures
        ({
            let bounds = bounds_of(points);
            let endless = Binary64::from_bits(0x7ff0_0000_0000_0000);
            &&& bounds.min_x == endless || exists|i: int|
                0 <= i < points.len() && (#[trigger] points[i]).0 == bounds.min_x
            &&& bounds.max_x == Binary64::negative_infinity() || exists|i: int|
                0 <= i < points.len() && (#[trigger] points[i]).0 == bounds.max_x
            &&& bounds.min_y == endless || exists|i: int|
                0 <= i < points.len() && (#[trigger] points[i]).1 == bounds.min_y
            &&& bounds.max_y == Binary64::negative_infinity() || exists|i: int|
                0 <= i < points.len() && (#[trigger] points[i]).1 == bounds.max_y
        }),
    decreases points.len(),
{
    if points.len() > 0 {
        let rest = points.drop_last();
        law_bounds_touch_their_points(rest);
        let before = bounds_of(rest);
        assert(forall|i: int| 0 <= i < rest.len() ==> #[trigger] rest[i] == points[i]);
        assert(points[points.len() - 1] == points.last());
        let endless = Binary64::from_bits(0x7ff0_0000_0000_0000);
        if before.min_x != endless {
            let i = choose|i: int| 0 <= i < rest.len() && (#[trigger] rest[i]).0 == before.min_x;
            assert(points[i].0 == before.min_x);
        }
        if before.max_x != Binary64::negative_infinity() {
            let i = choose|i: int| 0 <= i < rest.len() && (#[trigger] rest[i]).0 == before.max_x;
            assert(points[i].0 == before.max_x);
        }
        if before.min_y != endless {
            let i = choose|i: int| 0 <= i < rest.len() && (#[trigger] rest[i]).1 == before.min_y;
            assert(points[i].1 == before.min_y);
        }
        if before.max_y != Binary64::negative_infinity() {
            let i = choose|i: int| 0 <= i < rest.len() && (#[trigger] rest[i]).1 == before.max_y;
            assert(points[i].1 == before.max_y);
        }
    }
}

/// Cutting a box to the raster keeps just the pixels of the raster that it held.
/// It leaves nothing just where the box lies beyond one of the raster's sides.
pub proof fn law_cut_keeps_the_pixels_inside(
    raw: RawBox,
    width: int,
    height: int,
    row: int,
    col: int,
)
    requires
        0 < width <= u32::MAX,
        0 < height <= u32::MAX,
        0 <= row < height,
        0 <= col < width,
    ensures
        cut_box(raw, width, height) is None <==> raw.col_max < 0 || width <= raw.col_min
            || raw.row_max < 0 || height <= raw.row_min,
        cut_box(raw, width, height) is None ==> !(raw.row_min <= row <= raw.row_max && raw.col_min
            <= col <= raw.col_max),
        cut_box(raw, width, height) matches Some(cut) ==> {
            &&& cut.col_max < width && cut.row_max < height
            &&& (cut.row_min <= row <= cut.row_max && cut.col_min <= col <= cut.col_max)
                <==> (raw.row_min <= row <= raw.row_max && raw.col_min <= col <= raw.col_max)
        },
{
}

/// A coarse cell's box grows by more than a quarter of its extent on each side,
/// and by no more than one pixel beyond that, as far as the numbers go.
pub proof fn law_widened_box_grows_by_a_quarter(raw: RawBox)
    requires
        raw.col_min <= raw.col_max,
        raw.row_min <= raw.row_max,
    ensures
        ({
            let wide = widened(raw);
            let (across, along) = (raw.col_max - raw.col_min, raw.row_max - raw.row_min);
            &&& wide.col_min == i64::MIN || across < 4 * (raw.col_min - wide.col_min) <= across + 4
            &&& wide.col_max == i64::MAX || across < 4 * (wide.col_max - raw.col_max) <= across + 4
            &&& wide.row_min == i64::MIN || along < 4 * (raw.row_min - wide.row_min) <= along + 4
            &&& wide.row_max == i64::MAX || along < 4 * (wide.row_max - raw.row_max) <= along + 4
            &&& wide.col_min <= raw.col_min && raw.col_max <= wide.col_max
            &&& wide.row_min <= raw.row_min && raw.row_max <= wide.row_max
        }),
{
}

/// A cell is searched in its own pixels at the target resolution, and above it in
/// those within a quarter of its extent as well. A cell that cannot be projected is not searched.
pub proof fn law_search_leaves_out_no_pixel(
    cell: u64,
    target: u8,
    raw: RawBox,
    width: int,
    height: int,
    row: int,
    col: int,
)
    requires
        0 < width <= u32::MAX,
        0 < height <= u32::MAX,
        0 <= row < height,
        0 <= col < width,
    ensures
        search_box_of(cell, target, None, width, height) is None,
        ({
            let found = search_box_of(cell, target, Some(raw), width, height);
            let searched = found is Some && found->0.row_min <= row <= found->0.row_max
                && found->0.col_min <= col <= found->0.col_max;
            let own = raw.row_min <= row <= raw.row_max && raw.col_min <= col <= raw.col_max;
            let (across, along) = (raw.col_max - raw.col_min, raw.row_max - raw.row_min);
            let beside = 4 * (raw.col_min - col) <= across && 4 * (col - raw.col_max) <= across
                && 4 * (raw.row_min - row) <= along && 4 * (row - raw.row_max) <= along;
            &&& own ==> searched
            &&& spec_resolution(cell) >= target ==> (searched <==> own)
            &&& spec_resolution(cell) < target && across >= 0 && along >= 0 && beside ==> searched
        }),
{
}

/// The resolution of a cell is the number in its bits 52 to 55, whatever the others
/// are.
pub proof fn law_resolution_stands_in_its_bits(high: nat, res: nat, low: nat)
    requires
        high < 256,
        res < 16,
        low < 0x10_0000_0000_0000,
    ensures
        spec_resolution(
            (high * 0x100_0000_0000_0000 + res * 0x10_0000_0000_0000 + low) as u64,
        ) == res,
{
    let cell = high * 0x100_0000_0000_0000 + res * 0x10_0000_0000_0000 + low;
    assert(cell / 0x10_0000_0000_0000 == 16 * high + res);
}

/// A step of the traversal gives every cell its place. Leaves are the cells at the
/// target resolution that have a box. A coarser cell with a visible pixel in its
/// box is followed to its children. Every other cell is pruned, and counted so.
pub proof fn law_frontier_places_every_cell(
    heights: Seq<u16>,
    width: int,
    nodata: u16,
    target: u8,
    cells: Seq<u64>,
    boxes: Seq<Option<RasterBBox>>,
    n: nat,
)
    requires
        cells.len() == boxes.len(),
        n <= cells.len(),
    ensures
        ({
            let (next, leaves, pruned) = frontier_after(
                heights,
                width,
                nodata,
                target,
                cells,
                boxes,
                n,
            );
            let sees = |i: int|
                boxes[i] is Some && exists|row: int, col: int|
                    boxes[i]->0.row_min <= row <= boxes[i]->0.row_max && boxes[i]->0.col_min <= col
                        <= boxes[i]->0.col_max && #[trigger] pixel(heights, width, row, col)
                        != nodata;
            let is_leaf = |i: int| spec_resolution(cells[i]) >= target && boxes[i] is Some;
            let is_followed = |i: int| spec_resolution(cells[i]) < target && sees(i);
            &&& forall|cell: u64| #[trigger]
                leaves.contains(cell) <==> exists|i: int|
                    0 <= i < n && #[trigger] cells[i] == cell && is_leaf(i)
            &&& forall|child: u64| #[trigger]
                next.contains(child) <==> exists|i: int|
                    0 <= i < n && is_followed(i) && children_below(#[trigger] cells[i]).contains(
                        child,
                    )
            &&& leaves.len() == how_many(n, is_leaf)
            &&& pruned == how_many(n, |i: int| !is_leaf(i) && !is_followed(i))
        }),
    decreases n,
{
    let sees = |i: int|
        boxes[i] is Some && exists|row: int, col: int|
            boxes[i]->0.row_min <= row <= boxes[i]->0.row_max && boxes[i]->0.col_min <= col
                <= boxes[i]->0.col_max && #[trigger] pixel(heights, width, row, col) != nodata;
    let is_leaf = |i: int| spec_resolution(cells[i]) >= target && boxes[i] is Some;
    let is_followed = |i: int| spec_resolution(cells[i]) < target && sees(i);
    if n > 0 {
        let m = (n - 1) as nat;
        law_frontier_places_every_cell(heights, width, nodata, target, cells, boxes, m);
        let before = frontier_after(heights, width, nodata, target, cells, boxes, m);
        let after = frontier_after(heights, width, nodata, target, cells, boxes, n);
        let fate = fate_of(heights, width, nodata, target, cells[n - 1], boxes[n - 1]);
        if let Some(b) = boxes[n - 1] {
            assert(box_sees(heights, width, b, nodata) == sees(n - 1)) by {
                if box_sees(heights, width, b, nodata) {
                    let (row, col) = choose|row: int, col: int|
                        b.holds(row, col) && #[trigger] pixel(heights, width, row, col) != nodata;
                    assert(pixel(heights, width, row, col) != nodata);
                }
                if sees(n - 1) {
                    let (row, col) = choose|row: int, col: int|
                        b.row_min <= row <= b.row_max && b.col_min <= col <= b.col_max
                            && #[trigger] pixel(heights, width, row, col) != nodata;
                    assert(b.holds(row, col) && pixel(heights, width, row, col) != nodata);
                }
            }
        }
        assert(fate is Leaf <==> is_leaf(n - 1));
        assert(fate is Descend <==> is_followed(n - 1));
        let below = children_below(cells[n - 1]);
        assert forall|cell: u64| #[trigger] after.1.contains(cell) <==> exists|i: int|
            0 <= i < n && #[trigger] cells[i] == cell && is_leaf(i) by {
            if fate is Leaf {
                vstd::seq_lib::lemma_seq_contains_after_push(before.1, cells[n - 1], cell);
            }
            if before.1.contains(cell) {
                let i = choose|i: int| 0 <= i < m && #[trigger] cells[i] == cell && is_leaf(i);
                assert(cells[i] == cell);
            }
        }
        assert forall|child: u64| #[trigger] after.0.contains(child) <==> exists|i: int|
            0 <= i < n && is_followed(i) && children_below(#[trigger] cells[i]).contains(
                child,
            ) by {
            if fate is Descend {
                vstd::seq_lib::lemma_seq_concat_contains_all_elements(before.0, below, child);
            }
            if before.0.contains(child) {
                let i = choose|i: int|
                    0 <= i < m && is_followed(i) && children_below(#[trigger] cells[i]).contains(
                        child,
                    );
                assert(children_below(cells[i]).contains(child));
            }
        }
    }
}

/// A disk of `k` rings has six more cells in each ring than in the last.
pub proof fn law_disk_grows_by_its_rings(k: int)
    requires
        k >= 0,
    ensures
        disk_size(0) == 1,
        disk_size(k + 1) == disk_size(k) + 6 * (k + 1),
{
    assert(3 * (k + 1) * (k + 1 + 1) + 1 == 3 * k * (k + 1) + 1 + 6 * (k + 1)) by (nonlinear_arith);
}

/// The last word of a text that begins with a key gives the key's value, whatever
/// stands before it.
pub proof fn law_last_word_gives_the_value(
    before: Seq<char>,
    key: Seq<char>,
    value: Seq<char>,
    found: Option<Seq<char>>,
)
    requires
        key.len() > 0,
        forall|i: int| 0 <= i < key.len() ==> !spec_is_blank(#[trigger] key[i]),
        forall|i: int| 0 <= i < value.len() ==> !spec_is_blank(#[trigger] value[i]),
        is_last_value(before + seq![' '] + key + value, key, found),
    ensures
        found == Some(value),
{
    let text = before + seq![' '] + key + value;
    let start = before.len() as int + 1;
    let end = text.len() as int;
    assert(text[start - 1] == ' ');
    assert forall|i: int| start <= i < end implies !spec_is_blank(#[trigger] text[i]) by {
        if i < start + key.len() {
            assert(text[i] == key[i - start]);
        } else {
            assert(text[i] == value[i - start - key.len()]);
        }
    }
    assert(is_word(text, start, end));
    assert(text.subrange(start, start + key.len()) =~= key);
    assert(word_has_key(text, start, end, key));
    assert(found is Some);
    let (a, b) = choose|a: int, b: int|
        {
            &&& #[trigger] is_word(text, a, b)
            &&& word_has_key(text, a, b, key)
            &&& text.subrange(a + key.len(), b) == found->0
            &&& forall|c: int, d: int| #[trigger]
                is_word(text, c, d) && a < c ==> !word_has_key(text, c, d, key)
        };
    assert(a >= start);
    if a > start {
        assert(!spec_is_blank(text[a - 1]));
    }
    if b < end {
        assert(!spec_is_blank(text[b]));
    }
    assert(text.subrange(start + key.len(), end) =~= value);
}

/// A text in which no word begins with a key has no value for it.
pub proof fn law_missing_key_has_no_value(
    text: Seq<char>,
    key: Seq<char>,
    found: Option<Seq<char>>,
)
    requires
        is_last_value(text, key, found),
        forall|i: int|
            0 <= i <= text.len() - key.len() ==> #[trigger] text.subrange(i, i + key.len()) != key,
    ensures
        found is None,
{
    if found is Some {
        let (a, b) = choose|a: int, b: int|
            {
                &&& #[trigger] is_word(text, a, b)
                &&& word_has_key(text, a, b, key)
                &&& text.subrange(a + key.len(), b) == found->0
                &&& forall|c: int, d: int| #[trigger]
                    is_word(text, c, d) && a < c ==> !word_has_key(text, c, d, key)
            };
        assert(text.subrange(a, a + key.len()) == key);
    }
}

} // verus!
