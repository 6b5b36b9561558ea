//! Map tiles: levels of detail, rendering and the texts of the tile service.
use crate::api::{id_text, public_error, says, spec_id_text, ApiError};
use crate::bytes::u16_at;
use crate::digest::{blake3_digest, digest};
use crate::storage::NO_DATA;
use crate::text::{chars_of, decimal, hex, hex_text, law_hex_is_read_back, number_of, parse_number, push_decimal,
    same_text, strip_prefix, strip_suffix, without_prefix, without_suffix};
use vstd::arithmetic::power2::{lemma2_to64, lemma_pow2_adds, lemma_pow2_pos,
    lemma_pow2_strictly_increases, lemma_pow2_unfold, pow2};
use vstd::prelude::*;
use vstd::string::*;

verus! {

/// The pixels along one side of a tile.
pub const TILE_SIZE: usize = 256;

/// The pixels of a tile.
pub const TILE_PIXELS: usize = 65536;

#[derive(Clone, Copy, Debug, PartialEq, Eq, Structural)]
pub enum LayerKind {
    Boolean,
    Count,
    MinimumHeight,
}

/// `best` is the known value that a layer keeps of some values: the largest, or
/// for minimum heights the smallest.
pub open spec fn is_reduced(values: Seq<Option<u16>>, kind: LayerKind, best: Option<u16>) -> bool {
    match best {
        None => forall|i: int| 0 <= i < values.len() ==> #[trigger] values[i] is None,
        Some(b) => {
            &&& values.contains(Some(b))
            &&& forall|i: int|
                0 <= i < values.len() ==> (#[trigger] values[i] matches Some(v) ==> if kind
                    == LayerKind::MinimumHeight {
                    b <= v
                } else {
                    v <= b
                })
        },
    }
}

/// Reduces four samples to the one of the next coarser level.
pub fn reduce_2x2(values: [Option<u16>; 4], kind: LayerKind) -> (best: Option<u16>)
    ensures
        is_reduced(values@, kind, best),
{
    let mut best: Option<u16> = None;
    let mut i: usize = 0;
    assert(values@.take(0) =~= Seq::<Option<u16>>::empty());
    while i < 4
        invariant
            i <= 4,
            is_reduced(values@.take(i as int), kind, best),
        decreases 4 - i,
    {
        let ghost before = values@.take(i as int);
        let ghost after = values@.take(i + 1);
        assert(after =~= before.push(values@[i as int]));
        let ghost previous = best;
        match values[i] {
            Some(v) => {
                best = match best {
                    None => Some(v),
                    Some(b) => {
                        let better = match kind {
                            LayerKind::MinimumHeight => v < b,
                            _ => v > b,
                        };
                        if better {
                            Some(v)
                        } else {
                            Some(b)
                        }
                    },
                };
            },
            None => {},
        }
        proof {
            assert(after[i as int] == values@[i as int]);
            assert(forall|j: int| 0 <= j < i ==> after[j] == before[j]);
            match best {
                Some(b) => {
                    if previous == Some(b) {
                        let w = choose|w: int| 0 <= w < before.len() && before[w] == Some(b);
                        assert(after[w] == Some(b));
                    } else {
                        assert(after[i as int] == Some(b));
                    }
                },
                None => {},
            }
        }
        i += 1;
    }
    assert(values@.take(4) =~= values@);
    best
}

#[verifier::external_type_specification]
#[verifier::external_body]
pub struct ExImageError(image::ImageError);

/// The PNG file of a grey image of some width and height, if it can be written.
pub uninterp spec fn png_file(pixels: Seq<u8>, width: u32, height: u32) -> Option<Seq<u8>>;

/// The first bytes of every PNG file.
pub open spec fn png_signature() -> Seq<u8> {
    seq![137u8, 80u8, 78u8, 71u8, 13u8, 10u8, 26u8, 10u8]
}

/// `image::GrayImage::from_raw` and `write_to` with `ImageFormat::Png`, row by row.
/// The buffer has to hold every pixel, of which there are some; a file starts with
/// the PNG signature.
#[verifier::external_body]
fn encode_png(pixels: &[u8], width: u32, height: u32) -> (file: Result<
    Vec<u8>,
    image::ImageError,
>)
    requires
        0 < width * height <= pixels@.len(),
    ensures
        file is Ok <==> png_file(pixels@, width, height) is Some,
        file matches Ok(bytes) ==> png_file(pixels@, width, height) == Some(bytes@)
            && bytes@.len() >= 8 && bytes@.take(8) == png_signature(),
{
    let mut out = std::io::Cursor::new(Vec::new());
    let image = image::GrayImage::from_raw(width, height, pixels.to_vec()).expect("pixels");
    image.write_to(&mut out, image::ImageFormat::Png)?;
    Ok(out.into_inner())
}

/// A tile that could not be written.
#[derive(Clone, Copy, Debug, PartialEq, Eq, Structural)]
pub struct TileError;

/// The PNG file of a grey tile.
pub fn grayscale_png(values: &[u8]) -> (file: Result<Vec<u8>, TileError>)
    requires
        values@.len() >= TILE_PIXELS,
    ensures
        file is Ok <==> png_file(values@, 256, 256) is Some,
        file matches Ok(bytes) ==> png_file(values@, 256, 256) == Some(bytes@) && bytes@.len() >= 8
            && bytes@.take(8) == png_signature(),
{
    match encode_png(values, TILE_SIZE as u32, TILE_SIZE as u32) {
        Ok(bytes) => Ok(bytes),
        Err(_) => Err(TileError),
    }
}

/// The entity tag of some bytes: their hash between quotation marks.
pub open spec fn spec_etag(bytes: Seq<u8>) -> Seq<char> {
    seq!['"'] + hex(blake3_digest(bytes)) + seq!['"']
}

pub fn etag(bytes: &[u8]) -> (tag: String)
    ensures
        tag@ == spec_etag(bytes@),
{
    let hash = digest(bytes);
    let text = hex_text(hash.as_slice());
    let mut tag = String::new();
    tag.push('"');
    tag.append(text.as_str());
    tag.push('"');
    assert(tag@ =~= spec_etag(bytes@));
    tag
}

/// The status of a tile: a client that has the same tile needs no body.
pub fn tile_status(tag: &str, if_none_match: Option<&str>) -> (status: u16)
    ensures
        status == (if if_none_match matches Some(known) && known@ == tag@ {
            304
        } else {
            200u16
        }),
{
    match if_none_match {
        Some(known) => if same_text(known, tag) {
            304
        } else {
            200
        },
        None => 200,
    }
}

/// How long clients may keep what a dataset serves, which never changes.
pub open spec fn spec_cache_control() -> Seq<char> {
    "public, max-age=31536000, immutable"@
}

pub fn cache_control() -> (text: &'static str)
    ensures
        text@ == spec_cache_control(),
{
    "public, max-age=31536000, immutable"
}

/// What a request for a tile is answered.
#[derive(Debug)]
pub struct TileAnswer {
    pub status: u16,
    pub content_type: &'static str,
    pub cache_control: &'static str,
    pub tag: String,
    pub body: Vec<u8>,
}

/// The answer for a tile: the tile itself, or nothing for a client that has it
/// already; its tag and how long it may be kept either way.
pub open spec fn answers_tile(
    answer: TileAnswer,
    tile: Seq<u8>,
    if_none_match: Option<Seq<char>>,
) -> bool {
    let known = if_none_match == Some(spec_etag(tile));
    &&& answer.status == (if known {
        304u16
    } else {
        200
    })
    &&& answer.content_type@ == "image/png"@
    &&& answer.cache_control@ == spec_cache_control()
    &&& answer.tag@ == spec_etag(tile)
    &&& answer.body@ == (if known {
        Seq::<u8>::empty()
    } else {
        tile
    })
}

/// Answers a request for a tile.
pub fn tile_answer(tile: Vec<u8>, if_none_match: Option<&str>) -> (answer: TileAnswer)
    ensures
        answers_tile(
            answer,
            tile@,
            match if_none_match {
                Some(known) => Some(known@),
                None => None,
            },
        ),
{
    let tag = etag(tile.as_slice());
    let status: u16 = tile_status(tag.as_str(), if_none_match);
    let body = if status == 304 {
        Vec::new()
    } else {
        tile
    };
    TileAnswer { status, content_type: "image/png", cache_control: cache_control(), tag, body }
}

/// A client that asks again for a tile, with the tag of the answer it has got, is
/// told that it has not changed: no body, the same tag, and the same text on how
/// long it may be kept.
pub proof fn law_tiles_are_revalidated(
    tile: Seq<u8>,
    asked: Option<Seq<char>>,
    first: TileAnswer,
    second: TileAnswer,
)
    requires
        answers_tile(first, tile, asked),
        answers_tile(second, tile, Some(first.tag@)),
    ensures
        second.status == 304,
        second.body@.len() == 0,
        second.tag@ == first.tag@,
        second.cache_control@ == "public, max-age=31536000, immutable"@,
        first.status == 200 ==> first.body@ == tile,
{
}

/// `levels` is the number of levels of detail: the coarsest one shows the longer
/// side in one tile, and the next finer one does not.
pub open spec fn is_levels(size: int, levels: int) -> bool {
    &&& levels >= 1
    &&& size <= 256 * pow2((levels - 1) as nat)
    &&& levels > 1 ==> size > 256 * pow2((levels - 2) as nat)
}

pub open spec fn longer(width: int, height: int) -> int {
    if width < height {
        height
    } else {
        width
    }
}

pub fn tile_levels(width: usize, height: usize) -> (levels: u8)
    ensures
        is_levels(longer(width as int, height as int), levels as int),
        levels <= 57,
{
    let size: usize = if width < height {
        height
    } else {
        width
    };
    let mut levels: u8 = 1;
    let mut reach: u128 = 256;
    proof {
        lemma2_to64();
    }
    while reach < size as u128
        invariant
            1 <= levels <= 57,
            reach == 256 * pow2((levels - 1) as nat),
            levels > 1 ==> size > 256 * pow2((levels - 2) as nat),
        decreases 57 - levels,
    {
        proof {
            lemma2_to64();
            lemma_pow2_adds(8, 56);
            if levels == 57 {
                assert(false);
            }
            lemma_pow2_unfold(levels as nat);
            if levels < 56 {
                lemma_pow2_strictly_increases(levels as nat, 56);
            }
        }
        reach = reach * 2;
        levels += 1;
    }
    levels
}

/// The number of levels is determined by the size.
pub proof fn law_levels_are_unique(size: int, a: int, b: int)
    requires
        is_levels(size, a),
        is_levels(size, b),
    ensures
        a == b,
{
    if a < b {
        if a - 1 < b - 2 {
            lemma_pow2_strictly_increases((a - 1) as nat, (b - 2) as nat);
        }
    } else if b < a {
        if b - 1 < a - 2 {
            lemma_pow2_strictly_increases((b - 1) as nat, (a - 2) as nat);
        }
    }
}

/// Where a tile lies in its source raster.
#[derive(Clone, Copy, Debug, PartialEq, Eq, Structural)]
pub struct TilePlan {
    /// The source cells along one side of a pixel.
    pub factor: usize,
    pub source_x: usize,
    pub source_y: usize,
    pub source_width: usize,
    pub source_height: usize,
}

pub open spec fn ceil_div(n: int, d: int) -> int {
    (n + d - 1) / d
}

/// The tiles along one side of a level.
pub open spec fn matrix_size(size: int, factor: int) -> int {
    ceil_div(size, 256 * factor)
}

pub open spec fn lesser(a: int, b: int) -> int {
    if b < a {
        b
    } else {
        a
    }
}

impl TilePlan {
    /// The plan of tile `(row, col)` with a factor.
    pub open spec fn is_for(
        &self,
        width: int,
        height: int,
        factor: int,
        row: int,
        col: int,
    ) -> bool {
        &&& self.factor == factor
        &&& self.source_x == col * 256 * factor
        &&& self.source_y == row * 256 * factor
        &&& self.source_x < width
        &&& self.source_y < height
        &&& self.source_width == lesser(256 * factor, width - self.source_x)
        &&& self.source_height == lesser(256 * factor, height - self.source_y)
    }

    pub open spec fn wf(&self) -> bool {
        &&& self.factor > 0
        &&& 0 < self.source_width <= 256 * self.factor
        &&& 0 < self.source_height <= 256 * self.factor
        &&& self.source_x + self.source_width <= usize::MAX
        &&& self.source_y + self.source_height <= usize::MAX
    }
}

/// The refusal of a tile request, if there is one.
pub open spec fn tile_refusal(
    width: int,
    height: int,
    levels: int,
    z: int,
    row: int,
    col: int,
) -> Option<(u16, Seq<char>)> {
    let factor = pow2((levels - 1 - z) as nat) as int;
    if width == 0 || height == 0 {
        Some((204, "empty dataset"@))
    } else if z >= levels {
        Some((400, "tile matrix"@))
    } else if col >= matrix_size(width, factor) || row >= matrix_size(height, factor) {
        Some((404, "tile outside matrix"@))
    } else {
        None
    }
}

/// Finds the source cells of a tile.
pub fn locate_tile(width: usize, height: usize, z: u8, row: u32, col: u32) -> (plan: Result<
    TilePlan,
    ApiError,
>)
    ensures
        forall|levels: int| #[trigger]
            is_levels(longer(width as int, height as int), levels) ==> match plan {
                Ok(p) => tile_refusal(
                    width as int,
                    height as int,
                    levels,
                    z as int,
                    row as int,
                    col as int,
                ) is None && p.is_for(
                    width as int,
                    height as int,
                    pow2((levels - 1 - z) as nat) as int,
                    row as int,
                    col as int,
                ),
                Err(e) => tile_refusal(
                    width as int,
                    height as int,
                    levels,
                    z as int,
                    row as int,
                    col as int,
                ) == Some((e.status, e.message@)),
            },
        plan matches Ok(p) ==> p.wf(),
{
    let levels: u8 = tile_levels(width, height);
    proof {
        assert forall|other: int| #[trigger]
            is_levels(longer(width as int, height as int), other) implies other == levels by {
            law_levels_are_unique(longer(width as int, height as int), other, levels as int);
        }
    }
    if width == 0 || height == 0 {
        return Err(public_error(204, "empty dataset"));
    }
    if z >= levels {
        return Err(public_error(400, "tile matrix"));
    }
    let factor: usize = level_factor(levels - 1 - z, width, height);
    let span: u128 = 256 * (factor as u128);
    proof {
        assert(col as int * span <= 0xffff_ffff * (256 * 0xffff_ffff_ffff_ffff)) by (nonlinear_arith)
            requires
                0 <= col <= 0xffff_ffff,
                0 <= span <= 256 * 0xffff_ffff_ffff_ffff,
        ;
        assert(row as int * span <= 0xffff_ffff * (256 * 0xffff_ffff_ffff_ffff)) by (nonlinear_arith)
            requires
                0 <= row <= 0xffff_ffff,
                0 <= span <= 256 * 0xffff_ffff_ffff_ffff,
        ;
    }
    let x: u128 = col as u128 * span;
    let y: u128 = row as u128 * span;
    proof {
        lemma_inside_matrix(width as int, factor as int, col as int);
        lemma_inside_matrix(height as int, factor as int, row as int);
        assert(col * (256 * factor) == col * 256 * factor) by (nonlinear_arith);
        assert(row * (256 * factor) == row * 256 * factor) by (nonlinear_arith);
    }
    if x >= width as u128 || y >= height as u128 {
        return Err(public_error(404, "tile outside matrix"));
    }
    let right: u128 = width as u128 - x;
    let below: u128 = height as u128 - y;
    Ok(
        TilePlan {
            factor,
            source_x: x as usize,
            source_y: y as usize,
            source_width: if right < span {
                right as usize
            } else {
                span as usize
            },
            source_height: if below < span {
                below as usize
            } else {
                span as usize
            },
        },
    )
}

/// A tile lies inside its matrix when its first cell lies inside the raster.
proof fn lemma_inside_matrix(size: int, factor: int, at: int)
    requires
        size > 0,
        factor > 0,
        at >= 0,
    ensures
        at < matrix_size(size, factor) <==> at * (256 * factor) < size,
{
    let d = 256 * factor;
    assert(at < (size + d - 1) / d <==> at * d < size) by (nonlinear_arith)
        requires
            size > 0,
            d > 0,
            at >= 0,
    ;
}

/// Two to the power of a level's distance from the finest one.
fn level_factor(steps: u8, width: usize, height: usize) -> (factor: usize)
    requires
        steps <= 56,
        exists|levels: int| #[trigger]
            is_levels(longer(width as int, height as int), levels) && steps < levels,
    ensures
        factor == pow2(steps as nat),
        factor > 0,
{
    let mut factor: usize = 1;
    let mut i: u8 = 0;
    proof {
        lemma2_to64();
    }
    let ghost size = longer(width as int, height as int);
    let ghost levels = choose|levels: int| #[trigger] is_levels(size, levels) && steps < levels;
    while i < steps
        invariant
            i <= steps <= 56,
            factor == pow2(i as nat),
            size <= usize::MAX,
            is_levels(size, levels),
            steps < levels,
        decreases steps - i,
    {
        proof {
            lemma_pow2_unfold((i + 1) as nat);
            // a level above this one is not reached: 256 * 2^(levels - 2) < size
            if i + 1 < levels - 1 {
                lemma_pow2_strictly_increases((i + 1) as nat, (levels - 1) as nat);
            }
            lemma_pow2_unfold((levels - 1) as nat);
        }
        factor = factor * 2;
        i += 1;
    }
    proof {
        lemma_pow2_pos(steps as nat);
    }
    factor
}

/// The cell `x` of line `k` belongs to pixel `(ty, tx)`.
pub open spec fn in_pixel(factor: int, k: int, x: int, ty: int, tx: int) -> bool {
    k / factor == ty && x / factor == tx
}

/// `value` is the largest of a pixel's cells; zero where it has none.
pub open spec fn is_peak(lines: Seq<Seq<u8>>, factor: int, ty: int, tx: int, value: u8) -> bool {
    &&& forall|k: int, x: int|
        0 <= k < lines.len() && 0 <= x < lines[k].len() && in_pixel(factor, k, x, ty, tx)
            ==> #[trigger] lines[k][x] <= value
    &&& value == 0 || exists|k: int, x: int|
        0 <= k < lines.len() && 0 <= x < lines[k].len() && in_pixel(factor, k, x, ty, tx)
            && #[trigger] lines[k][x] == value
}

/// A tile of a boolean or count layer that is filled line by line.
pub struct CountTile {
    plan: TilePlan,
    done: usize,
    output: Vec<u8>,
    lines: Ghost<Seq<Seq<u8>>>,
}

impl CountTile {
    pub closed spec fn spec_plan(&self) -> TilePlan {
        self.plan
    }

    /// The source lines so far.
    pub closed spec fn lines(&self) -> Seq<Seq<u8>> {
        self.lines@
    }

    pub closed spec fn wf(&self) -> bool {
        &&& self.plan.wf()
        &&& self.done == self.lines@.len()
        &&& self.done <= self.plan.source_height
        &&& self.output@.len() == TILE_PIXELS
        &&& forall|k: int|
            0 <= k < self.lines@.len() ==> (#[trigger] self.lines@[k]).len()
                == self.plan.source_width
        &&& forall|p: int|
            0 <= p < TILE_PIXELS ==> is_peak(
                self.lines@,
                self.plan.factor as int,
                p / 256,
                p % 256,
                #[trigger] self.output@[p],
            )
    }

    pub fn new(plan: TilePlan) -> (tile: Self)
        requires
            plan.wf(),
        ensures
            tile.wf(),
            tile.spec_plan() == plan,
            tile.lines() == Seq::<Seq<u8>>::empty(),
    {
        CountTile { plan, done: 0, output: vec![0u8; TILE_PIXELS], lines: Ghost(Seq::empty()) }
    }

    /// The next source row and how many of its cells are needed, if any are.
    pub fn next_line(&self) -> (line: Option<usize>)
        requires
            self.wf(),
        ensures
            line is Some <==> self.lines().len() < self.spec_plan().source_height,
            line matches Some(n) ==> n == self.spec_plan().source_y + self.lines().len(),
    {
        if self.done < self.plan.source_height {
            Some(self.plan.source_y + self.done)
        } else {
            None
        }
    }

    /// Takes in the next source line.
    pub fn absorb(&mut self, line: &[u8])
        requires
            old(self).wf(),
            old(self).lines().len() < old(self).spec_plan().source_height,
            line@.len() == old(self).spec_plan().source_width,
        ensures
            final(self).wf(),
            final(self).spec_plan() == old(self).spec_plan(),
            final(self).lines() == old(self).lines().push(line@),
    {
        let factor: usize = self.plan.factor;
        let k: usize = self.done;
        let ty: usize = k / factor;
        proof {
            lemma_small_quotient(k as int, factor as int);
        }
        let ghost before = self.lines@;
        let ghost old_output = self.output@;
        let mut x: usize = 0;
        while x < line.len()
            invariant
                x <= line@.len(),
                factor == self.plan.factor,
                factor > 0,
                line@.len() <= 256 * factor,
                ty < 256,
                self.output@.len() == TILE_PIXELS,
                old_output.len() == TILE_PIXELS,
                self.plan == old(self).plan,
                self.done == old(self).done,
                self.lines == old(self).lines,
                forall|p: int|
                    0 <= p < TILE_PIXELS ==> old_output[p] <= #[trigger] self.output@[p],
                forall|p: int, c: int|
                    0 <= p < TILE_PIXELS && 0 <= c < x && p / 256 == ty && p % 256 == c
                        / factor as int ==> #[trigger] line@[c] <= #[trigger] self.output@[p],
                forall|p: int|
                    0 <= p < TILE_PIXELS ==> (#[trigger] self.output@[p]) == old_output[p]
                        || exists|c: int|
                        0 <= c < x && p / 256 == ty && p % 256 == c / factor as int
                            && #[trigger] line@[c] == self.output@[p],
            decreases line@.len() - x,
        {
            let tx: usize = x / factor;
            proof {
                lemma_small_quotient(x as int, factor as int);
            }
            let at: usize = ty * 256 + tx;
            let ghost middle = self.output@;
            if line[x] > self.output[at] {
                self.output[at] = line[x];
            }
            proof {
                assert forall|p: int| 0 <= p < TILE_PIXELS implies (#[trigger] self.output@[p])
                    == old_output[p] || exists|c: int|
                    0 <= c < x + 1 && p / 256 == ty && p % 256 == c / factor as int
                        && #[trigger] line@[c] == self.output@[p] by {
                    if p == at && self.output@[p] != middle[p] {
                        assert(line@[x as int] == self.output@[p]);
                    } else if middle[p] != old_output[p] {
                        let c = choose|c: int|
                            0 <= c < x && p / 256 == ty && p % 256 == c / factor as int
                                && #[trigger] line@[c] == middle[p];
                        assert(line@[c] == self.output@[p]);
                    }
                }
            }
            x += 1;
        }
        self.done = self.done + 1;
        self.lines = Ghost(before.push(line@));
        proof {
            let after = self.lines@;
            assert(forall|j: int| 0 <= j < before.len() ==> after[j] == before[j]);
            assert(after[k as int] == line@);
            assert forall|p: int| 0 <= p < TILE_PIXELS implies is_peak(
                after,
                factor as int,
                p / 256,
                p % 256,
                #[trigger] self.output@[p],
            ) by {
                assert(is_peak(before, factor as int, p / 256, p % 256, old_output[p]));
                assert forall|j: int, c: int|
                    0 <= j < after.len() && 0 <= c < after[j].len() && in_pixel(
                        factor as int,
                        j,
                        c,
                        p / 256,
                        p % 256,
                    ) implies #[trigger] after[j][c] <= self.output@[p] by {
                    if j < before.len() {
                        assert(before[j][c] <= old_output[p]);
                    } else {
                        assert(line@[c] <= self.output@[p]);
                    }
                }
                if self.output@[p] != 0 {
                    if self.output@[p] == old_output[p] {
                        let (j, c) = choose|j: int, c: int|
                            0 <= j < before.len() && 0 <= c < before[j].len() && in_pixel(
                                factor as int,
                                j,
                                c,
                                p / 256,
                                p % 256,
                            ) && #[trigger] before[j][c] == old_output[p];
                        assert(after[j][c] == self.output@[p]);
                    } else {
                        let c = choose|c: int|
                            0 <= c < line@.len() && p / 256 == ty && p % 256 == c / factor as int
                                && #[trigger] line@[c] == self.output@[p];
                        assert(after[k as int][c] == self.output@[p]);
                    }
                }
            }
        }
    }

    /// The pixels of the tile.
    pub fn finish(self) -> (pixels: Vec<u8>)
        requires
            self.wf(),
        ensures
            pixels@.len() == TILE_PIXELS,
            forall|p: int|
                0 <= p < TILE_PIXELS ==> is_peak(
                    self.lines(),
                    self.spec_plan().factor as int,
                    p / 256,
                    p % 256,
                    #[trigger] pixels@[p],
                ),
    {
        self.output
    }
}

proof fn lemma_small_quotient(n: int, factor: int)
    requires
        factor > 0,
        0 <= n < 256 * factor,
    ensures
        0 <= n / factor < 256,
{
    assert(0 <= n / factor < 256) by (nonlinear_arith)
        requires
            factor > 0,
            0 <= n < 256 * factor,
    ;
}

/// `value` is the lowest known height of a pixel's cells; [`NO_DATA`] where none
/// is known.
pub open spec fn is_pit(lines: Seq<Seq<u8>>, factor: int, ty: int, tx: int, value: u16) -> bool {
    &&& forall|k: int, x: int|
        0 <= k < lines.len() && 0 <= x < lines[k].len() / 2 && in_pixel(factor, k, x, ty, tx)
            ==> value <= #[trigger] u16_at(lines[k], x)
    &&& value == NO_DATA || exists|k: int, x: int|
        0 <= k < lines.len() && 0 <= x < lines[k].len() / 2 && in_pixel(factor, k, x, ty, tx)
            && #[trigger] u16_at(lines[k], x) == value
}

/// The grey of a height: the full range of heights is spread over 256 greys, and
/// an unknown height is black.
pub open spec fn grey_of(value: u16) -> u8 {
    if value == NO_DATA {
        0
    } else {
        (value / 257) as u8
    }
}

/// `grey` is that of the lowest known height of a pixel's cells.
pub open spec fn is_grey(lines: Seq<Seq<u8>>, factor: int, ty: int, tx: int, grey: u8) -> bool {
    exists|value: u16| #[trigger] is_pit(lines, factor, ty, tx, value) && grey == grey_of(value)
}

/// A tile of the minimum height layer that is filled line by line.
pub struct MinimumTile {
    plan: TilePlan,
    done: usize,
    minimum: Vec<u16>,
    lines: Ghost<Seq<Seq<u8>>>,
}

impl MinimumTile {
    pub closed spec fn spec_plan(&self) -> TilePlan {
        self.plan
    }

    /// The source lines so far, as bytes.
    pub closed spec fn lines(&self) -> Seq<Seq<u8>> {
        self.lines@
    }

    pub closed spec fn wf(&self) -> bool {
        &&& self.plan.wf()
        &&& 2 * self.plan.source_width <= usize::MAX
        &&& self.done == self.lines@.len()
        &&& self.done <= self.plan.source_height
        &&& self.minimum@.len() == TILE_PIXELS
        &&& forall|k: int|
            0 <= k < self.lines@.len() ==> (#[trigger] self.lines@[k]).len() == 2
                * self.plan.source_width
        &&& forall|p: int|
            0 <= p < TILE_PIXELS ==> is_pit(
                self.lines@,
                self.plan.factor as int,
                p / 256,
                p % 256,
                #[trigger] self.minimum@[p],
            )
    }

    pub fn new(plan: TilePlan) -> (tile: Self)
        requires
            plan.wf(),
            2 * plan.source_width <= usize::MAX,
        ensures
            tile.wf(),
            tile.spec_plan() == plan,
            tile.lines() == Seq::<Seq<u8>>::empty(),
    {
        MinimumTile {
            plan,
            done: 0,
            minimum: vec![NO_DATA; TILE_PIXELS],
            lines: Ghost(Seq::empty()),
        }
    }

    /// The next source row, if one is needed.
    pub fn next_line(&self) -> (line: Option<usize>)
        requires
            self.wf(),
        ensures
            line is Some <==> self.lines().len() < self.spec_plan().source_height,
            line matches Some(n) ==> n == self.spec_plan().source_y + self.lines().len(),
    {
        if self.done < self.plan.source_height {
            Some(self.plan.source_y + self.done)
        } else {
            None
        }
    }

    /// Takes in the next source line, two bytes per cell.
    pub fn absorb(&mut self, line: &[u8])
        requires
            old(self).wf(),
            old(self).lines().len() < old(self).spec_plan().source_height,
            line@.len() == 2 * old(self).spec_plan().source_width,
        ensures
            final(self).wf(),
            final(self).spec_plan() == old(self).spec_plan(),
            final(self).lines() == old(self).lines().push(line@),
    {
        let factor: usize = self.plan.factor;
        let k: usize = self.done;
        let ty: usize = k / factor;
        proof {
            lemma_small_quotient(k as int, factor as int);
        }
        let cells: usize = self.plan.source_width;
        let ghost before = self.lines@;
        let ghost old_minimum = self.minimum@;
        let mut x: usize = 0;
        while x < cells
            invariant
                x <= cells,
                cells == self.plan.source_width,
                line@.len() == 2 * cells,
                2 * cells <= usize::MAX,
                factor == self.plan.factor,
                factor > 0,
                cells <= 256 * factor,
                ty < 256,
                self.minimum@.len() == TILE_PIXELS,
                old_minimum.len() == TILE_PIXELS,
                self.plan == old(self).plan,
                self.done == old(self).done,
                self.lines == old(self).lines,
                forall|p: int|
                    0 <= p < TILE_PIXELS ==> #[trigger] self.minimum@[p] <= old_minimum[p],
                forall|p: int, c: int|
                    0 <= p < TILE_PIXELS && 0 <= c < x && p / 256 == ty && p % 256 == c
                        / factor as int ==> #[trigger] self.minimum@[p] <= #[trigger] u16_at(
                        line@,
                        c,
                    ),
                forall|p: int|
                    0 <= p < TILE_PIXELS ==> (#[trigger] self.minimum@[p]) == old_minimum[p]
                        || exists|c: int|
                        0 <= c < x && p / 256 == ty && p % 256 == c / factor as int
                            && #[trigger] u16_at(line@, c) == self.minimum@[p],
            decreases cells - x,
        {
            let tx: usize = x / factor;
            proof {
                lemma_small_quotient(x as int, factor as int);
            }
            let at: usize = ty * 256 + tx;
            let ghost middle = self.minimum@;
            let value: u16 = line[2 * x] as u16 + 256 * (line[2 * x + 1] as u16);
            assert(value == u16_at(line@, x as int));
            if value != NO_DATA && value < self.minimum[at] {
                self.minimum[at] = value;
            }
            proof {
                assert forall|p: int| 0 <= p < TILE_PIXELS implies (#[trigger] self.minimum@[p])
                    == old_minimum[p] || exists|c: int|
                    0 <= c < x + 1 && p / 256 == ty && p % 256 == c / factor as int
                        && #[trigger] u16_at(line@, c) == self.minimum@[p] by {
                    if p == at && self.minimum@[p] != middle[p] {
                        assert(u16_at(line@, x as int) == self.minimum@[p]);
                    } else if middle[p] != old_minimum[p] {
                        let c = choose|c: int|
                            0 <= c < x && p / 256 == ty && p % 256 == c / factor as int
                                && #[trigger] u16_at(line@, c) == middle[p];
                        assert(u16_at(line@, c) == self.minimum@[p]);
                    }
                }
            }
            x += 1;
        }
        self.done = self.done + 1;
        self.lines = Ghost(before.push(line@));
        proof {
            let after = self.lines@;
            assert(forall|j: int| 0 <= j < before.len() ==> after[j] == before[j]);
            assert(after[k as int] == line@);
            assert forall|p: int| 0 <= p < TILE_PIXELS implies is_pit(
                after,
                factor as int,
                p / 256,
                p % 256,
                #[trigger] self.minimum@[p],
            ) by {
                assert(is_pit(before, factor as int, p / 256, p % 256, old_minimum[p]));
                assert forall|j: int, c: int|
                    0 <= j < after.len() && 0 <= c < after[j].len() / 2 && in_pixel(
                        factor as int,
                        j,
                        c,
                        p / 256,
                        p % 256,
                    ) implies self.minimum@[p] <= #[trigger] u16_at(after[j], c) by {
                    if j < before.len() {
                        assert(old_minimum[p] <= u16_at(before[j], c));
                    } else {
                        assert(self.minimum@[p] <= u16_at(line@, c));
                    }
                }
                if self.minimum@[p] != NO_DATA {
                    if self.minimum@[p] == old_minimum[p] {
                        let (j, c) = choose|j: int, c: int|
                            0 <= j < before.len() && 0 <= c < before[j].len() / 2 && in_pixel(
                                factor as int,
                                j,
                                c,
                                p / 256,
                                p % 256,
                            ) && #[trigger] u16_at(before[j], c) == old_minimum[p];
                        assert(u16_at(after[j], c) == self.minimum@[p]);
                    } else {
                        let c = choose|c: int|
                            0 <= c < cells && p / 256 == ty && p % 256 == c / factor as int
                                && #[trigger] u16_at(line@, c) == self.minimum@[p];
                        assert(u16_at(after[k as int], c) == self.minimum@[p]);
                    }
                }
            }
        }
    }

    /// The pixels of the tile.
    pub fn finish(self) -> (pixels: Vec<u8>)
        requires
            self.wf(),
        ensures
            pixels@.len() == TILE_PIXELS,
            forall|p: int|
                0 <= p < TILE_PIXELS ==> is_grey(
                    self.lines(),
                    self.spec_plan().factor as int,
                    p / 256,
                    p % 256,
                    #[trigger] pixels@[p],
                ),
    {
        let mut pixels: Vec<u8> = Vec::new();
        let mut p: usize = 0;
        while p < TILE_PIXELS
            invariant
                p <= TILE_PIXELS,
                pixels@.len() == p,
                self.minimum@.len() == TILE_PIXELS,
                forall|q: int| 0 <= q < p ==> #[trigger] pixels@[q] == grey_of(self.minimum@[q]),
            decreases TILE_PIXELS - p,
        {
            let value: u16 = self.minimum[p];
            pixels.push(
                if value == NO_DATA {
                    0
                } else {
                    (value / 257) as u8
                },
            );
            p += 1;
        }
        proof {
            assert forall|q: int| 0 <= q < TILE_PIXELS implies is_grey(
                self.lines(),
                self.spec_plan().factor as int,
                q / 256,
                q % 256,
                #[trigger] pixels@[q],
            ) by {
                assert(is_pit(
                    self.lines(),
                    self.spec_plan().factor as int,
                    q / 256,
                    q % 256,
                    self.minimum@[q],
                ));
            }
        }
        pixels
    }
}

/// Where a source line of a tile starts in a file with some bytes per cell.
pub fn line_offset(plan: TilePlan, width: usize, height: usize, line: usize, cell_bytes: u8) -> (offset:
    u64)
    requires
        line < height,
        plan.source_x < width,
        width * height * cell_bytes <= u64::MAX,
        1 <= cell_bytes,
    ensures
        offset == (line * width + plan.source_x) * cell_bytes,
{
    proof {
        crate::los::lemma_row_major(width as int, height as int, plan.source_x as int, line as int);
        assert(0 <= line * width) by (nonlinear_arith)
            requires
                line >= 0,
                width >= 0,
        ;
        let cell = line * width + plan.source_x;
        let all = width * height;
        assert(cell * cell_bytes <= all * cell_bytes) by (nonlinear_arith)
            requires
                0 <= cell <= all,
                cell_bytes >= 1,
        ;
        assert(all <= all * cell_bytes) by (nonlinear_arith)
            requires
                all >= 0,
                cell_bytes >= 1,
        ;
    }
    (line as u64 * width as u64 + plan.source_x as u64) * cell_bytes as u64
}

/// The five characters that XML gives a meaning.
pub open spec fn escaped_char(c: char) -> Seq<char> {
    if c == '&' {
        "&amp;"@
    } else if c == '<' {
        "&lt;"@
    } else if c == '>' {
        "&gt;"@
    } else if c == '"' {
        "&quot;"@
    } else if c == '\'' {
        "&apos;"@
    } else {
        seq![c]
    }
}

/// A text in which those characters are written as entities.
pub open spec fn escaped(text: Seq<char>) -> Seq<char>
    decreases text.len(),
{
    if text.len() == 0 {
        Seq::empty()
    } else {
        escaped(text.drop_last()) + escaped_char(text.last())
    }
}

pub fn xml_escape(v: &str) -> (text: String)
    ensures
        text@ == escaped(v@),
{
    let chars = chars_of(v);
    let mut text = String::new();
    let mut i: usize = 0;
    assert(chars@.take(0) =~= Seq::<char>::empty());
    while i < chars.len()
        invariant
            i <= chars@.len(),
            text@ == escaped(chars@.take(i as int)),
        decreases chars@.len() - i,
    {
        assert(chars@.take(i + 1).drop_last() =~= chars@.take(i as int));
        let c = chars[i];
        let ghost before = text@;
        if c == '&' {
            text.append("&amp;");
        } else if c == '<' {
            text.append("&lt;");
        } else if c == '>' {
            text.append("&gt;");
        } else if c == '"' {
            text.append("&quot;");
        } else if c == '\'' {
            text.append("&apos;");
        } else {
            text.push(c);
        }
        assert(text@ =~= before + escaped_char(c));
        i += 1;
    }
    assert(chars@.take(i as int) =~= chars@);
    text
}

/// An escaped text holds no markup and ends no quotation.
pub proof fn law_escaped_text_has_no_markup(text: Seq<char>, i: int)
    requires
        0 <= i < escaped(text).len(),
    ensures
        escaped(text)[i] != '<',
        escaped(text)[i] != '>',
        escaped(text)[i] != '"',
        escaped(text)[i] != '\'',
    decreases text.len(),
{
    reveal_strlit("&amp;");
    reveal_strlit("&lt;");
    reveal_strlit("&gt;");
    reveal_strlit("&quot;");
    reveal_strlit("&apos;");
    let head = escaped(text.drop_last());
    if i < head.len() {
        law_escaped_text_has_no_markup(text.drop_last(), i);
    }
}

/// The file of a layer, if the layer has a name.
pub open spec fn source_of(layer: Seq<char>) -> Option<Seq<char>> {
    if layer == "radar-count"@ {
        Some("radar-count.bin"@)
    } else if layer == "ground"@ {
        Some("ground.bin"@)
    } else if layer == "agl-30m"@ {
        Some("agl-30m.bin"@)
    } else if layer == "agl-50m"@ {
        Some("agl-50m.bin"@)
    } else if layer == "agl-100m"@ {
        Some("agl-100m.bin"@)
    } else if layer == "min-detection-height"@ {
        Some("min-detection-height.bin"@)
    } else {
        match without_prefix(layer, "agl-"@) {
            Some(rest) => match without_suffix(rest, "m"@) {
                Some(number) => match number_of(number, 65535) {
                    Some(height) => Some("agl-"@ + decimal(height) + "m.bin"@),
                    None => None,
                },
                None => None,
            },
            None => None,
        }
    }
}

/// The file of a layer. Names that are no layer are refused, so that no other
/// file can be asked for.
pub fn layer_source(layer: &str) -> (source: Result<String, ApiError>)
    ensures
        source matches Ok(name) ==> source_of(layer@) == Some(name@),
        source matches Err(e) ==> source_of(layer@) is None && says(e, 400, "layer"),
{
    if same_text(layer, "radar-count") {
        return Ok("radar-count.bin".to_owned());
    }
    if same_text(layer, "ground") {
        return Ok("ground.bin".to_owned());
    }
    if same_text(layer, "agl-30m") {
        return Ok("agl-30m.bin".to_owned());
    }
    if same_text(layer, "agl-50m") {
        return Ok("agl-50m.bin".to_owned());
    }
    if same_text(layer, "agl-100m") {
        return Ok("agl-100m.bin".to_owned());
    }
    if same_text(layer, "min-detection-height") {
        return Ok("min-detection-height.bin".to_owned());
    }
    match strip_prefix(layer, "agl-") {
        Some(rest) => match strip_suffix(rest.as_str(), "m") {
            Some(number) => match parse_number(number.as_str(), 65535) {
                Some(height) => {
                    let mut name = "agl-".to_owned();
                    push_decimal(&mut name, height);
                    name.append("m.bin");
                    Ok(name)
                },
                None => Err(public_error(400, "layer")),
            },
            None => Err(public_error(400, "layer")),
        },
        None => Err(public_error(400, "layer")),
    }
}

/// The column that a tile's file name gives.
pub fn tile_column(tile: &str) -> (col: Result<u32, ApiError>)
    ensures
        match without_suffix(tile@, ".png"@) {
            None => col matches Err(e) && says(e, 400, "tile suffix"),
            Some(number) => match number_of(number, u32::MAX as nat) {
                None => col matches Err(e) && says(e, 400, "tile column"),
                Some(n) => col matches Ok(c) && c == n,
            },
        },
{
    match strip_suffix(tile, ".png") {
        None => Err(public_error(400, "tile suffix")),
        Some(number) => match parse_number(number.as_str(), u32::MAX as u64) {
            Some(col) => Ok(col as u32),
            None => Err(public_error(400, "tile column")),
        },
    }
}

/// A date as `YYYY-MM-DD`.
pub open spec fn is_date(date: Seq<char>) -> bool {
    date.len() == 10 && forall|i: int|
        0 <= i < 10 ==> if i == 4 || i == 7 {
            #[trigger] date[i] == '-'
        } else {
            crate::text::is_digit(date[i])
        }
}

/// Refuses a dataset address with another version or without a proper date.
pub fn check_dataset_address(version: u16, date: &str) -> (checked: Result<(), ApiError>)
    ensures
        checked is Ok <==> version == 1 && is_date(date@),
        checked matches Err(e) ==> says(e, 400, "dataset version or date"),
{
    let chars = chars_of(date);
    if version != 1 || chars.len() != 10 {
        return Err(public_error(400, "dataset version or date"));
    }
    let mut i: usize = 0;
    while i < 10
        invariant
            i <= 10,
            chars@ == date@,
            chars@.len() == 10,
            version == 1,
            forall|j: int|
                0 <= j < i ==> if j == 4 || j == 7 {
                    #[trigger] date@[j] == '-'
                } else {
                    crate::text::is_digit(date@[j])
                },
        decreases 10 - i,
    {
        let c = chars[i];
        let fits = if i == 4 || i == 7 {
            c == '-'
        } else {
            '0' <= c && c <= '9'
        };
        if !fits {
            assert(date@[i as int] == c);
            return Err(public_error(400, "dataset version or date"));
        }
        i += 1;
    }
    Ok(())
}

/// The description of one level of detail.
pub open spec fn matrix_text(
    z: nat,
    scale: Seq<char>,
    left: Seq<char>,
    top: Seq<char>,
    columns: nat,
    rows: nat,
) -> Seq<char> {
    "<TileMatrix><ows:Identifier>"@ + decimal(z) + "</ows:Identifier><ScaleDenominator>"@ + scale
        + "</ScaleDenominator><TopLeftCorner>"@ + left + " "@ + top
        + "</TopLeftCorner><TileWidth>256</TileWidth><TileHeight>256</TileHeight><MatrixWidth>"@
        + decimal(columns) + "</MatrixWidth><MatrixHeight>"@ + decimal(rows)
        + "</MatrixHeight></TileMatrix>"@
}

/// The descriptions of the first `n` levels of detail.
pub open spec fn matrices_text(
    width: int,
    height: int,
    scales: Seq<String>,
    left: Seq<char>,
    top: Seq<char>,
    n: nat,
) -> Seq<char>
    decreases n,
{
    if n == 0 {
        Seq::empty()
    } else {
        let factor = pow2((scales.len() - n) as nat) as int;
        matrices_text(width, height, scales, left, top, (n - 1) as nat) + matrix_text(
            (n - 1) as nat,
            scales[n - 1]@,
            left,
            top,
            matrix_size(width, factor) as nat,
            matrix_size(height, factor) as nat,
        )
    }
}

/// The description of one layer.
pub open spec fn layer_text(
    dataset: u128,
    version: u16,
    date: Seq<char>,
    name: Seq<char>,
    title: Seq<char>,
) -> Seq<char> {
    "<Layer><ows:Title>"@ + title + "</ows:Title><ows:Identifier>"@ + name
        + "</ows:Identifier><Format>image/png</Format><ResourceURL format=\"image/png\" resourceType=\"tile\" template=\"/wmts/"@
        + spec_id_text(dataset) + "/"@ + decimal(version as nat) + "/"@ + date + "/"@ + name
        + "/{TileMatrix}/{TileRow}/{TileCol}.png\"/><TileMatrixSetLink><TileMatrixSet>radial</TileMatrixSet></TileMatrixSetLink></Layer>"@
}

fn push_layer(out: &mut String, dataset: u128, version: u16, date: &str, name: &str, title: &str)
    ensures
        final(out)@ == old(out)@ + layer_text(dataset, version, date@, name@, title@),
{
    out.append("<Layer><ows:Title>");
    out.append(title);
    out.append("</ows:Title><ows:Identifier>");
    out.append(name);
    out.append(
        "</ows:Identifier><Format>image/png</Format><ResourceURL format=\"image/png\" resourceType=\"tile\" template=\"/wmts/",
    );
    let id = id_text(dataset);
    out.append(id.as_str());
    out.append("/");
    push_decimal(out, version as u64);
    out.append("/");
    out.append(date);
    out.append("/");
    out.append(name);
    out.append(
        "/{TileMatrix}/{TileRow}/{TileCol}.png\"/><TileMatrixSetLink><TileMatrixSet>radial</TileMatrixSet></TileMatrixSetLink></Layer>",
    );
    assert(out@ =~= old(out)@ + layer_text(dataset, version, date@, name@, title@));
}

/// The descriptions of all layers.
pub open spec fn layers_text(dataset: u128, version: u16, date: Seq<char>) -> Seq<char> {
    layer_text(dataset, version, date, "ground"@, "Ground visibility"@) + layer_text(
        dataset,
        version,
        date,
        "agl-30m"@,
        "Visibility at 30 m AGL"@,
    ) + layer_text(dataset, version, date, "agl-50m"@, "Visibility at 50 m AGL"@) + layer_text(
        dataset,
        version,
        date,
        "agl-100m"@,
        "Visibility at 100 m AGL"@,
    ) + layer_text(
        dataset,
        version,
        date,
        "min-detection-height"@,
        "Minimum detection height"@,
    ) + layer_text(dataset, version, date, "radar-count"@, "Radar count"@)
}

/// The capabilities document of a dataset.
pub open spec fn capabilities_text(
    dataset: u128,
    version: u16,
    date: Seq<char>,
    width: int,
    height: int,
    crs: Seq<char>,
    scales: Seq<String>,
    left: Seq<char>,
    top: Seq<char>,
) -> Seq<char> {
    "<?xml version=\"1.0\" encoding=\"UTF-8\"?><Capabilities xmlns=\"http://www.opengis.net/wmts/1.0\" xmlns:ows=\"http://www.opengis.net/ows/1.1\" version=\"1.0.0\"><Contents>"@
        + layers_text(dataset, version, date)
        + "<TileMatrixSet><ows:Identifier>radial</ows:Identifier><ows:SupportedCRS>"@ + escaped(crs)
        + "</ows:SupportedCRS>"@ + matrices_text(width, height, scales, left, top, scales.len())
        + "</TileMatrixSet></Contents></Capabilities>"@
}

fn push_layers(out: &mut String, dataset: u128, version: u16, date: &str)
    ensures
        final(out)@ == old(out)@ + layers_text(dataset, version, date@),
{
    let ghost start = out@;
    push_layer(out, dataset, version, date, "ground", "Ground visibility");
    push_layer(out, dataset, version, date, "agl-30m", "Visibility at 30 m AGL");
    push_layer(out, dataset, version, date, "agl-50m", "Visibility at 50 m AGL");
    push_layer(out, dataset, version, date, "agl-100m", "Visibility at 100 m AGL");
    push_layer(
        out,
        dataset,
        version,
        date,
        "min-detection-height",
        "Minimum detection height",
    );
    push_layer(out, dataset, version, date, "radar-count", "Radar count");
    assert(out@ =~= start + layers_text(dataset, version, date@));
}

fn push_matrix(
    out: &mut String,
    z: u8,
    scale: &str,
    left: &str,
    top: &str,
    columns: u64,
    rows: u64,
)
    ensures
        final(out)@ == old(out)@ + matrix_text(
            z as nat,
            scale@,
            left@,
            top@,
            columns as nat,
            rows as nat,
        ),
{
    let ghost start = out@;
    out.append("<TileMatrix><ows:Identifier>");
    push_decimal(out, z as u64);
    out.append("</ows:Identifier><ScaleDenominator>");
    out.append(scale);
    out.append("</ScaleDenominator><TopLeftCorner>");
    out.append(left);
    out.append(" ");
    out.append(top);
    out.append(
        "</TopLeftCorner><TileWidth>256</TileWidth><TileHeight>256</TileHeight><MatrixWidth>",
    );
    push_decimal(out, columns);
    out.append("</MatrixWidth><MatrixHeight>");
    push_decimal(out, rows);
    out.append("</MatrixHeight></TileMatrix>");
    assert(out@ =~= start + matrix_text(
        z as nat,
        scale@,
        left@,
        top@,
        columns as nat,
        rows as nat,
    ));
}

/// Writes the matrices of all levels of detail.
fn push_matrices(
    out: &mut String,
    width: usize,
    height: usize,
    scales: &[String],
    left: &str,
    top: &str,
)
    requires
        is_levels(longer(width as int, height as int), scales@.len() as int),
    ensures
        final(out)@ == old(out)@ + matrices_text(
            width as int,
            height as int,
            scales@,
            left@,
            top@,
            scales@.len(),
        ),
{
    let ghost head = out@;
    let levels: u8 = tile_levels(width, height);
    proof {
        law_levels_are_unique(
            longer(width as int, height as int),
            levels as int,
            scales@.len() as int,
        );
    }
    let mut z: u8 = 0;
    assert(out@ =~= head + matrices_text(width as int, height as int, scales@, left@, top@, 0));
    while z < levels
        invariant
            z <= levels <= 57,
            levels == scales@.len(),
            is_levels(longer(width as int, height as int), levels as int),
            out@ == head + matrices_text(
                width as int,
                height as int,
                scales@,
                left@,
                top@,
                z as nat,
            ),
        decreases levels - z,
    {
        let ghost before = matrices_text(
            width as int,
            height as int,
            scales@,
            left@,
            top@,
            z as nat,
        );
        let factor: usize = level_factor(levels - 1 - z, width, height);
        let columns: u64 = matrix_count(width, factor);
        let rows: u64 = matrix_count(height, factor);
        push_matrix(out, z, scales[z as usize].as_str(), left, top, columns, rows);
        proof {
            let matrix = matrix_text(
                z as nat,
                scales@[z as int]@,
                left@,
                top@,
                columns as nat,
                rows as nat,
            );
            assert(out@ =~= head + (before + matrix));
        }
        z += 1;
    }
}

/// Writes the capabilities document of a dataset. The scale denominators, one
/// per level, and the top left corner come as text.
pub fn wmts_capabilities(
    dataset: u128,
    version: u16,
    date: &str,
    width: usize,
    height: usize,
    crs: &str,
    scales: &[String],
    left: &str,
    top: &str,
) -> (xml: String)
    requires
        is_levels(longer(width as int, height as int), scales@.len() as int),
    ensures
        xml@ == capabilities_text(
            dataset,
            version,
            date@,
            width as int,
            height as int,
            crs@,
            scales@,
            left@,
            top@,
        ),
{
    let mut xml = "<?xml version=\"1.0\" encoding=\"UTF-8\"?><Capabilities xmlns=\"http://www.opengis.net/wmts/1.0\" xmlns:ows=\"http://www.opengis.net/ows/1.1\" version=\"1.0.0\"><Contents>".to_owned();
    push_layers(&mut xml, dataset, version, date);
    xml.append("<TileMatrixSet><ows:Identifier>radial</ows:Identifier><ows:SupportedCRS>");
    let safe = xml_escape(crs);
    xml.append(safe.as_str());
    xml.append("</ows:SupportedCRS>");
    push_matrices(&mut xml, width, height, scales, left, top);
    xml.append("</TileMatrixSet></Contents></Capabilities>");
    xml
}

fn matrix_count(size: usize, factor: usize) -> (tiles: u64)
    requires
        factor > 0,
    ensures
        tiles == matrix_size(size as int, factor as int),
{
    let span: u128 = 256 * (factor as u128);
    let tiles: u128 = (size as u128 + (span - 1)) / span;
    proof {
        assert((size + (span - 1)) / span as int <= size) by (nonlinear_arith)
            requires
                span >= 1,
                size >= 0,
        ;
    }
    tiles as u64
}

/// Every cell of a raster is shown by a tile of each level: the tile whose
/// source holds the cell is not refused.
pub proof fn law_every_cell_has_a_tile(
    width: int,
    height: int,
    levels: int,
    z: int,
    x: int,
    y: int,
)
    requires
        is_levels(longer(width, height), levels),
        0 <= z < levels,
        0 <= x < width,
        0 <= y < height,
    ensures
        ({
            let span = 256 * pow2((levels - 1 - z) as nat) as int;
            &&& tile_refusal(width, height, levels, z, y / span, x / span) is None
            &&& x / span * span <= x < x / span * span + span
            &&& y / span * span <= y < y / span * span + span
        }),
{
    let factor = pow2((levels - 1 - z) as nat) as int;
    let span = 256 * factor;
    lemma_pow2_pos((levels - 1 - z) as nat);
    lemma_cell_in_matrix(width, span, x);
    lemma_cell_in_matrix(height, span, y);
}

proof fn lemma_cell_in_matrix(size: int, span: int, x: int)
    requires
        span > 0,
        0 <= x < size,
    ensures
        x / span < ceil_div(size, span),
        x / span * span <= x < x / span * span + span,
{
    assert(x / span < (size + span - 1) / span && x / span * span <= x < x / span * span + span)
        by (nonlinear_arith)
        requires
            span > 0,
            0 <= x < size,
    ;
}

/// The number of tiles of a side is the least that covers it.
pub proof fn law_matrix_covers_the_side(size: int, factor: int)
    requires
        size > 0,
        factor > 0,
    ensures
        matrix_size(size, factor) >= 1,
        (matrix_size(size, factor) - 1) * (256 * factor) < size,
        size <= matrix_size(size, factor) * (256 * factor),
{
    let span = 256 * factor;
    let n = (size + span - 1) / span;
    assert(n >= 1 && (n - 1) * span < size && size <= n * span) by (nonlinear_arith)
        requires
            span > 0,
            size > 0,
            n == (size + span - 1) / span,
    ;
}

/// A tile is served just where its level exists and its first cell lies in the
/// raster. Otherwise an empty dataset comes first, then a level that does not
/// exist, then a tile beyond the raster.
pub proof fn law_tile_is_refused_for_cause(
    width: int,
    height: int,
    levels: int,
    z: int,
    row: int,
    col: int,
)
    requires
        0 <= width,
        0 <= height,
        0 <= z,
        0 <= row,
        0 <= col,
    ensures
        ({
            let span = 256 * pow2((levels - 1 - z) as nat);
            let refusal = tile_refusal(width, height, levels, z, row, col);
            &&& refusal is None <==> width > 0 && height > 0 && z < levels && col * span < width
                && row * span < height
            &&& width == 0 || height == 0 ==> refusal == Some((204u16, "empty dataset"@))
            &&& width > 0 && height > 0 && z >= levels ==> refusal == Some((400u16, "tile matrix"@))
            &&& width > 0 && height > 0 && z < levels && refusal is Some ==> refusal == Some(
                (404u16, "tile outside matrix"@),
            )
        }),
{
    let factor = pow2((levels - 1 - z) as nat) as int;
    let span = 256 * factor;
    lemma_pow2_pos((levels - 1 - z) as nat);
    if width > 0 && height > 0 && z < levels {
        law_matrix_covers_the_side(width, factor);
        law_matrix_covers_the_side(height, factor);
        lemma_within_matrix(width, span, matrix_size(width, factor), col);
        lemma_within_matrix(height, span, matrix_size(height, factor), row);
    }
}

proof fn lemma_within_matrix(size: int, span: int, tiles: int, at: int)
    requires
        span > 0,
        (tiles - 1) * span < size <= tiles * span,
    ensures
        at < tiles <==> at * span < size,
{
    if at < tiles {
        assert(at * span < size) by (nonlinear_arith)
            requires
                at <= tiles - 1,
                (tiles - 1) * span < size,
                span > 0,
        ;
    } else {
        assert(at * span >= size) by (nonlinear_arith)
            requires
                at >= tiles,
                size <= tiles * span,
                span > 0,
        ;
    }
}

/// A raster cell is one of those that a pixel of a tile stands for.
pub open spec fn stands_for(
    width: int,
    height: int,
    factor: int,
    row: int,
    col: int,
    p: int,
    x: int,
    y: int,
) -> bool {
    &&& 0 <= x < width
    &&& 0 <= y < height
    &&& (256 * col + p % 256) * factor <= x < (256 * col + p % 256 + 1) * factor
    &&& (256 * row + p / 256) * factor <= y < (256 * row + p / 256 + 1) * factor
}

proof fn lemma_pixel_cells(
    plan: TilePlan,
    width: int,
    height: int,
    row: int,
    col: int,
    p: int,
    k: int,
    n: int,
)
    requires
        plan.is_for(width, height, plan.factor as int, row, col),
        plan.factor > 0,
        0 <= row,
        0 <= col,
        0 <= p < 65536,
    ensures
        0 <= k < plan.source_height && 0 <= n < plan.source_width && in_pixel(
            plan.factor as int,
            k,
            n,
            p / 256,
            p % 256,
        ) <==> stands_for(
            width,
            height,
            plan.factor as int,
            row,
            col,
            p,
            plan.source_x + n,
            plan.source_y + k,
        ),
{
    let f = plan.factor as int;
    let (ty, tx) = (p / 256, p % 256);
    lemma_quotient(k, f, ty);
    lemma_quotient(n, f, tx);
    assert((256 * col + tx) * f == col * 256 * f + tx * f) by (nonlinear_arith);
    assert((256 * col + tx + 1) * f == col * 256 * f + (tx + 1) * f) by (nonlinear_arith);
    assert((256 * row + ty) * f == row * 256 * f + ty * f) by (nonlinear_arith);
    assert((256 * row + ty + 1) * f == row * 256 * f + (ty + 1) * f) by (nonlinear_arith);
    assert(0 <= tx * f && 0 <= ty * f && (tx + 1) * f <= 256 * f && (ty + 1) * f <= 256 * f)
        by (nonlinear_arith)
        requires
            f > 0,
            0 <= tx < 256,
            0 <= ty < 256,
    ;
    assert(0 <= col * 256 * f && 0 <= row * 256 * f) by (nonlinear_arith)
        requires
            f > 0,
            0 <= col,
            0 <= row,
    ;
}

proof fn lemma_quotient(n: int, d: int, q: int)
    requires
        d > 0,
    ensures
        n / d == q <==> q * d <= n < (q + 1) * d,
{
    assert(n / d == q ==> q * d <= n < (q + 1) * d) by (nonlinear_arith)
        requires
            d > 0,
    ;
    assert(q * d <= n < (q + 1) * d ==> n / d == q) by (nonlinear_arith)
        requires
            d > 0,
    ;
}

/// A pixel of a served tile shows the highest of the cells that it stands for: the
/// square of the raster that lies under it at that level.
pub proof fn law_pixel_shows_its_highest_cell(
    plan: TilePlan,
    width: int,
    height: int,
    row: int,
    col: int,
    cells: Seq<u8>,
    lines: Seq<Seq<u8>>,
    p: int,
    value: u8,
)
    requires
        plan.is_for(width, height, plan.factor as int, row, col),
        plan.factor > 0,
        0 <= row,
        0 <= col,
        0 <= p < 65536,
        cells.len() == width * height,
        lines.len() == plan.source_height,
        forall|k: int|
            0 <= k < lines.len() ==> (#[trigger] lines[k]).len() == plan.source_width && forall|
                n: int,
            |
                0 <= n < lines[k].len() ==> #[trigger] lines[k][n] == cells[(plan.source_y + k)
                    * width + (plan.source_x + n)],
        is_peak(lines, plan.factor as int, p / 256, p % 256, value),
    ensures
        forall|x: int, y: int| #[trigger]
            stands_for(width, height, plan.factor as int, row, col, p, x, y) ==> cells[y * width
                + x] <= value,
        value == 0 || exists|x: int, y: int| #[trigger]
            stands_for(width, height, plan.factor as int, row, col, p, x, y) && cells[y * width + x]
                == value,
{
    let f = plan.factor as int;
    assert forall|x: int, y: int| #[trigger]
        stands_for(width, height, f, row, col, p, x, y) implies cells[y * width + x] <= value by {
        let (k, n) = (y - plan.source_y, x - plan.source_x);
        lemma_pixel_cells(plan, width, height, row, col, p, k, n);
        assert(lines[k][n] == cells[y * width + x]);
        assert(lines[k][n] <= value);
    }
    if value != 0 {
        let (k, n) = choose|k: int, n: int|
            0 <= k < lines.len() && 0 <= n < lines[k].len() && in_pixel(f, k, n, p / 256, p % 256)
                && #[trigger] lines[k][n] == value;
        lemma_pixel_cells(plan, width, height, row, col, p, k, n);
        let (x, y) = (plan.source_x + n, plan.source_y + k);
        assert(stands_for(width, height, f, row, col, p, x, y));
        assert(lines[k][n] == cells[y * width + x]);
    }
}

/// A pixel of a served tile of heights shows the lowest of the cells that it stands
/// for, in 255 shades: black where none of them is known, and lighter the higher.
pub proof fn law_pixel_shows_its_lowest_height(
    plan: TilePlan,
    width: int,
    height: int,
    row: int,
    col: int,
    cells: Seq<u16>,
    lines: Seq<Seq<u8>>,
    p: int,
    grey: u8,
)
    requires
        plan.is_for(width, height, plan.factor as int, row, col),
        plan.factor > 0,
        0 <= row,
        0 <= col,
        0 <= p < 65536,
        cells.len() == width * height,
        lines.len() == plan.source_height,
        forall|k: int|
            0 <= k < lines.len() ==> (#[trigger] lines[k]).len() == 2 * plan.source_width && forall|
                n: int,
            |
                0 <= n < plan.source_width ==> #[trigger] u16_at(lines[k], n) == cells[(
                plan.source_y + k) * width + (plan.source_x + n)],
        is_grey(lines, plan.factor as int, p / 256, p % 256, grey),
    ensures
        exists|lowest: u16|
            {
                &&& forall|x: int, y: int| #[trigger]
                    stands_for(width, height, plan.factor as int, row, col, p, x, y) ==> lowest
                        <= cells[y * width + x]
                &&& lowest == 65535 || exists|x: int, y: int| #[trigger]
                    stands_for(width, height, plan.factor as int, row, col, p, x, y) && cells[y
                        * width + x] == lowest
                &&& #[trigger] grey_of(lowest) == grey
            },
{
    let f = plan.factor as int;
    let lowest = choose|lowest: u16| #[trigger]
        is_pit(lines, f, p / 256, p % 256, lowest) && grey == grey_of(lowest);
    assert forall|x: int, y: int| #[trigger]
        stands_for(width, height, f, row, col, p, x, y) implies lowest <= cells[y * width + x] by {
        let (k, n) = (y - plan.source_y, x - plan.source_x);
        lemma_pixel_cells(plan, width, height, row, col, p, k, n);
        assert(lines[k].len() == 2 * plan.source_width);
        assert(u16_at(lines[k], n) == cells[y * width + x]);
        assert(lowest <= u16_at(lines[k], n));
    }
    if lowest != 65535 {
        let (k, n) = choose|k: int, n: int|
            0 <= k < lines.len() && 0 <= n < lines[k].len() / 2 && in_pixel(
                f,
                k,
                n,
                p / 256,
                p % 256,
            ) && #[trigger] u16_at(lines[k], n) == lowest;
        assert(lines[k].len() == 2 * plan.source_width);
        lemma_pixel_cells(plan, width, height, row, col, p, k, n);
        let (x, y) = (plan.source_x + n, plan.source_y + k);
        assert(stands_for(width, height, f, row, col, p, x, y));
        assert(u16_at(lines[k], n) == cells[y * width + x]);
    }
    assert(grey_of(lowest) == grey);
}

/// Shades rise with the height, 257 metres to a shade. What is not known is black.
pub proof fn law_shades_rise_with_the_height(low: u16, high: u16)
    ensures
        grey_of(65535) == 0,
        low < 65535 ==> 257 * grey_of(low) <= low < 257 * (grey_of(low) + 1),
        low <= high < 65535 ==> grey_of(low) <= grey_of(high),
{
}

/// Four cells are reduced to one of those that are known: to the lowest in a layer
/// of minimum heights, and to the highest in every other. Nothing is known of them
/// just where each is unknown.
pub proof fn law_reduction_takes_the_extreme(
    values: Seq<Option<u16>>,
    kind: LayerKind,
    best: Option<u16>,
    i: int,
)
    requires
        is_reduced(values, kind, best),
        0 <= i < values.len(),
    ensures
        best is None <==> forall|j: int| 0 <= j < values.len() ==> #[trigger] values[j] is None,
        best is Some ==> values.contains(best),
        values[i] is Some && kind == LayerKind::MinimumHeight ==> best is Some && best->0
            <= values[i]->0,
        values[i] is Some && kind != LayerKind::MinimumHeight ==> best is Some && best->0
            >= values[i]->0,
{
    if best is Some {
        let w = choose|w: int| 0 <= w < values.len() && values[w] == Some(best->0);
        assert(values[w] is Some);
    }
}

/// The tag of a tile is the hash of its bytes in quotes: equal tags mean equal
/// hashes.
pub proof fn law_tag_tells_the_hash(a: Seq<u8>, b: Seq<u8>)
    ensures
        spec_etag(a).first() == '"',
        spec_etag(a).last() == '"',
        spec_etag(a).subrange(1, spec_etag(a).len() - 1) == hex(blake3_digest(a)),
        spec_etag(a) == spec_etag(b) ==> blake3_digest(a) == blake3_digest(b),
{
    let (s, t) = (hex(blake3_digest(a)), hex(blake3_digest(b)));
    assert(spec_etag(a).subrange(1, spec_etag(a).len() - 1) =~= s);
    assert(spec_etag(b).subrange(1, spec_etag(b).len() - 1) =~= t);
    if spec_etag(a) == spec_etag(b) {
        law_hex_is_read_back(blake3_digest(a));
        law_hex_is_read_back(blake3_digest(b));
    }
}

/// A tile is answered with its bytes unless its tag was already known.
pub proof fn law_unknown_tile_is_sent(
    answer: TileAnswer,
    tile: Seq<u8>,
    if_none_match: Option<Seq<char>>,
)
    requires
        answers_tile(answer, tile, if_none_match),
    ensures
        answer.status == 200 <==> if_none_match is None || if_none_match->0 != answer.tag@,
        answer.status == 304 <==> if_none_match == Some(answer.tag@),
        answer.status == 200 ==> answer.body@ == tile,
        answer.status == 304 ==> answer.body@.len() == 0,
        answer.tag@ == spec_etag(tile),
        answer.content_type@ == "image/png"@,
{
}

/// Escaping works character by character. Only the five that mean something in
/// markup are replaced, each by its own entity, so that no two texts are confused
/// at their first difference.
pub proof fn law_escaping_is_by_character(a: Seq<char>, b: Seq<char>, c: char, d: char)
    ensures
        escaped(a + b) == escaped(a) + escaped(b),
        escaped(seq![c]) == escaped_char(c),
        escaped_char(c) == escaped_char(d) ==> c == d,
        c != '&' && c != '<' && c != '>' && c != '"' && c != '\'' ==> escaped_char(c) == seq![c],
        c == '&' || c == '<' || c == '>' || c == '"' || c == '\'' ==> escaped_char(c).first() == '&'
            && escaped_char(c).last() == ';',
    decreases b.len(),
{
    reveal_strlit("&amp;");
    reveal_strlit("&lt;");
    reveal_strlit("&gt;");
    reveal_strlit("&quot;");
    reveal_strlit("&apos;");
    let one = seq![c];
    assert(one.drop_last().len() == 0);
    assert(escaped(one.drop_last()).len() == 0);
    assert(one.last() == c);
    assert(escaped(one) =~= escaped_char(c));
    if b.len() == 0 {
        assert(a + b =~= a);
        assert(escaped(a + b) =~= escaped(a) + escaped(b));
    } else {
        law_escaping_is_by_character(a, b.drop_last(), c, d);
        assert((a + b).drop_last() =~= a + b.drop_last());
        assert(escaped(a + b) =~= escaped(a) + escaped(b));
    }
    if escaped_char(c) == escaped_char(d) && c != d {
        assert("&amp;"@[1] == 'a' && "&apos;"@[1] == 'a' && "&amp;"@[2] == 'm' && "&apos;"@[2]
            == 'p');
        assert("&lt;"@[1] == 'l' && "&gt;"@[1] == 'g' && "&quot;"@[1] == 'q');
        assert(escaped_char(c).len() > 1 <==> (c == '&' || c == '<' || c == '>' || c == '"' || c
            == '\''));
        assert(escaped_char(d).len() > 1 <==> (d == '&' || d == '<' || d == '>' || d == '"' || d
            == '\''));
        assert(escaped_char(c)[0] == escaped_char(d)[0]);
        if escaped_char(c).len() > 1 {
            assert(escaped_char(c)[1] == escaped_char(d)[1]);
            assert(escaped_char(c)[2] == escaped_char(d)[2]);
        }
    }
}

/// A part stands somewhere in a text.
pub open spec fn holds_text(text: Seq<char>, part: Seq<char>) -> bool {
    exists|i: int|
        0 <= i <= text.len() - part.len() && #[trigger] text.subrange(i, i + part.len()) == part
}

/// The capabilities tell, for every level, how many columns and rows of tiles it
/// has: as many as cover the width and the height, and no more.
pub proof fn law_capabilities_tell_every_matrix(
    dataset: u128,
    version: u16,
    date: Seq<char>,
    width: int,
    height: int,
    crs: Seq<char>,
    scales: Seq<String>,
    left: Seq<char>,
    top: Seq<char>,
    z: int,
)
    requires
        0 <= z < scales.len(),
        width > 0,
        height > 0,
    ensures
        exists|columns: nat, rows: nat|
            {
                let span = 256 * pow2((scales.len() - 1 - z) as nat);
                &&& holds_text(
                    capabilities_text(
                        dataset,
                        version,
                        date,
                        width,
                        height,
                        crs,
                        scales,
                        left,
                        top,
                    ),
                    #[trigger] matrix_text(z as nat, scales[z]@, left, top, columns, rows),
                )
                &&& (columns - 1) * span < width <= columns * span
                &&& (rows - 1) * span < height <= rows * span
            },
{
    let factor = pow2((scales.len() - 1 - z) as nat) as int;
    lemma_pow2_pos((scales.len() - 1 - z) as nat);
    law_matrix_covers_the_side(width, factor);
    law_matrix_covers_the_side(height, factor);
    let columns = matrix_size(width, factor) as nat;
    let rows = matrix_size(height, factor) as nat;
    let (head, tail) = lemma_matrix_among(width, height, scales, left, top, z, scales.len());
    let own = matrix_text(z as nat, scales[z]@, left, top, columns, rows);
    let inner = matrices_text(width, height, scales, left, top, scales.len());
    assert(inner == head + own + tail);
    let text = capabilities_text(dataset, version, date, width, height, crs, scales, left, top);
    let end = "</TileMatrixSet></Contents></Capabilities>"@;
    let start = text.take(text.len() - end.len() - inner.len());
    assert(text =~= start + inner + end);
    let at = (start + head).len() as int;
    assert(text.subrange(at, at + own.len()) =~= own);
    assert(holds_text(text, own));
}

proof fn lemma_matrix_among(
    width: int,
    height: int,
    scales: Seq<String>,
    left: Seq<char>,
    top: Seq<char>,
    z: int,
    n: nat,
) -> (around: (Seq<char>, Seq<char>))
    requires
        0 <= z < n <= scales.len(),
    ensures
        ({
            let factor = pow2((scales.len() - 1 - z) as nat) as int;
            matrices_text(width, height, scales, left, top, n) == around.0 + matrix_text(
                z as nat,
                scales[z]@,
                left,
                top,
                matrix_size(width, factor) as nat,
                matrix_size(height, factor) as nat,
            ) + around.1
        }),
    decreases n,
{
    let before = matrices_text(width, height, scales, left, top, (n - 1) as nat);
    let all = matrices_text(width, height, scales, left, top, n);
    if z == n - 1 {
        assert(all =~= before + all.skip(before.len() as int) + Seq::<char>::empty());
        (before, Seq::empty())
    } else {
        let (head, tail) = lemma_matrix_among(width, height, scales, left, top, z, (n - 1) as nat);
        let rest = tail + all.skip(before.len() as int);
        let factor = pow2((scales.len() - 1 - z) as nat) as int;
        let own = matrix_text(
            z as nat,
            scales[z]@,
            left,
            top,
            matrix_size(width, factor) as nat,
            matrix_size(height, factor) as nat,
        );
        assert(all =~= head + own + rest);
        (head, rest)
    }
}

/// The text of a level names it, and gives its columns and rows in that order.
pub proof fn law_matrix_tells_columns_then_rows(
    z: nat,
    scale: Seq<char>,
    left: Seq<char>,
    top: Seq<char>,
    columns: nat,
    rows: nat,
)
    ensures
        holds_text(
            matrix_text(z, scale, left, top, columns, rows),
            "<ows:Identifier>"@ + decimal(z) + "</ows:Identifier>"@,
        ),
        holds_text(
            matrix_text(z, scale, left, top, columns, rows),
            "<ScaleDenominator>"@ + scale + "</ScaleDenominator>"@,
        ),
        holds_text(
            matrix_text(z, scale, left, top, columns, rows),
            "<TopLeftCorner>"@ + left + " "@ + top + "</TopLeftCorner>"@,
        ),
        holds_text(
            matrix_text(z, scale, left, top, columns, rows),
            "<MatrixWidth>"@ + decimal(columns) + "</MatrixWidth>"@,
        ),
        holds_text(
            matrix_text(z, scale, left, top, columns, rows),
            "<MatrixHeight>"@ + decimal(rows) + "</MatrixHeight>"@,
        ),
{
    reveal_strlit("<TileMatrix><ows:Identifier>");
    reveal_strlit("<ows:Identifier>");
    reveal_strlit("</ows:Identifier>");
    reveal_strlit("</ows:Identifier><ScaleDenominator>");
    reveal_strlit("<ScaleDenominator>");
    reveal_strlit("</ScaleDenominator>");
    reveal_strlit("</ScaleDenominator><TopLeftCorner>");
    reveal_strlit("<TopLeftCorner>");
    reveal_strlit("</TopLeftCorner>");
    reveal_strlit(" ");
    reveal_strlit(
        "</TopLeftCorner><TileWidth>256</TileWidth><TileHeight>256</TileHeight><MatrixWidth>",
    );
    reveal_strlit("<MatrixWidth>");
    reveal_strlit("</MatrixWidth>");
    reveal_strlit("</MatrixWidth><MatrixHeight>");
    reveal_strlit("<MatrixHeight>");
    reveal_strlit("</MatrixHeight>");
    reveal_strlit("</MatrixHeight></TileMatrix>");
    let text = matrix_text(z, scale, left, top, columns, rows);
    let a: int = 12;
    let name = "<ows:Identifier>"@ + decimal(z) + "</ows:Identifier>"@;
    assert(text.subrange(a, a + name.len()) =~= name);
    let b = a + name.len();
    let denominator = "<ScaleDenominator>"@ + scale + "</ScaleDenominator>"@;
    assert(text.subrange(b, b + denominator.len()) =~= denominator);
    let c = b + denominator.len();
    let corner = "<TopLeftCorner>"@ + left + " "@ + top + "</TopLeftCorner>"@;
    assert(text.subrange(c, c + corner.len()) =~= corner);
    let d = c + corner.len() + 54;
    let across = "<MatrixWidth>"@ + decimal(columns) + "</MatrixWidth>"@;
    assert(text.subrange(d, d + across.len()) =~= across);
    let e = d + across.len();
    let along = "<MatrixHeight>"@ + decimal(rows) + "</MatrixHeight>"@;
    assert(text.subrange(e, e + along.len()) =~= along);
}

proof fn lemma_text_within(text: Seq<char>, before: Seq<char>, part: Seq<char>, after: Seq<char>)
    requires
        text == before + part + after,
    ensures
        holds_text(text, part),
{
    let at = before.len() as int;
    assert(text.subrange(at, at + part.len()) =~= part);
}

proof fn lemma_text_deeper(text: Seq<char>, outer: Seq<char>, inner: Seq<char>)
    requires
        holds_text(text, outer),
        holds_text(outer, inner),
    ensures
        holds_text(text, inner),
{
    let i = choose|i: int|
        0 <= i <= text.len() - outer.len() && #[trigger] text.subrange(i, i + outer.len()) == outer;
    let j = choose|j: int|
        0 <= j <= outer.len() - inner.len() && #[trigger] outer.subrange(j, j + inner.len())
            == inner;
    assert(text.subrange(i + j, i + j + inner.len()) =~= outer.subrange(j, j + inner.len()));
}

/// The capabilities list a layer under its name, with the address of its tiles, for
/// each name that every dataset has.
pub proof fn law_capabilities_list_every_layer(
    dataset: u128,
    version: u16,
    date: Seq<char>,
    width: int,
    height: int,
    crs: Seq<char>,
    scales: Seq<String>,
    left: Seq<char>,
    top: Seq<char>,
    name: Seq<char>,
)
    requires
        name == "ground"@ || name == "agl-30m"@ || name == "agl-50m"@ || name == "agl-100m"@ || name
            == "min-detection-height"@ || name == "radar-count"@,
    ensures
        ({
            let text = capabilities_text(
                dataset,
                version,
                date,
                width,
                height,
                crs,
                scales,
                left,
                top,
            );
            &&& holds_text(text, "<ows:Identifier>"@ + name + "</ows:Identifier>"@)
            &&& holds_text(
                text,
                "/wmts/"@ + spec_id_text(dataset) + "/"@ + decimal(version as nat) + "/"@ + date
                    + "/"@ + name + "/{TileMatrix}/{TileRow}/{TileCol}.png"@,
            )
            &&& holds_text(text, "<ows:SupportedCRS>"@ + escaped(crs) + "</ows:SupportedCRS>"@)
        }),
{
    let text = capabilities_text(dataset, version, date, width, height, crs, scales, left, top);
    let layers = layers_text(dataset, version, date);
    let grid = "<TileMatrixSet><ows:Identifier>radial</ows:Identifier><ows:SupportedCRS>"@;
    let start =
        "<?xml version=\"1.0\" encoding=\"UTF-8\"?><Capabilities xmlns=\"http://www.opengis.net/wmts/1.0\" xmlns:ows=\"http://www.opengis.net/ows/1.1\" version=\"1.0.0\"><Contents>"@;
    let matrices = matrices_text(width, height, scales, left, top, scales.len());
    let end = "</TileMatrixSet></Contents></Capabilities>"@;
    let rest = grid + escaped(crs) + "</ows:SupportedCRS>"@ + matrices + end;
    assert(text =~= start + layers + rest);
    lemma_text_within(text, start, layers, rest);
    lemma_layer_listed(dataset, version, date, name);
    lemma_text_deeper(
        text,
        layers,
        "<ows:Identifier>"@ + name + "</ows:Identifier>"@,
    );
    lemma_text_deeper(
        text,
        layers,
        "/wmts/"@ + spec_id_text(dataset) + "/"@ + decimal(version as nat) + "/"@ + date + "/"@
            + name + "/{TileMatrix}/{TileRow}/{TileCol}.png"@,
    );
    reveal_strlit("<TileMatrixSet><ows:Identifier>radial</ows:Identifier><ows:SupportedCRS>");
    reveal_strlit("<ows:SupportedCRS>");
    let opening = grid.take(grid.len() - 18);
    assert(grid =~= opening + "<ows:SupportedCRS>"@);
    let system = "<ows:SupportedCRS>"@ + escaped(crs) + "</ows:SupportedCRS>"@;
    assert(text =~= (start + layers + opening) + system + (matrices + end));
    lemma_text_within(text, start + layers + opening, system, matrices + end);
}

proof fn lemma_layer_listed(dataset: u128, version: u16, date: Seq<char>, name: Seq<char>)
    requires
        name == "ground"@ || name == "agl-30m"@ || name == "agl-50m"@ || name == "agl-100m"@ || name
            == "min-detection-height"@ || name == "radar-count"@,
    ensures
        holds_text(
            layers_text(dataset, version, date),
            "<ows:Identifier>"@ + name + "</ows:Identifier>"@,
        ),
        holds_text(
            layers_text(dataset, version, date),
            "/wmts/"@ + spec_id_text(dataset) + "/"@ + decimal(version as nat) + "/"@ + date + "/"@
                + name + "/{TileMatrix}/{TileRow}/{TileCol}.png"@,
        ),
{
    let none = Seq::<char>::empty();
    let all = layers_text(dataset, version, date);
    let a = layer_text(dataset, version, date, "ground"@, "Ground visibility"@);
    let b = layer_text(dataset, version, date, "agl-30m"@, "Visibility at 30 m AGL"@);
    let c = layer_text(dataset, version, date, "agl-50m"@, "Visibility at 50 m AGL"@);
    let d = layer_text(dataset, version, date, "agl-100m"@, "Visibility at 100 m AGL"@);
    let e = layer_text(
        dataset,
        version,
        date,
        "min-detection-height"@,
        "Minimum detection height"@,
    );
    let f = layer_text(dataset, version, date, "radar-count"@, "Radar count"@);
    let (title, own, before, after) = if name == "ground"@ {
        ("Ground visibility"@, a, none, b + c + d + e + f)
    } else if name == "agl-30m"@ {
        ("Visibility at 30 m AGL"@, b, a, c + d + e + f)
    } else if name == "agl-50m"@ {
        ("Visibility at 50 m AGL"@, c, a + b, d + e + f)
    } else if name == "agl-100m"@ {
        ("Visibility at 100 m AGL"@, d, a + b + c, e + f)
    } else if name == "min-detection-height"@ {
        ("Minimum detection height"@, e, a + b + c + d, f)
    } else {
        ("Radar count"@, f, a + b + c + d + e, none)
    };
    assert(all =~= before + own + after);
    lemma_text_within(all, before, own, after);
    lemma_layer_parts(dataset, version, date, name, title);
    lemma_text_deeper(all, own, "<ows:Identifier>"@ + name + "</ows:Identifier>"@);
    lemma_text_deeper(
        all,
        own,
        "/wmts/"@ + spec_id_text(dataset) + "/"@ + decimal(version as nat) + "/"@ + date + "/"@
            + name + "/{TileMatrix}/{TileRow}/{TileCol}.png"@,
    );
}

proof fn lemma_layer_parts(
    dataset: u128,
    version: u16,
    date: Seq<char>,
    name: Seq<char>,
    title: Seq<char>,
)
    ensures
        holds_text(
            layer_text(dataset, version, date, name, title),
            "<ows:Identifier>"@ + name + "</ows:Identifier>"@,
        ),
        holds_text(
            layer_text(dataset, version, date, name, title),
            "/wmts/"@ + spec_id_text(dataset) + "/"@ + decimal(version as nat) + "/"@ + date + "/"@
                + name + "/{TileMatrix}/{TileRow}/{TileCol}.png"@,
        ),
{
    let opening = "</ows:Title><ows:Identifier>"@;
    let middle =
        "</ows:Identifier><Format>image/png</Format><ResourceURL format=\"image/png\" resourceType=\"tile\" template=\"/wmts/"@;
    let closing =
        "/{TileMatrix}/{TileRow}/{TileCol}.png\"/><TileMatrixSetLink><TileMatrixSet>radial</TileMatrixSet></TileMatrixSetLink></Layer>"@;
    reveal_strlit("</ows:Title><ows:Identifier>");
    reveal_strlit(
        "</ows:Identifier><Format>image/png</Format><ResourceURL format=\"image/png\" resourceType=\"tile\" template=\"/wmts/",
    );
    reveal_strlit(
        "/{TileMatrix}/{TileRow}/{TileCol}.png\"/><TileMatrixSetLink><TileMatrixSet>radial</TileMatrixSet></TileMatrixSetLink></Layer>",
    );
    reveal_strlit("<ows:Identifier>");
    reveal_strlit("</ows:Identifier>");
    reveal_strlit("/wmts/");
    reveal_strlit("/{TileMatrix}/{TileRow}/{TileCol}.png");
    let text = layer_text(dataset, version, date, name, title);
    let head = "<Layer><ows:Title>"@ + title + opening.take(12);
    let identifier = "<ows:Identifier>"@ + name + "</ows:Identifier>"@;
    assert(opening =~= opening.take(12) + "<ows:Identifier>"@);
    assert(middle =~= "</ows:Identifier>"@ + middle.skip(17));
    assert(middle =~= middle.take(middle.len() - 6) + "/wmts/"@);
    assert(closing =~= "/{TileMatrix}/{TileRow}/{TileCol}.png"@ + closing.skip(37));
    let address = spec_id_text(dataset) + "/"@ + decimal(version as nat) + "/"@ + date + "/"@ + name;
    assert(text =~= head + identifier + (middle.skip(17) + address + closing));
    lemma_text_within(text, head, identifier, middle.skip(17) + address + closing);
    let template = "/wmts/"@ + spec_id_text(dataset) + "/"@ + decimal(version as nat) + "/"@ + date
        + "/"@ + name + "/{TileMatrix}/{TileRow}/{TileCol}.png"@;
    let lead = "<Layer><ows:Title>"@ + title + opening + name + middle.take(middle.len() - 6);
    assert(text =~= lead + template + closing.skip(37));
    lemma_text_within(text, lead, template, closing.skip(37));
}

/// The layers of counts and of minimum heights are served from the files of their
/// names.
pub proof fn law_named_layers_are_served()
    ensures
        source_of("radar-count"@) == Some("radar-count"@ + ".bin"@),
        source_of("min-detection-height"@) == Some("min-detection-height"@ + ".bin"@),
        source_of("ground"@) == Some("ground"@ + ".bin"@),
{
    reveal_strlit("radar-count");
    reveal_strlit("radar-count.bin");
    reveal_strlit("min-detection-height");
    reveal_strlit("min-detection-height.bin");
    reveal_strlit("ground");
    reveal_strlit("ground.bin");
    reveal_strlit("agl-30m");
    reveal_strlit("agl-50m");
    reveal_strlit("agl-100m");
    reveal_strlit(".bin");
    assert("radar-count"@[0] == 'r' && "ground"@[0] == 'g' && "min-detection-height"@[0] == 'm');
    assert("agl-30m"@[0] == 'a' && "agl-50m"@[0] == 'a' && "agl-100m"@[0] == 'a');
    assert("radar-count.bin"@ =~= "radar-count"@ + ".bin"@);
    assert("min-detection-height.bin"@ =~= "min-detection-height"@ + ".bin"@);
    assert("ground.bin"@ =~= "ground"@ + ".bin"@);
}

} // verus!
