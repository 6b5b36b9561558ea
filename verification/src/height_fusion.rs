//! Block-wise fusion of height layers.
//!
//! Layers are fused one after the other, and each arrives in blocks: only one
//! block and the output grid are held at a time.
use crate::bitset::{bumped, how_many, lemma_how_many_agrees, saturated};
use crate::bytes::{lemma_le_words_len, u16_at};
use crate::digest::blake3_digest;
use crate::los::visible_at;
use crate::storage::{declared, envelope, file_error, file_json, file_payload, file_prefix, hashed,
    height_payload, law_envelope_round_trip, law_heights_round_trip, prefix_error, read,
    read_header, ErrorView, Metadata, PayloadCheck, StorageError, BLOCK, CHECKSUM, NO_DATA, PREFIX,
    RHGT_MAGIC};
use vstd::prelude::*;

verus! {

/// The heights that a payload holds.
pub open spec fn heights_of(payload: Seq<u8>) -> Seq<u16> {
    Seq::new((payload.len() / 2) as nat, |i: int| u16_at(payload, i))
}

/// Decodes the heights of a payload; a last byte without its pair is left out.
pub fn decode_heights(payload: &[u8]) -> (heights: Vec<u16>)
    ensures
        heights@ == heights_of(payload@),
{
    let count: usize = payload.len() / 2;
    let mut heights: Vec<u16> = Vec::new();
    let mut i: usize = 0;
    while i < count
        invariant
            i <= count,
            count == payload@.len() / 2,
            heights@ == heights_of(payload@).take(i as int),
        decreases count - i,
    {
        heights.push(block_height(payload, i));
        i += 1;
        assert(heights@ =~= heights_of(payload@).take(i as int));
    }
    assert(heights@ =~= heights_of(payload@));
    heights
}

/// Reads and validates a height file: its JSON header and its heights.
pub fn read_rhgt_file(file: &[u8]) -> (parts: Result<(Vec<u8>, Vec<u16>), StorageError>)
    ensures
        parts matches Ok((json, heights)) ==> file_error(file@, RHGT_MAGIC@) is None && json@
            == file_json(file@) && heights@ == heights_of(file_payload(file@)),
        parts matches Err(e) ==> file_error(file@, RHGT_MAGIC@) == Some(e@),
{
    match read(file, RHGT_MAGIC) {
        Ok((json, payload)) => Ok((json, decode_heights(payload.as_slice()))),
        Err(error) => Err(error),
    }
}

/// A height file gives back the heights that were written to it.
pub proof fn law_height_file_round_trip(json: Seq<u8>, heights: Seq<u16>, file: Seq<u8>)
    requires
        json.len() <= u32::MAX,
        file == envelope(RHGT_MAGIC@, json, height_payload(heights)),
        file.len() == PREFIX + json.len() + 2 * heights.len() + CHECKSUM,
        file.len() <= u64::MAX,
    ensures
        file_error(file, RHGT_MAGIC@) is None,
        file_json(file) == json,
        heights_of(file_payload(file)) == heights,
{
    let payload = height_payload(heights);
    lemma_le_words_len(heights.map_values(|h: u16| h as nat), 2);
    law_envelope_round_trip(RHGT_MAGIC@, json, payload, file);
    assert forall|i: int| 0 <= i < heights.len() implies heights_of(payload)[i] == heights[i] by {
        law_heights_round_trip(heights, i);
    }
    assert(heights_of(payload) =~= heights);
}

/// How many layers see cell `i` at a height.
pub open spec fn hits(layers: Seq<Seq<u16>>, height: u16, i: int) -> nat
    decreases layers.len(),
{
    if layers.len() == 0 {
        0
    } else {
        hits(layers.drop_last(), height, i) + if i < layers.last().len() && visible_at(
            layers.last()[i],
            height,
        ) {
            1nat
        } else {
            0nat
        }
    }
}

/// `value` is the lowest known height of cell `i` over all layers.
pub open spec fn is_lowest(layers: Seq<Seq<u16>>, i: int, value: u16) -> bool {
    &&& forall|l: int| 0 <= l < layers.len() && i < (#[trigger] layers[l]).len() ==> value
        <= layers[l][i]
    &&& value == NO_DATA || exists|l: int|
        0 <= l < layers.len() && i < (#[trigger] layers[l]).len() && layers[l][i] == value
}

/// The reason why a layer cannot join layers on the grid of `reference`, if
/// there is one.
pub open spec fn layer_error(
    reference: Option<Metadata>,
    metadata: &Metadata,
    payload_len: u64,
) -> Option<ErrorView> {
    if metadata.spec_cells() > usize::MAX {
        Some(ErrorView::Format("dimension overflow"@))
    } else if payload_len != 2 * metadata.spec_cells() {
        Some(ErrorView::Format("rhgt payload"@))
    } else if reference matches Some(first) && !first.spec_same_grid(metadata) {
        Some(ErrorView::IncompatibleGrid)
    } else {
        None
    }
}

/// The layers that have been fed in, and the part of the one that is under way.
pub struct LayerFeed {
    reference: Option<Metadata>,
    cells: usize,
    check: Option<PayloadCheck>,
    offset: usize,
    layers: Ghost<Seq<Seq<u16>>>,
    json: Ghost<Seq<u8>>,
    current: Ghost<Seq<u8>>,
}

impl LayerFeed {
    /// The metadata of the first layer.
    pub closed spec fn spec_reference(&self) -> Option<Metadata> {
        self.reference
    }

    pub closed spec fn spec_cells(&self) -> int {
        self.cells as int
    }

    /// Whether a layer is under way.
    pub closed spec fn in_layer(&self) -> bool {
        self.check is Some
    }

    /// The heights of all complete layers.
    pub closed spec fn layers(&self) -> Seq<Seq<u16>> {
        self.layers@
    }

    /// The header of the layer that is under way.
    pub closed spec fn json(&self) -> Seq<u8> {
        self.json@
    }

    /// The payload bytes of the layer that is under way.
    pub closed spec fn current(&self) -> Seq<u8> {
        self.current@
    }

    /// The payload bytes that are still to come.
    pub open spec fn left(&self) -> int {
        2 * self.spec_cells() - self.current().len()
    }

    /// All heights so far: the complete layers and the beginning of the one
    /// under way.
    pub open spec fn seen(&self) -> Seq<Seq<u16>> {
        self.layers().push(heights_of(self.current()))
    }

    pub closed spec fn wf(&self) -> bool {
        &&& self.reference matches Some(first) ==> self.cells == first.spec_cells()
        &&& self.reference is None ==> self.layers@.len() == 0 && self.check is None && self.cells
            == 0
        &&& forall|l: int|
            0 <= l < self.layers@.len() ==> (#[trigger] self.layers@[l]).len() == self.cells
        &&& self.current@.len() == 2 * self.offset
        &&& self.offset <= self.cells
        &&& self.check is None ==> self.offset == 0
        &&& self.check matches Some(check) ==> check.fed() == hashed(
            RHGT_MAGIC@,
            self.json@,
            self.current@,
        ) && check.spec_remaining() == 2 * self.cells - self.current@.len()
    }

    pub proof fn lemma_wf(&self)
        requires
            self.wf(),
        ensures
            0 <= self.spec_cells() <= usize::MAX,
            self.current().len() <= 2 * self.spec_cells(),
            self.current().len() % 2 == 0,
            !self.in_layer() ==> self.current() == Seq::<u8>::empty(),
            self.spec_reference() is None ==> self.layers().len() == 0 && !self.in_layer()
                && self.spec_cells() == 0,
            self.spec_reference() matches Some(first) ==> self.spec_cells() == first.spec_cells(),
            forall|l: int|
                0 <= l < self.layers().len() ==> (#[trigger] self.layers()[l]).len()
                    == self.spec_cells(),
    {
        if !self.in_layer() {
            assert(self.current@ =~= Seq::<u8>::empty());
        }
    }

    pub fn new() -> (feed: Self)
        ensures
            feed.wf(),
            feed.spec_reference() is None,
            feed.spec_cells() == 0,
            !feed.in_layer(),
            feed.layers() == Seq::<Seq<u16>>::empty(),
    {
        LayerFeed {
            reference: None,
            cells: 0,
            check: None,
            offset: 0,
            layers: Ghost(Seq::empty()),
            json: Ghost(Seq::empty()),
            current: Ghost(Seq::empty()),
        }
    }

    /// Starts a layer. The first one fixes the grid.
    pub fn begin(&mut self, metadata: &Metadata, json: &[u8], payload_len: u64) -> (begun: Result<
        (),
        StorageError,
    >)
        requires
            old(self).wf(),
            !old(self).in_layer(),
        ensures
            begun matches Err(e) ==> layer_error(
                old(self).spec_reference(),
                metadata,
                payload_len,
            ) == Some(e@) && *final(self) == *old(self),
            begun is Ok ==> {
                &&& layer_error(old(self).spec_reference(), metadata, payload_len) is None
                &&& final(self).wf()
                &&& final(self).in_layer()
                &&& final(self).layers() == old(self).layers()
                &&& final(self).json() == json@
                &&& final(self).current() == Seq::<u8>::empty()
                &&& final(self).spec_cells() == metadata.spec_cells()
                &&& final(self).spec_reference() == (match old(self).spec_reference() {
                    Some(first) => Some(first),
                    None => Some(*metadata),
                })
            },
    {
        let cells: usize = match metadata.cells() {
            Ok(cells) => cells,
            Err(error) => {
                return Err(error);
            },
        };
        if payload_len as u128 != cells as u128 * 2 {
            return Err(StorageError::Format("rhgt payload"));
        }
        match &self.reference {
            Some(first) => {
                if !first.same_grid(metadata) {
                    return Err(StorageError::IncompatibleGrid);
                }
            },
            None => {},
        }
        if self.reference.is_none() {
            self.cells = cells;
            self.reference = Some(metadata.clone());
        }
        self.check = Some(PayloadCheck::begin(RHGT_MAGIC, json, payload_len));
        self.offset = 0;
        self.json = Ghost(json@);
        self.current = Ghost(Seq::empty());
        Ok(())
    }

    /// The length of the next block of the layer; zero at its end.
    pub fn next_len(&self) -> (n: usize)
        requires
            self.wf(),
            self.in_layer(),
        ensures
            n == (if self.left() > BLOCK {
                BLOCK as int
            } else {
                self.left()
            }),
            n % 2 == 0,
    {
        match &self.check {
            Some(check) => check.next_len(),
            None => 0,
        }
    }

    /// Takes in a block of heights. Returns the cell of its first height.
    fn absorb(&mut self, block: &[u8]) -> (first: usize)
        requires
            old(self).wf(),
            old(self).in_layer(),
            block@.len() <= old(self).left(),
            block@.len() % 2 == 0,
        ensures
            final(self).wf(),
            final(self).in_layer(),
            final(self).spec_reference() == old(self).spec_reference(),
            final(self).spec_cells() == old(self).spec_cells(),
            final(self).layers() == old(self).layers(),
            final(self).json() == old(self).json(),
            final(self).current() == old(self).current() + block@,
            first == old(self).current().len() / 2,
            first + block@.len() / 2 <= old(self).spec_cells(),
    {
        let first: usize = self.offset;
        match self.check.take() {
            Some(check) => {
                let mut check = check;
                check.absorb(block);
                self.check = Some(check);
                self.offset = first + block.len() / 2;
                self.current = Ghost(self.current@ + block@);
                assert(hashed(RHGT_MAGIC@, self.json@, old(self).current@) + block@ =~= hashed(
                    RHGT_MAGIC@,
                    self.json@,
                    self.current@,
                ));
            },
            None => {},
        }
        first
    }

    /// Ends a layer: its checksum is compared, and nothing may follow it.
    pub fn end(&mut self, stored: &[u8], at_end: bool) -> (ended: Result<(), StorageError>)
        requires
            old(self).wf(),
            old(self).in_layer(),
            old(self).left() == 0,
        ensures
            ended is Ok <==> blake3_digest(
                hashed(RHGT_MAGIC@, old(self).json(), old(self).current()),
            ) == stored@ && at_end,
            ended matches Err(e) ==> *final(self) == *old(self) && e@ == (if blake3_digest(
                hashed(RHGT_MAGIC@, old(self).json(), old(self).current()),
            ) != stored@ {
                ErrorView::Checksum
            } else {
                ErrorView::Format("trailing bytes"@)
            }),
            ended is Ok ==> {
                &&& final(self).wf()
                &&& !final(self).in_layer()
                &&& final(self).spec_reference() == old(self).spec_reference()
                &&& final(self).spec_cells() == old(self).spec_cells()
                &&& final(self).layers() == old(self).seen()
            },
    {
        match &self.check {
            Some(check) => {
                match check.finish(stored, at_end) {
                    Err(error) => {
                        return Err(error);
                    },
                    Ok(()) => {},
                }
            },
            None => {},
        }
        let ghost done = self.layers@.push(heights_of(self.current@));
        self.check = None;
        self.offset = 0;
        self.layers = Ghost(done);
        self.current = Ghost(Seq::empty());
        Ok(())
    }

    pub fn into_reference(self) -> (reference: Option<Metadata>)
        ensures
            reference == self.spec_reference(),
    {
        self.reference
    }
}

/// A new height at cell `i` of the layer under way.
proof fn lemma_seen_step(a: Seq<u8>, b: Seq<u8>, i: int)
    requires
        a.len() % 2 == 0,
        b.len() % 2 == 0,
        0 <= i,
    ensures
        ({
            let old_part = heights_of(a);
            let new_part = heights_of(a + b);
            &&& new_part.len() == old_part.len() + b.len() / 2
            &&& i < old_part.len() ==> new_part[i] == old_part[i]
            &&& old_part.len() <= i < new_part.len() ==> new_part[i] == u16_at(
                b,
                i - old_part.len(),
            )
        }),
{
}

fn block_height(block: &[u8], i: usize) -> (height: u16)
    requires
        2 * i + 1 < block@.len(),
    ensures
        height == u16_at(block@, i as int),
{
    let len: usize = block.len();
    block[2 * i] as u16 + 256 * (block[2 * i + 1] as u16)
}

/// Adds one, with saturation, at each cell of a block that is seen at a height.
fn count_block(counts: &mut Vec<u8>, first: usize, block: &[u8], height: u16)
    requires
        first + block@.len() / 2 <= old(counts)@.len(),
    ensures
        final(counts)@.len() == old(counts)@.len(),
        forall|i: int|
            0 <= i < final(counts)@.len() ==> #[trigger] final(counts)@[i] == (if first <= i < first
                + block@.len() / 2 && visible_at(u16_at(block@, i - first), height) {
                bumped(old(counts)@[i])
            } else {
                old(counts)@[i]
            }),
{
    let cells: usize = counts.len();
    let mut k: usize = 0;
    while k < block.len() / 2
        invariant
            k <= block@.len() / 2,
            first + block@.len() / 2 <= cells,
            counts@.len() == cells,
            counts@.len() == old(counts)@.len(),
            forall|i: int|
                0 <= i < cells ==> #[trigger] counts@[i] == (if first <= i < first + k
                    && visible_at(u16_at(block@, i - first), height) {
                    bumped(old(counts)@[i])
                } else {
                    old(counts)@[i]
                }),
        decreases block@.len() / 2 - k,
    {
        let value: u16 = block_height(block, k);
        if value != NO_DATA && value <= height {
            let at: usize = first + k;
            counts[at] = counts[at].saturating_add(1);
        }
        k += 1;
    }
}

/// Counts, per cell, the layers that see it at a height.
pub struct CountFusion {
    feed: LayerFeed,
    height: u16,
    counts: Vec<u8>,
}

impl CountFusion {
    pub closed spec fn feed(&self) -> LayerFeed {
        self.feed
    }

    pub closed spec fn height(&self) -> u16 {
        self.height
    }

    pub closed spec fn counts(&self) -> Seq<u8> {
        self.counts@
    }

    /// The counts are those of all heights so far.
    pub open spec fn wf(&self) -> bool {
        &&& self.feed().wf()
        &&& self.counts().len() == self.feed().spec_cells()
        &&& forall|i: int|
            0 <= i < self.counts().len() ==> #[trigger] self.counts()[i] == saturated(
                hits(self.feed().seen(), self.height(), i),
            )
    }

    pub fn new(height: u16) -> (fusion: Self)
        ensures
            fusion.wf(),
            fusion.height() == height,
            fusion.feed().spec_reference() is None,
            !fusion.feed().in_layer(),
            fusion.feed().layers() == Seq::<Seq<u16>>::empty(),
    {
        CountFusion { feed: LayerFeed::new(), height, counts: Vec::new() }
    }

    pub fn begin_layer(&mut self, metadata: &Metadata, json: &[u8], payload_len: u64) -> (begun:
        Result<(), StorageError>)
        requires
            old(self).wf(),
            !old(self).feed().in_layer(),
        ensures
            begun matches Err(e) ==> layer_error(
                old(self).feed().spec_reference(),
                metadata,
                payload_len,
            ) == Some(e@) && *final(self) == *old(self),
            begun is Ok ==> {
                &&& layer_error(old(self).feed().spec_reference(), metadata, payload_len) is None
                &&& final(self).wf()
                &&& final(self).height() == old(self).height()
                &&& final(self).feed().in_layer()
                &&& final(self).feed().layers() == old(self).feed().layers()
                &&& final(self).feed().json() == json@
                &&& final(self).feed().current() == Seq::<u8>::empty()
                &&& final(self).feed().spec_cells() == metadata.spec_cells()
                &&& final(self).feed().spec_reference() == (match old(
                    self,
                ).feed().spec_reference() {
                    Some(first) => Some(first),
                    None => Some(*metadata),
                })
            },
    {
        proof {
            self.feed.lemma_wf();
        }
        let first_layer = self.feed.reference.is_none();
        match self.feed.begin(metadata, json, payload_len) {
            Err(error) => Err(error),
            Ok(()) => {
                proof {
                    self.feed.lemma_wf();
                }
                if first_layer {
                    self.counts = vec![0u8; self.feed.cells];
                    proof {
                        assert(self.feed.layers() =~= Seq::<Seq<u16>>::empty());
                    }
                }
                proof {
                    assert(self.feed.seen() =~= old(self).feed.seen());
                    if first_layer {
                        assert(self.feed.seen().drop_last() =~= Seq::<Seq<u16>>::empty());
                        assert(self.feed.seen().last().len() == 0);
                        reveal_with_fuel(hits, 2);
                    }
                }
                Ok(())
            },
        }
    }

    pub fn next_len(&self) -> (n: usize)
        requires
            self.wf(),
            self.feed().in_layer(),
        ensures
            n == (if self.feed().left() > BLOCK {
                BLOCK as int
            } else {
                self.feed().left()
            }),
            n % 2 == 0,
    {
        self.feed.next_len()
    }

    pub fn absorb(&mut self, block: &[u8])
        requires
            old(self).wf(),
            old(self).feed().in_layer(),
            block@.len() <= old(self).feed().left(),
            block@.len() % 2 == 0,
        ensures
            final(self).wf(),
            final(self).height() == old(self).height(),
            final(self).feed().in_layer(),
            final(self).feed().spec_reference() == old(self).feed().spec_reference(),
            final(self).feed().spec_cells() == old(self).feed().spec_cells(),
            final(self).feed().layers() == old(self).feed().layers(),
            final(self).feed().json() == old(self).feed().json(),
            final(self).feed().current() == old(self).feed().current() + block@,
    {
        let ghost before = self.counts@;
        let ghost layers = self.feed.layers();
        let ghost a = self.feed.current();
        proof {
            self.feed.lemma_wf();
        }
        let first: usize = self.feed.absorb(block);
        count_block(&mut self.counts, first, block, self.height);
        proof {
            assert forall|i: int| 0 <= i < self.counts@.len() implies #[trigger] self.counts@[i]
                == saturated(hits(self.feed.seen(), self.height, i)) by {
                lemma_seen_step(a, block@, i);
                assert(self.feed.seen().drop_last() =~= layers);
                assert(layers.push(heights_of(a)).drop_last() =~= layers);
                assert(before[i] == saturated(hits(layers.push(heights_of(a)), self.height, i)));
            }
        }
    }

    pub fn end_layer(&mut self, stored: &[u8], at_end: bool) -> (ended: Result<(), StorageError>)
        requires
            old(self).wf(),
            old(self).feed().in_layer(),
            old(self).feed().left() == 0,
        ensures
            ended is Ok <==> blake3_digest(
                hashed(RHGT_MAGIC@, old(self).feed().json(), old(self).feed().current()),
            ) == stored@ && at_end,
            ended matches Err(e) ==> *final(self) == *old(self) && e@ == (if blake3_digest(
                hashed(RHGT_MAGIC@, old(self).feed().json(), old(self).feed().current()),
            ) != stored@ {
                ErrorView::Checksum
            } else {
                ErrorView::Format("trailing bytes"@)
            }),
            ended is Ok ==> {
                &&& final(self).wf()
                &&& final(self).height() == old(self).height()
                &&& !final(self).feed().in_layer()
                &&& final(self).feed().spec_reference() == old(self).feed().spec_reference()
                &&& final(self).feed().spec_cells() == old(self).feed().spec_cells()
                &&& final(self).feed().layers() == old(self).feed().seen()
            },
    {
        match self.feed.end(stored, at_end) {
            Err(error) => Err(error),
            Ok(()) => {
                proof {
                    self.feed.lemma_wf();
                    let done = old(self).feed.seen();
                    assert(self.feed.seen().drop_last() =~= done);
                    assert(self.feed.seen().last().len() == 0);
                }
                Ok(())
            },
        }
    }

    /// The metadata of the first layer, and the counts.
    pub fn finish(self) -> (fused: (Option<Metadata>, Vec<u8>))
        requires
            self.wf(),
            !self.feed().in_layer(),
        ensures
            fused.0 == self.feed().spec_reference(),
            fused.1@.len() == self.feed().spec_cells(),
            forall|i: int|
                0 <= i < fused.1@.len() ==> #[trigger] fused.1@[i] == saturated(
                    hits(self.feed().layers(), self.height(), i),
                ),
    {
        proof {
            self.feed.lemma_wf();
            assert(self.feed.seen().drop_last() =~= self.feed.layers());
            assert(self.feed.seen().last().len() == 0);
        }
        (self.feed.into_reference(), self.counts)
    }
}

/// Lowers each cell of a block to the block's height, where that is known.
fn lower_block(minimum: &mut Vec<u16>, first: usize, block: &[u8])
    requires
        first + block@.len() / 2 <= old(minimum)@.len(),
    ensures
        final(minimum)@.len() == old(minimum)@.len(),
        forall|i: int|
            0 <= i < final(minimum)@.len() ==> #[trigger] final(minimum)@[i] == (if first <= i
                < first + block@.len() / 2 {
                lower(old(minimum)@[i], u16_at(block@, i - first))
            } else {
                old(minimum)@[i]
            }),
{
    let cells: usize = minimum.len();
    let mut k: usize = 0;
    while k < block.len() / 2
        invariant
            k <= block@.len() / 2,
            first + block@.len() / 2 <= cells,
            minimum@.len() == cells,
            minimum@.len() == old(minimum)@.len(),
            forall|i: int|
                0 <= i < cells ==> #[trigger] minimum@[i] == (if first <= i < first + k {
                    lower(old(minimum)@[i], u16_at(block@, i - first))
                } else {
                    old(minimum)@[i]
                }),
        decreases block@.len() / 2 - k,
    {
        let value: u16 = block_height(block, k);
        let at: usize = first + k;
        if value != NO_DATA && value < minimum[at] {
            minimum[at] = value;
        }
        k += 1;
    }
}

/// The lower of two heights.
pub open spec fn lower(a: u16, b: u16) -> u16 {
    if b < a {
        b
    } else {
        a
    }
}

/// The lowest height after one layer has grown.
proof fn lemma_lowest_step(
    layers: Seq<Seq<u16>>,
    old_part: Seq<u16>,
    new_part: Seq<u16>,
    i: int,
    old_value: u16,
    new_value: u16,
)
    requires
        0 <= i,
        old_part.len() <= new_part.len(),
        i < old_part.len() ==> new_part[i] == old_part[i],
        is_lowest(layers.push(old_part), i, old_value),
        new_value == (if old_part.len() <= i < new_part.len() {
            lower(old_value, new_part[i])
        } else {
            old_value
        }),
    ensures
        is_lowest(layers.push(new_part), i, new_value),
{
    let before = layers.push(old_part);
    let after = layers.push(new_part);
    assert(forall|l: int| 0 <= l < layers.len() ==> after[l] == before[l]);
    assert(after[layers.len() as int] == new_part);
    assert(before[layers.len() as int] == old_part);
    assert forall|l: int| 0 <= l < after.len() && i < (#[trigger] after[l]).len() implies new_value
        <= after[l][i] by {
        if l < layers.len() {
            assert(before[l] == after[l]);
        }
    }
    if new_value != NO_DATA {
        if new_value == old_value {
            let w = choose|l: int|
                0 <= l < before.len() && i < (#[trigger] before[l]).len() && before[l][i]
                    == old_value;
            assert(after[w][i] == new_value);
        } else {
            assert(after[layers.len() as int][i] == new_value);
        }
    }
}

/// A layer without heights changes nothing.
proof fn lemma_lowest_with_empty(layers: Seq<Seq<u16>>, part: Seq<u16>, i: int, value: u16)
    requires
        0 <= i,
        part.len() == 0,
    ensures
        is_lowest(layers.push(part), i, value) <==> is_lowest(layers, i, value),
{
    let after = layers.push(part);
    assert(forall|l: int| 0 <= l < layers.len() ==> after[l] == layers[l]);
    if is_lowest(layers, i, value) && value != NO_DATA {
        let w = choose|l: int|
            0 <= l < layers.len() && i < (#[trigger] layers[l]).len() && layers[l][i] == value;
        assert(after[w][i] == value);
    }
    if is_lowest(after, i, value) {
        assert forall|l: int| 0 <= l < layers.len() && i < (#[trigger] layers[l]).len() implies value
            <= layers[l][i] by {
            assert(after[l] == layers[l]);
        }
        if value != NO_DATA {
            let w = choose|l: int|
                0 <= l < after.len() && i < (#[trigger] after[l]).len() && after[l][i] == value;
            assert(layers[w][i] == value);
        }
    }
}

/// Keeps, per cell, the lowest known height of all layers.
pub struct MinimumFusion {
    feed: LayerFeed,
    minimum: Vec<u16>,
}

impl MinimumFusion {
    pub closed spec fn feed(&self) -> LayerFeed {
        self.feed
    }

    pub closed spec fn minimum(&self) -> Seq<u16> {
        self.minimum@
    }

    /// The minimum is that of all heights so far.
    pub open spec fn wf(&self) -> bool {
        &&& self.feed().wf()
        &&& self.minimum().len() == self.feed().spec_cells()
        &&& forall|i: int|
            0 <= i < self.minimum().len() ==> is_lowest(
                self.feed().seen(),
                i,
                #[trigger] self.minimum()[i],
            )
    }

    pub fn new() -> (fusion: Self)
        ensures
            fusion.wf(),
            fusion.feed().spec_reference() is None,
            !fusion.feed().in_layer(),
            fusion.feed().layers() == Seq::<Seq<u16>>::empty(),
    {
        MinimumFusion { feed: LayerFeed::new(), minimum: Vec::new() }
    }

    pub fn begin_layer(&mut self, metadata: &Metadata, json: &[u8], payload_len: u64) -> (begun:
        Result<(), StorageError>)
        requires
            old(self).wf(),
            !old(self).feed().in_layer(),
        ensures
            begun matches Err(e) ==> layer_error(
                old(self).feed().spec_reference(),
                metadata,
                payload_len,
            ) == Some(e@) && *final(self) == *old(self),
            begun is Ok ==> {
                &&& layer_error(old(self).feed().spec_reference(), metadata, payload_len) is None
                &&& final(self).wf()
                &&& final(self).feed().in_layer()
                &&& final(self).feed().layers() == old(self).feed().layers()
                &&& final(self).feed().json() == json@
                &&& final(self).feed().current() == Seq::<u8>::empty()
                &&& final(self).feed().spec_cells() == metadata.spec_cells()
                &&& final(self).feed().spec_reference() == (match old(
                    self,
                ).feed().spec_reference() {
                    Some(first) => Some(first),
                    None => Some(*metadata),
                })
            },
    {
        proof {
            self.feed.lemma_wf();
        }
        let first_layer = self.feed.reference.is_none();
        match self.feed.begin(metadata, json, payload_len) {
            Err(error) => Err(error),
            Ok(()) => {
                proof {
                    self.feed.lemma_wf();
                }
                if first_layer {
                    self.minimum = vec![NO_DATA; self.feed.cells];
                    proof {
                        assert(self.feed.layers() =~= Seq::<Seq<u16>>::empty());
                    }
                }
                proof {
                    assert(self.feed.seen() =~= old(self).feed.seen());
                    if first_layer {
                        assert(self.feed.seen().drop_last() =~= Seq::<Seq<u16>>::empty());
                        assert(self.feed.seen().last().len() == 0);
                    }
                }
                Ok(())
            },
        }
    }

    pub fn next_len(&self) -> (n: usize)
        requires
            self.wf(),
            self.feed().in_layer(),
        ensures
            n == (if self.feed().left() > BLOCK {
                BLOCK as int
            } else {
                self.feed().left()
            }),
            n % 2 == 0,
    {
        self.feed.next_len()
    }

    pub fn absorb(&mut self, block: &[u8])
        requires
            old(self).wf(),
            old(self).feed().in_layer(),
            block@.len() <= old(self).feed().left(),
            block@.len() % 2 == 0,
        ensures
            final(self).wf(),
            final(self).feed().in_layer(),
            final(self).feed().spec_reference() == old(self).feed().spec_reference(),
            final(self).feed().spec_cells() == old(self).feed().spec_cells(),
            final(self).feed().layers() == old(self).feed().layers(),
            final(self).feed().json() == old(self).feed().json(),
            final(self).feed().current() == old(self).feed().current() + block@,
    {
        let ghost before = self.minimum@;
        let ghost layers = self.feed.layers();
        let ghost a = self.feed.current();
        proof {
            self.feed.lemma_wf();
        }
        let first: usize = self.feed.absorb(block);
        lower_block(&mut self.minimum, first, block);
        proof {
            assert forall|i: int| 0 <= i < self.minimum@.len() implies is_lowest(
                self.feed.seen(),
                i,
                #[trigger] self.minimum@[i],
            ) by {
                lemma_seen_step(a, block@, i);
                assert(is_lowest(layers.push(heights_of(a)), i, before[i]));
                lemma_lowest_step(
                    layers,
                    heights_of(a),
                    heights_of(a + block@),
                    i,
                    before[i],
                    self.minimum@[i],
                );
            }
        }
    }

    pub fn end_layer(&mut self, stored: &[u8], at_end: bool) -> (ended: Result<(), StorageError>)
        requires
            old(self).wf(),
            old(self).feed().in_layer(),
            old(self).feed().left() == 0,
        ensures
            ended is Ok <==> blake3_digest(
                hashed(RHGT_MAGIC@, old(self).feed().json(), old(self).feed().current()),
            ) == stored@ && at_end,
            ended matches Err(e) ==> *final(self) == *old(self) && e@ == (if blake3_digest(
                hashed(RHGT_MAGIC@, old(self).feed().json(), old(self).feed().current()),
            ) != stored@ {
                ErrorView::Checksum
            } else {
                ErrorView::Format("trailing bytes"@)
            }),
            ended is Ok ==> {
                &&& final(self).wf()
                &&& !final(self).feed().in_layer()
                &&& final(self).feed().spec_reference() == old(self).feed().spec_reference()
                &&& final(self).feed().spec_cells() == old(self).feed().spec_cells()
                &&& final(self).feed().layers() == old(self).feed().seen()
            },
    {
        match self.feed.end(stored, at_end) {
            Err(error) => Err(error),
            Ok(()) => {
                proof {
                    self.feed.lemma_wf();
                    assert forall|i: int| 0 <= i < self.minimum@.len() implies is_lowest(
                        self.feed.seen(),
                        i,
                        #[trigger] self.minimum@[i],
                    ) by {
                        assert(is_lowest(self.feed.layers(), i, self.minimum@[i]));
                        lemma_lowest_with_empty(
                            self.feed.layers(),
                            heights_of(self.feed.current()),
                            i,
                            self.minimum@[i],
                        );
                    }
                }
                Ok(())
            },
        }
    }

    /// The metadata of the first layer, and the lowest heights.
    pub fn finish(self) -> (fused: (Option<Metadata>, Vec<u16>))
        requires
            self.wf(),
            !self.feed().in_layer(),
        ensures
            fused.0 == self.feed().spec_reference(),
            fused.1@.len() == self.feed().spec_cells(),
            forall|i: int|
                0 <= i < fused.1@.len() ==> is_lowest(
                    self.feed().layers(),
                    i,
                    #[trigger] fused.1@[i],
                ),
    {
        proof {
            self.feed.lemma_wf();
            assert forall|i: int| 0 <= i < self.minimum@.len() implies is_lowest(
                self.feed.layers(),
                i,
                #[trigger] self.minimum@[i],
            ) by {
                assert(is_lowest(self.feed.seen(), i, self.minimum@[i]));
                lemma_lowest_with_empty(
                    self.feed.layers(),
                    heights_of(self.feed.current()),
                    i,
                    self.minimum@[i],
                );
            }
        }
        (self.feed.into_reference(), self.minimum)
    }
}

/// A height file and what its header says.
pub struct StoredLayer {
    pub metadata: Metadata,
    pub file: Vec<u8>,
}

/// The reason why a file cannot join layers on the grid of `reference`, if there
/// is one.
pub open spec fn stored_error(
    reference: Option<Metadata>,
    metadata: &Metadata,
    file: Seq<u8>,
) -> Option<ErrorView> {
    match prefix_error(file_prefix(file), file.len() as int, RHGT_MAGIC@) {
        Some(reason) => Some(ErrorView::Format(reason)),
        None => match layer_error(reference, metadata, declared(file_prefix(file)).payload_len) {
            Some(error) => Some(error),
            None => file_error(file, RHGT_MAGIC@),
        },
    }
}

/// The error of layer `l`: all layers lie on the grid of the first one.
pub open spec fn error_at(layers: Seq<StoredLayer>, l: int) -> Option<ErrorView> {
    let reference = if l == 0 {
        None
    } else {
        Some(layers[0].metadata)
    };
    stored_error(reference, &layers[l].metadata, layers[l].file@)
}

/// `error` is that of the first layer that has one.
pub open spec fn is_first_error(layers: Seq<StoredLayer>, error: ErrorView) -> bool {
    exists|l: int|
        0 <= l < layers.len() && #[trigger] error_at(layers, l) == Some(error) && forall|k: int|
            0 <= k < l ==> #[trigger] error_at(layers, k) is None
}

/// The heights of some files.
pub open spec fn stored_heights(layers: Seq<StoredLayer>) -> Seq<Seq<u16>> {
    layers.map_values(|layer: StoredLayer| heights_of(file_payload(layer.file@)))
}

impl CountFusion {
    /// Takes in a whole file, block by block.
    fn add_file(&mut self, metadata: &Metadata, file: &[u8]) -> (added: Result<
        (),
        StorageError,
    >)
        requires
            old(self).wf(),
            !old(self).feed().in_layer(),
        ensures
            added matches Err(e) ==> stored_error(
                old(self).feed().spec_reference(),
                metadata,
                file@,
            ) == Some(e@),
            added is Ok ==> {
                &&& stored_error(old(self).feed().spec_reference(), metadata, file@) is None
                &&& final(self).wf()
                &&& final(self).height() == old(self).height()
                &&& !final(self).feed().in_layer()
                &&& final(self).feed().spec_cells() == metadata.spec_cells()
                &&& final(self).feed().layers() == old(self).feed().layers().push(
                    heights_of(file_payload(file@)),
                )
                &&& final(self).feed().spec_reference() == (match old(
                    self,
                ).feed().spec_reference() {
                    Some(first) => Some(first),
                    None => Some(*metadata),
                })
            },
    {
        let (json, header) = match read_header(file, RHGT_MAGIC) {
            Ok(parts) => parts,
            Err(error) => {
                return Err(error);
            },
        };
        match self.begin_layer(metadata, json.as_slice(), header.payload_len) {
            Ok(()) => {},
            Err(error) => {
                return Err(error);
            },
        }
        let len: usize = file.len();
        let start: usize = PREFIX + header.json_len as usize;
        let mut at: usize = start;
        let ghost begun = *self;
        assert(file@.subrange(start as int, at as int) =~= Seq::<u8>::empty());
        while at < len - 32
            invariant
                len == file@.len(),
                start <= at <= len - 32,
                start == PREFIX + json@.len(),
                len - 32 - start == 2 * begun.feed().spec_cells(),
                self.wf(),
                self.height() == begun.height(),
                self.feed().in_layer(),
                self.feed().spec_reference() == begun.feed().spec_reference(),
                self.feed().spec_cells() == begun.feed().spec_cells(),
                self.feed().layers() == begun.feed().layers(),
                self.feed().json() == begun.feed().json(),
                self.feed().current() == file@.subrange(start as int, at as int),
            decreases len - at,
        {
            let n: usize = self.next_len();
            self.absorb(&file[at..at + n]);
            assert(file@.subrange(start as int, at as int) + file@.subrange(at as int, at + n)
                =~= file@.subrange(start as int, at + n));
            at = at + n;
        }
        self.end_layer(&file[len - 32..len], true)
    }
}

impl MinimumFusion {
    /// Takes in a whole file, block by block.
    fn add_file(&mut self, metadata: &Metadata, file: &[u8]) -> (added: Result<
        (),
        StorageError,
    >)
        requires
            old(self).wf(),
            !old(self).feed().in_layer(),
        ensures
            added matches Err(e) ==> stored_error(
                old(self).feed().spec_reference(),
                metadata,
                file@,
            ) == Some(e@),
            added is Ok ==> {
                &&& stored_error(old(self).feed().spec_reference(), metadata, file@) is None
                &&& final(self).wf()
                &&& !final(self).feed().in_layer()
                &&& final(self).feed().spec_cells() == metadata.spec_cells()
                &&& final(self).feed().layers() == old(self).feed().layers().push(
                    heights_of(file_payload(file@)),
                )
                &&& final(self).feed().spec_reference() == (match old(
                    self,
                ).feed().spec_reference() {
                    Some(first) => Some(first),
                    None => Some(*metadata),
                })
            },
    {
        let (json, header) = match read_header(file, RHGT_MAGIC) {
            Ok(parts) => parts,
            Err(error) => {
                return Err(error);
            },
        };
        match self.begin_layer(metadata, json.as_slice(), header.payload_len) {
            Ok(()) => {},
            Err(error) => {
                return Err(error);
            },
        }
        let len: usize = file.len();
        let start: usize = PREFIX + header.json_len as usize;
        let mut at: usize = start;
        let ghost begun = *self;
        assert(file@.subrange(start as int, at as int) =~= Seq::<u8>::empty());
        while at < len - 32
            invariant
                len == file@.len(),
                start <= at <= len - 32,
                start == PREFIX + json@.len(),
                len - 32 - start == 2 * begun.feed().spec_cells(),
                self.wf(),
                self.feed().in_layer(),
                self.feed().spec_reference() == begun.feed().spec_reference(),
                self.feed().spec_cells() == begun.feed().spec_cells(),
                self.feed().layers() == begun.feed().layers(),
                self.feed().json() == begun.feed().json(),
                self.feed().current() == file@.subrange(start as int, at as int),
            decreases len - at,
        {
            let n: usize = self.next_len();
            self.absorb(&file[at..at + n]);
            assert(file@.subrange(start as int, at as int) + file@.subrange(at as int, at + n)
                =~= file@.subrange(start as int, at + n));
            at = at + n;
        }
        self.end_layer(&file[len - 32..len], true)
    }
}

/// Fuses height files: how many of them see each cell at a height, up to 255.
pub fn merge_rhgt_counts_streaming(layers: &[StoredLayer], height: u16) -> (fused: Result<
    (Option<Metadata>, Vec<u8>),
    StorageError,
>)
    ensures
        fused matches Err(e) ==> is_first_error(layers@, e@),
        fused matches Ok((reference, cells)) ==> {
            &&& forall|l: int| 0 <= l < layers@.len() ==> #[trigger] error_at(layers@, l) is None
            &&& layers@.len() == 0 ==> reference is None && cells@.len() == 0
            &&& layers@.len() > 0 ==> reference == Some(layers@[0].metadata) && cells@.len()
                == layers@[0].metadata.spec_cells()
            &&& forall|i: int|
                0 <= i < cells@.len() ==> #[trigger] cells@[i] == saturated(
                    hits(stored_heights(layers@), height, i),
                )
        },
{
    let mut fusion = CountFusion::new(height);
    let mut l: usize = 0;
    assert(stored_heights(layers@.take(0)) =~= Seq::<Seq<u16>>::empty());
    proof {
        fusion.feed().lemma_wf();
    }
    while l < layers.len()
        invariant
            l <= layers@.len(),
            fusion.wf(),
            fusion.height() == height,
            !fusion.feed().in_layer(),
            fusion.feed().layers() == stored_heights(layers@.take(l as int)),
            fusion.feed().spec_reference() == (if l == 0 {
                None
            } else {
                Some(layers@[0].metadata)
            }),
            l == 0 ==> fusion.feed().spec_cells() == 0,
            l > 0 ==> fusion.feed().spec_cells() == layers@[0].metadata.spec_cells(),
            forall|k: int| 0 <= k < l ==> #[trigger] error_at(layers@, k) is None,
        decreases layers@.len() - l,
    {
        let layer = &layers[l];
        match fusion.add_file(&layer.metadata, layer.file.as_slice()) {
            Err(error) => {
                assert(error_at(layers@, l as int) == Some(error@));
                return Err(error);
            },
            Ok(()) => {},
        }
        assert(error_at(layers@, l as int) is None);
        assert(stored_heights(layers@.take(l + 1)) =~= stored_heights(layers@.take(l as int)).push(
            heights_of(file_payload(layer.file@)),
        ));
        l += 1;
    }
    assert(layers@.take(l as int) =~= layers@);
    Ok(fusion.finish())
}

/// Fuses height files: the best (lowest) known height of each cell.
pub fn merge_rhgt_minimum_streaming(layers: &[StoredLayer]) -> (fused: Result<
    (Option<Metadata>, Vec<u16>),
    StorageError,
>)
    ensures
        fused matches Err(e) ==> is_first_error(layers@, e@),
        fused matches Ok((reference, cells)) ==> {
            &&& forall|l: int| 0 <= l < layers@.len() ==> #[trigger] error_at(layers@, l) is None
            &&& layers@.len() == 0 ==> reference is None && cells@.len() == 0
            &&& layers@.len() > 0 ==> reference == Some(layers@[0].metadata) && cells@.len()
                == layers@[0].metadata.spec_cells()
            &&& forall|i: int|
                0 <= i < cells@.len() ==> is_lowest(
                    stored_heights(layers@),
                    i,
                    #[trigger] cells@[i],
                )
        },
{
    let mut fusion = MinimumFusion::new();
    let mut l: usize = 0;
    assert(stored_heights(layers@.take(0)) =~= Seq::<Seq<u16>>::empty());
    proof {
        fusion.feed().lemma_wf();
    }
    while l < layers.len()
        invariant
            l <= layers@.len(),
            fusion.wf(),
            !fusion.feed().in_layer(),
            fusion.feed().layers() == stored_heights(layers@.take(l as int)),
            fusion.feed().spec_reference() == (if l == 0 {
                None
            } else {
                Some(layers@[0].metadata)
            }),
            l == 0 ==> fusion.feed().spec_cells() == 0,
            l > 0 ==> fusion.feed().spec_cells() == layers@[0].metadata.spec_cells(),
            forall|k: int| 0 <= k < l ==> #[trigger] error_at(layers@, k) is None,
        decreases layers@.len() - l,
    {
        let layer = &layers[l];
        match fusion.add_file(&layer.metadata, layer.file.as_slice()) {
            Err(error) => {
                assert(error_at(layers@, l as int) == Some(error@));
                return Err(error);
            },
            Ok(()) => {},
        }
        assert(error_at(layers@, l as int) is None);
        assert(stored_heights(layers@.take(l + 1)) =~= stored_heights(layers@.take(l as int)).push(
            heights_of(file_payload(layer.file@)),
        ));
        l += 1;
    }
    assert(layers@.take(l as int) =~= layers@);
    Ok(fusion.finish())
}

proof fn lemma_hits_witness(layers: Seq<Seq<u16>>, height: u16, i: int)
    ensures
        hits(layers, height, i) > 0 <==> exists|l: int|
            0 <= l < layers.len() && i < (#[trigger] layers[l]).len() && visible_at(
                layers[l][i],
                height,
            ),
    decreases layers.len(),
{
    if layers.len() > 0 {
        let rest = layers.drop_last();
        lemma_hits_witness(rest, height, i);
        assert(forall|l: int| 0 <= l < rest.len() ==> rest[l] == layers[l]);
        let last = layers.len() - 1;
        if i < layers[last].len() && visible_at(layers[last][i], height) {
            assert(hits(layers, height, i) > 0);
        }
        if hits(rest, height, i) > 0 {
            let w = choose|l: int|
                0 <= l < rest.len() && i < (#[trigger] rest[l]).len() && visible_at(
                    rest[l][i],
                    height,
                );
            assert(visible_at(layers[w][i], height));
        }
        if exists|l: int|
            0 <= l < layers.len() && i < (#[trigger] layers[l]).len() && visible_at(
                layers[l][i],
                height,
            ) {
            let w = choose|l: int|
                0 <= l < layers.len() && i < (#[trigger] layers[l]).len() && visible_at(
                    layers[l][i],
                    height,
                );
            if w < last {
                assert(visible_at(rest[w][i], height));
            }
        }
    }
}

/// The two fusions agree: some layer sees a cell at a height exactly when the
/// lowest known height of the cell is not above it.
pub proof fn law_counts_agree_with_minimum(
    layers: Seq<Seq<u16>>,
    height: u16,
    i: int,
    lowest: u16,
)
    requires
        is_lowest(layers, i, lowest),
    ensures
        saturated(hits(layers, height, i)) > 0 <==> visible_at(lowest, height),
{
    lemma_hits_witness(layers, height, i);
    if visible_at(lowest, height) {
        let w = choose|l: int|
            0 <= l < layers.len() && i < (#[trigger] layers[l]).len() && layers[l][i] == lowest;
        assert(visible_at(layers[w][i], height));
    }
}

/// A greater height is seen by no fewer layers.
pub proof fn law_counts_grow_with_height(layers: Seq<Seq<u16>>, low: u16, high: u16, i: int)
    requires
        low <= high,
    ensures
        hits(layers, low, i) <= hits(layers, high, i) <= layers.len(),
        saturated(hits(layers, low, i)) <= saturated(hits(layers, high, i)),
    decreases layers.len(),
{
    if layers.len() > 0 {
        law_counts_grow_with_height(layers.drop_last(), low, high, i);
    }
}

/// The lowest height is the same in whatever order the layers are fused.
pub proof fn law_minimum_is_unique(a: Seq<Seq<u16>>, b: Seq<Seq<u16>>, i: int, x: u16, y: u16)
    requires
        forall|layer: Seq<u16>| a.contains(layer) <==> b.contains(layer),
        is_lowest(a, i, x),
        is_lowest(b, i, y),
    ensures
        x == y,
{
    lemma_lowest_below(a, b, i, x, y);
    lemma_lowest_below(b, a, i, y, x);
}

proof fn lemma_lowest_below(a: Seq<Seq<u16>>, b: Seq<Seq<u16>>, i: int, x: u16, y: u16)
    requires
        forall|layer: Seq<u16>| a.contains(layer) <==> b.contains(layer),
        is_lowest(a, i, x),
        is_lowest(b, i, y),
    ensures
        x <= y,
{
    if y != NO_DATA {
        let w = choose|l: int|
            0 <= l < b.len() && i < (#[trigger] b[l]).len() && b[l][i] == y;
        assert(b.contains(b[w]));
        let v = choose|l: int| 0 <= l < a.len() && a[l] == b[w];
        assert(x <= a[v][i]);
    }
}

/// A fused count is the number of layers whose known height for the cell is not
/// above the one asked for, as far as a byte counts.
pub proof fn law_count_is_the_number_of_layers_that_see(
    layers: Seq<Seq<u16>>,
    height: u16,
    i: int,
)
    ensures
        ({
            let number = how_many(
                layers.len(),
                |l: int|
                    i < layers[l].len() && layers[l][i] != 65535 && layers[l][i] <= height,
            );
            saturated(hits(layers, height, i)) == (if number < 255 {
                number as int
            } else {
                255
            })
        }),
{
    lemma_hits_are_counted(layers, height, i);
}

proof fn lemma_hits_are_counted(layers: Seq<Seq<u16>>, height: u16, i: int)
    ensures
        hits(layers, height, i) == how_many(
            layers.len(),
            |l: int| i < layers[l].len() && layers[l][i] != 65535 && layers[l][i] <= height,
        ),
    decreases layers.len(),
{
    if layers.len() > 0 {
        let rest = layers.drop_last();
        lemma_hits_are_counted(rest, height, i);
        lemma_how_many_agrees(
            rest.len(),
            |l: int| i < rest[l].len() && rest[l][i] != 65535 && rest[l][i] <= height,
            |l: int| i < layers[l].len() && layers[l][i] != 65535 && layers[l][i] <= height,
        );
    }
}

/// A fused minimum is no higher than any layer's, and is that of one of them, or
/// unknown where it is unknown in all.
pub proof fn law_minimum_is_the_lowest_of_the_layers(
    layers: Seq<Seq<u16>>,
    i: int,
    value: u16,
    l: int,
)
    requires
        is_lowest(layers, i, value),
        0 <= l < layers.len(),
        0 <= i < layers[l].len(),
    ensures
        value <= layers[l][i],
        value == 65535 ==> layers[l][i] == 65535,
        value < 65535 ==> exists|m: int|
            0 <= m < layers.len() && i < (#[trigger] layers[m]).len() && layers[m][i] == value,
{
}

/// A layer is taken just where its size can be counted, its payload has two bytes
/// for each cell, and its grid is that of the first layer.
pub proof fn law_layer_is_refused_for_cause(
    reference: Option<Metadata>,
    metadata: &Metadata,
    payload_len: u64,
)
    ensures
        layer_error(reference, metadata, payload_len) is None <==> {
            &&& metadata.width * metadata.height <= usize::MAX
            &&& payload_len == 2 * (metadata.width * metadata.height)
            &&& reference is None || reference->0.spec_same_grid(metadata)
        },
        layer_error(reference, metadata, payload_len) == Some(ErrorView::IncompatibleGrid)
            ==> reference is Some && !reference->0.spec_same_grid(metadata),
{
}

/// Heights are read in their order, two bytes each, the low one first.
pub proof fn law_heights_are_read_in_order(payload: Seq<u8>, i: int)
    requires
        0 <= i < payload.len() / 2,
    ensures
        heights_of(payload).len() == payload.len() / 2,
        heights_of(payload)[i] == payload[2 * i] + 256 * payload[2 * i + 1],
{
}

/// A fusion fails with the first layer that cannot be taken, and every layer before
/// it could. The first layer is held to no grid, and each other to the first one's.
pub proof fn law_first_bad_layer_is_reported(layers: Seq<StoredLayer>, error: ErrorView, l: int)
    requires
        is_first_error(layers, error),
        0 <= l < layers.len(),
        forall|k: int| 0 <= k < l ==> #[trigger] error_at(layers, k) is None,
        error_at(layers, l) is Some,
    ensures
        error_at(layers, l) == Some(error),
        l == 0 ==> stored_error(None, &layers[0].metadata, layers[0].file@) == Some(error),
        l > 0 ==> stored_error(
            Some(layers[0].metadata),
            &layers[l].metadata,
            layers[l].file@,
        ) == Some(error),
{
    let w = choose|w: int|
        0 <= w < layers.len() && #[trigger] error_at(layers, w) == Some(error) && forall|k: int|
            0 <= k < w ==> #[trigger] error_at(layers, k) is None;
    if w < l {
        assert(error_at(layers, w) is None);
    } else if l < w {
        assert(error_at(layers, l) is None);
    }
}

/// A stored layer is taken just where its file is intact and fits the first one.
pub proof fn law_intact_layers_are_taken(
    reference: Option<Metadata>,
    metadata: &Metadata,
    file: Seq<u8>,
)
    ensures
        stored_error(reference, metadata, file) is None <==> file_error(file, RHGT_MAGIC@) is None
            && layer_error(reference, metadata, declared(file_prefix(file)).payload_len) is None,
{
}

} // verus!
