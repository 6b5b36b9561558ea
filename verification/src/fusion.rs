//! Fused datasets: which radars they take, which files they hold, and how they
//! are named.
use crate::api::{id_text, public_error, says, spec_id_text, ApiError};
use crate::bytes::{law_le_round_trip, le_bytes, lemma_le_bytes_len, lemma_le_words_len, lemma_pow256,
    push_le};
use crate::digest::{blake3_digest, digest};
use crate::storage::{encode_heights, height_payload, law_heights_round_trip, Metadata};
use crate::text::{decimal, digits_value, law_decimal_is_read_back, lemma_decimal_digits, push_decimal, strip_prefix, strip_suffix,
    without_prefix, without_suffix};
use crate::wmts::source_of;
use vstd::arithmetic::power::{lemma_pow0, lemma_pow1, lemma_pow_adds, pow};
use vstd::prelude::*;
use vstd::string::*;

verus! {

pub open spec fn has_duplicates(ids: Seq<u128>) -> bool {
    exists|i: int, j: int| 0 <= i < j < ids.len() && #[trigger] ids[i] == #[trigger] ids[j]
}

pub open spec fn strictly_rising(ids: Seq<u128>) -> bool {
    forall|i: int, j: int| 0 <= i < j < ids.len() ==> #[trigger] ids[i] < #[trigger] ids[j]
}

/// Checks the selection of a fusion and puts it in order.
pub fn check_selection(ids: &[u128], max_radars: usize) -> (selection: Result<
    Vec<u128>,
    ApiError,
>)
    ensures
        match selection {
            Ok(sorted) => {
                &&& ids@.len() <= max_radars
                &&& !has_duplicates(ids@)
                &&& strictly_rising(sorted@)
                &&& sorted@.len() == ids@.len()
                &&& forall|id: u128| #[trigger] sorted@.contains(id) <==> ids@.contains(id)
            },
            Err(e) => if ids@.len() > max_radars {
                says(e, 400, "radar count")
            } else {
                has_duplicates(ids@) && says(e, 400, "duplicate radar id")
            },
        },
{
    if ids.len() > max_radars {
        return Err(public_error(400, "radar count"));
    }
    let mut sorted: Vec<u128> = Vec::new();
    let mut n: usize = 0;
    while n < ids.len()
        invariant
            n <= ids@.len() <= max_radars,
            sorted@.len() == n,
            strictly_rising(sorted@),
            forall|i: int, j: int| 0 <= i < j < n ==> ids@[i] != ids@[j],
            forall|i: int| 0 <= i < n ==> sorted@.contains(#[trigger] ids@[i]),
            forall|i: int|
                0 <= i < n ==> exists|j: int| 0 <= j < n && ids@[j] == #[trigger] sorted@[i],
        decreases ids@.len() - n,
    {
        let id: u128 = ids[n];
        let mut place: usize = 0;
        while place < sorted.len() && sorted[place] < id
            invariant
                place <= sorted@.len(),
                forall|i: int| 0 <= i < place ==> #[trigger] sorted@[i] < id,
            decreases sorted@.len() - place,
        {
            place += 1;
        }
        if place < sorted.len() && sorted[place] == id {
            proof {
                let j = choose|j: int| 0 <= j < n && ids@[j] == sorted@[place as int];
                assert(ids@[j] == ids@[n as int]);
            }
            return Err(public_error(400, "duplicate radar id"));
        }
        let ghost before = sorted@;
        proof {
            assert forall|i: int| 0 <= i < n implies ids@[i] != id by {
                assert(before.contains(ids@[i]));
                let k = choose|k: int| 0 <= k < before.len() && before[k] == ids@[i];
                if k > place {
                    assert(before[place as int] < before[k]);
                }
            }
        }
        sorted.insert(place, id);
        proof {
            assert(sorted@ =~= before.insert(place as int, id));
            assert forall|i: int, j: int| 0 <= i < j < sorted@.len() implies #[trigger] sorted@[i]
                < #[trigger] sorted@[j] by {
                let a = if i < place {
                    i
                } else {
                    i - 1
                };
                let b = if j < place {
                    j
                } else {
                    j - 1
                };
                if i != place && j != place {
                    assert(before[a] < before[b]);
                } else if i == place {
                    if b > place {
                        assert(before[place as int] < before[b]);
                    }
                }
            }
            assert forall|i: int| 0 <= i < n + 1 implies sorted@.contains(#[trigger] ids@[i]) by {
                if i == n {
                    assert(sorted@[place as int] == ids@[i]);
                } else {
                    assert(before.contains(ids@[i]));
                    let k = choose|k: int| 0 <= k < before.len() && before[k] == ids@[i];
                    if k < place {
                        assert(sorted@[k] == ids@[i]);
                    } else {
                        assert(sorted@[k + 1] == ids@[i]);
                    }
                }
            }
            assert forall|i: int| 0 <= i < n + 1 implies exists|j: int|
                0 <= j < n + 1 && ids@[j] == #[trigger] sorted@[i] by {
                if i == place {
                    assert(ids@[n as int] == sorted@[i]);
                } else {
                    let a = if i < place {
                        i
                    } else {
                        i - 1
                    };
                    let j = choose|j: int| 0 <= j < n && ids@[j] == before[a];
                    assert(ids@[j] == sorted@[i]);
                }
            }
        }
        n += 1;
    }
    proof {
        assert forall|id: u128| #[trigger] sorted@.contains(id) <==> ids@.contains(id) by {
            if sorted@.contains(id) {
                let i = choose|i: int| 0 <= i < sorted@.len() && sorted@[i] == id;
                let j = choose|j: int| 0 <= j < ids@.len() && ids@[j] == sorted@[i];
                assert(ids@[j] == id);
            }
            if ids@.contains(id) {
                let i = choose|i: int| 0 <= i < ids@.len() && ids@[i] == id;
                assert(sorted@.contains(ids@[i]));
            }
        }
    }
    Ok(sorted)
}

/// The order in which radars are selected does not matter: a selection has one
/// ordered form.
pub proof fn law_selection_order_is_irrelevant(a: Seq<u128>, b: Seq<u128>)
    requires
        strictly_rising(a),
        strictly_rising(b),
        forall|id: u128| a.contains(id) <==> b.contains(id),
    ensures
        a == b,
    decreases a.len(),
{
    if a.len() == 0 {
        if b.len() > 0 {
            assert(b.contains(b[0]));
        }
        assert(a =~= b);
    } else {
        let last = a.last();
        assert(a.contains(last));
        assert(b.contains(last));
        let at = choose|i: int| 0 <= i < b.len() && b[i] == last;
        if at < b.len() - 1 {
            assert(b.contains(b.last()));
            let from = choose|i: int| 0 <= i < a.len() && a[i] == b.last();
            assert(b[at] < b[b.len() - 1]);
            if from < a.len() - 1 {
                assert(a[from] < a[a.len() - 1]);
            }
        }
        let a2 = a.drop_last();
        let b2 = b.drop_last();
        assert forall|id: u128| a2.contains(id) <==> b2.contains(id) by {
            lemma_rising_drop_last(a, id);
            lemma_rising_drop_last(b, id);
        }
        law_selection_order_is_irrelevant(a2, b2);
        assert(a =~= a2.push(last));
        assert(b =~= b2.push(last));
    }
}

proof fn lemma_rising_drop_last(s: Seq<u128>, id: u128)
    requires
        strictly_rising(s),
        s.len() > 0,
    ensures
        s.drop_last().contains(id) <==> s.contains(id) && id != s.last(),
{
    let rest = s.drop_last();
    if rest.contains(id) {
        let i = choose|i: int| 0 <= i < rest.len() && rest[i] == id;
        assert(s[i] == id);
        assert(s[i] < s[s.len() - 1]);
    }
    if s.contains(id) && id != s.last() {
        let i = choose|i: int| 0 <= i < s.len() && s[i] == id;
        assert(rest[i] == id);
    }
}

/// The heights for which a dataset has a layer: four fixed ones, and the target
/// where it is another.
pub open spec fn layer_heights(target: u16) -> Seq<u16> {
    let fixed = seq![0u16, 30u16, 50u16, 100u16];
    if target == 0 || target == 30 || target == 50 || target == 100 {
        fixed
    } else {
        fixed.push(target)
    }
}

pub fn fusion_heights(target: u16) -> (heights: Vec<u16>)
    ensures
        heights@ == layer_heights(target),
{
    let mut heights: Vec<u16> = vec![0u16, 30u16, 50u16, 100u16];
    if !(target == 0 || target == 30 || target == 50 || target == 100) {
        heights.push(target);
    }
    assert(heights@ =~= layer_heights(target));
    heights
}

/// The file of the layer for a height.
pub open spec fn layer_file_text(height: u16) -> Seq<char> {
    if height == 0 {
        "ground.bin"@
    } else {
        "agl-"@ + decimal(height as nat) + "m.bin"@
    }
}

pub fn layer_file(height: u16) -> (name: String)
    ensures
        name@ == layer_file_text(height),
{
    if height == 0 {
        return "ground.bin".to_owned();
    }
    let mut name = "agl-".to_owned();
    push_decimal(&mut name, height as u64);
    name.append("m.bin");
    name
}

/// The files without which a dataset is not complete.
pub open spec fn required_file_texts(target: u16) -> Seq<Seq<char>> {
    seq![
        layer_file_text(0),
        layer_file_text(30),
        layer_file_text(50),
        layer_file_text(100),
        layer_file_text(target),
        "radar-count.bin"@,
        "min-detection-height.bin"@,
    ]
}

pub fn required_files(target: u16) -> (names: Vec<String>)
    ensures
        names@.map_values(|n: String| n@) == required_file_texts(target),
{
    let names: Vec<String> = vec![
        layer_file(0),
        layer_file(30),
        layer_file(50),
        layer_file(100),
        layer_file(target),
        "radar-count.bin".to_owned(),
        "min-detection-height.bin".to_owned(),
    ];
    assert(names@.map_values(|n: String| n@) =~= required_file_texts(target));
    names
}

/// A count layer as black and white: whether any radar sees a cell.
pub open spec fn mask_of(counts: Seq<u8>) -> Seq<u8> {
    counts.map_values(
        |c: u8|
            if c > 0 {
                255u8
            } else {
                0u8
            },
    )
}

pub fn boolean_layer(counts: &[u8]) -> (mask: Vec<u8>)
    ensures
        mask@ == mask_of(counts@),
{
    let mut mask: Vec<u8> = Vec::new();
    let mut i: usize = 0;
    while i < counts.len()
        invariant
            i <= counts@.len(),
            mask@ == mask_of(counts@).take(i as int),
        decreases counts@.len() - i,
    {
        mask.push(
            if counts[i] > 0 {
                255
            } else {
                0
            },
        );
        i += 1;
        assert(mask@ =~= mask_of(counts@).take(i as int));
    }
    assert(mask@ =~= mask_of(counts@));
    mask
}

/// The counts of one layer.
pub struct CountLayer {
    pub height: u16,
    pub counts: Vec<u8>,
}

/// A file of a dataset.
pub struct DatasetFile {
    pub name: String,
    pub bytes: Vec<u8>,
}

/// A file by its name and its bytes.
pub open spec fn file_view(file: DatasetFile) -> (Seq<char>, Seq<u8>) {
    (file.name@, file.bytes@)
}

/// The files of the first `n` layers: a mask for each, and the counts of the
/// layer for the target.
pub open spec fn layer_files(layers: Seq<CountLayer>, target: u16, n: nat) -> Seq<
    (Seq<char>, Seq<u8>),
>
    decreases n,
{
    if n == 0 {
        Seq::empty()
    } else {
        let layer = layers[n - 1];
        let before = layer_files(layers, target, (n - 1) as nat).push(
            (layer_file_text(layer.height), mask_of(layer.counts@)),
        );
        if layer.height == target {
            before.push(("radar-count.bin"@, layer.counts@))
        } else {
            before
        }
    }
}

/// All files of a dataset but its manifest, in the order in which they are
/// written.
pub open spec fn dataset_file_views(layers: Seq<CountLayer>, target: u16, minimum: Seq<u16>) -> Seq<
    (Seq<char>, Seq<u8>),
> {
    layer_files(layers, target, layers.len()).push(
        ("min-detection-height.bin"@, height_payload(minimum)),
    )
}

pub fn dataset_files(layers: &[CountLayer], target: u16, minimum: &[u16]) -> (files: Vec<
    DatasetFile,
>)
    ensures
        files@.map_values(|f: DatasetFile| file_view(f)) == dataset_file_views(
            layers@,
            target,
            minimum@,
        ),
{
    let mut files: Vec<DatasetFile> = Vec::new();
    let ghost view = |f: DatasetFile| file_view(f);
    let mut i: usize = 0;
    assert(files@.map_values(view) =~= layer_files(layers@, target, 0));
    while i < layers.len()
        invariant
            i <= layers@.len(),
            view == (|f: DatasetFile| file_view(f)),
            files@.map_values(view) == layer_files(layers@, target, i as nat),
        decreases layers@.len() - i,
    {
        let layer = &layers[i];
        let ghost start = files@;
        let mask = boolean_layer(layer.counts.as_slice());
        files.push(DatasetFile { name: layer_file(layer.height), bytes: mask });
        assert(files@.map_values(view) =~= start.map_values(view).push(
            (layer_file_text(layer.height), mask_of(layer.counts@)),
        ));
        if layer.height == target {
            let ghost middle = files@;
            let mut bytes: Vec<u8> = Vec::new();
            bytes.extend_from_slice(layer.counts.as_slice());
            assert(bytes@ =~= layer.counts@);
            files.push(DatasetFile { name: "radar-count.bin".to_owned(), bytes });
            assert(files@.map_values(view) =~= middle.map_values(view).push(
                ("radar-count.bin"@, layer.counts@),
            ));
        }
        i += 1;
    }
    let ghost before = files@;
    let bytes = encode_heights(minimum);
    files.push(DatasetFile { name: "min-detection-height.bin".to_owned(), bytes });
    assert(files@.map_values(view) =~= before.map_values(view).push(
        ("min-detection-height.bin"@, height_payload(minimum@)),
    ));
    files
}

/// A dataset with the layers of a target has every required file, so that the
/// same fusion finds it complete.
pub proof fn law_fused_dataset_is_complete(
    layers: Seq<CountLayer>,
    target: u16,
    minimum: Seq<u16>,
    r: int,
)
    requires
        layers.map_values(|l: CountLayer| l.height) == layer_heights(target),
        0 <= r < required_file_texts(target).len(),
    ensures
        exists|f: int|
            0 <= f < dataset_file_views(layers, target, minimum).len() && (
            #[trigger] dataset_file_views(layers, target, minimum)[f]).0 == required_file_texts(
                target,
            )[r],
{
    let files = dataset_file_views(layers, target, minimum);
    let name = required_file_texts(target)[r];
    let heights = layers.map_values(|l: CountLayer| l.height);
    assert(heights.len() == layers.len());
    if r == 6 {
        assert(files[files.len() - 1].0 == name);
    } else {
        // the layer whose file is asked for, and the one of the target
        let at: int = if r < 4 {
            r
        } else if target == 0 {
            0
        } else if target == 30 {
            1
        } else if target == 50 {
            2
        } else if target == 100 {
            3
        } else {
            4
        };
        assert(heights[at] == layer_heights(target)[at]);
        assert(heights[at] == layers[at].height);
        lemma_layer_file_at(layers, target, at, layers.len());
        let inner = layer_files(layers, target, layers.len());
        if r == 5 {
            let f = choose|f: int|
                0 <= f < inner.len() && (#[trigger] inner[f]).0 == "radar-count.bin"@;
            assert(files[f].0 == name);
        } else {
            let f = choose|f: int|
                0 <= f < inner.len() && (#[trigger] inner[f]).0 == layer_file_text(
                    layers[at].height,
                );
            assert(files[f].0 == name);
        }
    }
}

proof fn lemma_layer_file_at(layers: Seq<CountLayer>, target: u16, at: int, n: nat)
    requires
        0 <= at < n <= layers.len(),
    ensures
        exists|f: int|
            0 <= f < layer_files(layers, target, n).len() && (#[trigger] layer_files(
                layers,
                target,
                n,
            )[f]).0 == layer_file_text(layers[at].height),
        layers[at].height == target ==> exists|f: int|
            0 <= f < layer_files(layers, target, n).len() && (#[trigger] layer_files(
                layers,
                target,
                n,
            )[f]).0 == "radar-count.bin"@,
    decreases n,
{
    let before = layer_files(layers, target, (n - 1) as nat);
    let after = layer_files(layers, target, n);
    if at == n - 1 {
        assert(after[before.len() as int].0 == layer_file_text(layers[at].height));
        if layers[at].height == target {
            assert(after[before.len() as int + 1].0 == "radar-count.bin"@);
        }
    } else {
        lemma_layer_file_at(layers, target, at, (n - 1) as nat);
        assert(forall|f: int| 0 <= f < before.len() ==> after[f] == before[f]);
        let f = choose|f: int|
            0 <= f < before.len() && (#[trigger] before[f]).0 == layer_file_text(
                layers[at].height,
            );
        assert(after[f].0 == layer_file_text(layers[at].height));
        if layers[at].height == target {
            let g = choose|g: int|
                0 <= g < before.len() && (#[trigger] before[g]).0 == "radar-count.bin"@;
            assert(after[g].0 == "radar-count.bin"@);
        }
    }
}

/// The mask of a fused layer is white exactly where some radar sees the cell.
pub proof fn law_mask_shows_visible_cells(counts: Seq<u8>, i: int)
    requires
        0 <= i < counts.len(),
    ensures
        mask_of(counts).len() == counts.len(),
        mask_of(counts)[i] == 255 <==> counts[i] > 0,
        mask_of(counts)[i] == 0 <==> counts[i] == 0,
{
}

/// The bytes of `radial-fusion-v1`.
pub const FUSION_TAG: [u8; 16] = [
    114, 97, 100, 105, 97, 108, 45, 102, 117, 115, 105, 111, 110, 45, 118, 49,
];

/// Some byte strings, each after its length.
pub open spec fn framed(parts: Seq<Vec<u8>>) -> Seq<u8>
    decreases parts.len(),
{
    if parts.len() == 0 {
        Seq::empty()
    } else {
        le_bytes(parts.first()@.len(), 8) + parts.first()@ + framed(parts.drop_first())
    }
}

/// What the signature of a fusion covers: the target, and what the header of
/// each coverage says.
pub open spec fn signed_bytes(target: u16, headers: Seq<Vec<u8>>) -> Seq<u8> {
    FUSION_TAG@ + le_bytes(target as nat, 2) + framed(headers)
}

proof fn lemma_framed_push(parts: Seq<Vec<u8>>, last: Vec<u8>)
    ensures
        framed(parts.push(last)) == framed(parts) + le_bytes(last@.len(), 8) + last@,
    decreases parts.len(),
{
    if parts.len() == 0 {
        assert(parts.push(last).drop_first() =~= Seq::<Vec<u8>>::empty());
        assert(parts.push(last).first() == last);
        assert(framed(Seq::<Vec<u8>>::empty()) =~= Seq::<u8>::empty());
        assert(framed(parts) =~= Seq::<u8>::empty());
        assert(framed(parts.push(last)) =~= framed(parts) + le_bytes(last@.len(), 8) + last@);
    } else {
        lemma_framed_push(parts.drop_first(), last);
        assert(parts.push(last).drop_first() =~= parts.drop_first().push(last));
        assert(parts.push(last).first() == parts.first());
        assert(framed(parts.push(last)) =~= framed(parts) + le_bytes(last@.len(), 8) + last@);
    }
}

/// The signature of a fusion.
pub fn fusion_signature(target: u16, headers: &[Vec<u8>]) -> (signature: [u8; 32])
    ensures
        signature@ == blake3_digest(signed_bytes(target, headers@)),
{
    let mut input: Vec<u8> = Vec::new();
    input.extend_from_slice(FUSION_TAG.as_slice());
    assert(input@ =~= FUSION_TAG@);
    push_le(&mut input, target as u64, 2);
    let ghost head = input@;
    let mut i: usize = 0;
    assert(headers@.take(0) =~= Seq::<Vec<u8>>::empty());
    assert(input@ =~= head + framed(headers@.take(0)));
    while i < headers.len()
        invariant
            i <= headers@.len(),
            head == FUSION_TAG@ + le_bytes(target as nat, 2),
            input@ == head + framed(headers@.take(i as int)),
        decreases headers@.len() - i,
    {
        proof {
            lemma_framed_push(headers@.take(i as int), headers@[i as int]);
            assert(headers@.take(i + 1) =~= headers@.take(i as int).push(headers@[i as int]));
        }
        push_le(&mut input, headers[i].len() as u64, 8);
        input.extend_from_slice(headers[i].as_slice());
        i += 1;
        assert(input@ =~= head + framed(headers@.take(i as int)));
    }
    assert(headers@.take(i as int) =~= headers@);
    digest(input.as_slice())
}

/// Different fusions sign different bytes: the target and every header can be
/// read back from them.
pub proof fn law_signature_covers_everything(
    target: u16,
    headers: Seq<Vec<u8>>,
    other_target: u16,
    other_headers: Seq<Vec<u8>>,
)
    requires
        signed_bytes(target, headers) == signed_bytes(other_target, other_headers),
        forall|i: int| 0 <= i < headers.len() ==> (#[trigger] headers[i])@.len() <= u64::MAX,
        forall|i: int|
            0 <= i < other_headers.len() ==> (#[trigger] other_headers[i])@.len() <= u64::MAX,
    ensures
        target == other_target,
        headers.map_values(|h: Vec<u8>| h@) == other_headers.map_values(|h: Vec<u8>| h@),
{
    let a = signed_bytes(target, headers);
    let b = signed_bytes(other_target, other_headers);
    lemma_pow256();
    law_le_round_trip(target as nat, 2);
    law_le_round_trip(other_target as nat, 2);
    assert(a.subrange(16, 18) =~= le_bytes(target as nat, 2));
    assert(b.subrange(16, 18) =~= le_bytes(other_target as nat, 2));
    assert(a.skip(18) =~= framed(headers));
    assert(b.skip(18) =~= framed(other_headers));
    lemma_framed_injective(headers, other_headers);
}

proof fn lemma_framed_injective(a: Seq<Vec<u8>>, b: Seq<Vec<u8>>)
    requires
        framed(a) == framed(b),
        forall|i: int| 0 <= i < a.len() ==> (#[trigger] a[i])@.len() <= u64::MAX,
        forall|i: int| 0 <= i < b.len() ==> (#[trigger] b[i])@.len() <= u64::MAX,
    ensures
        a.map_values(|h: Vec<u8>| h@) == b.map_values(|h: Vec<u8>| h@),
    decreases a.len(),
{
    lemma_pow256();
    if a.len() == 0 || b.len() == 0 {
        if a.len() > 0 {
            lemma_le_bytes_len(a.first()@.len(), 8);
            assert(framed(a).len() >= 8);
        }
        if b.len() > 0 {
            lemma_le_bytes_len(b.first()@.len(), 8);
            assert(framed(b).len() >= 8);
        }
        assert(a.map_values(|h: Vec<u8>| h@) =~= b.map_values(|h: Vec<u8>| h@));
    } else {
        let n = a.first()@.len();
        let m = b.first()@.len();
        let end = 8 + n as int;
        assert(a[0]@.len() <= u64::MAX && b[0]@.len() <= u64::MAX);
        law_le_round_trip(n, 8);
        law_le_round_trip(m, 8);
        assert(framed(a).take(8) =~= le_bytes(n, 8));
        assert(framed(b).take(8) =~= le_bytes(m, 8));
        assert(n == m);
        assert(framed(a).subrange(8, end) =~= a.first()@);
        assert(framed(b).subrange(8, end) =~= b.first()@);
        assert(framed(a).skip(end) =~= framed(a.drop_first()));
        assert(framed(b).skip(end) =~= framed(b.drop_first()));
        lemma_framed_injective(a.drop_first(), b.drop_first());
        let va = a.map_values(|h: Vec<u8>| h@);
        let vb = b.map_values(|h: Vec<u8>| h@);
        let ta = a.drop_first().map_values(|h: Vec<u8>| h@);
        let tb = b.drop_first().map_values(|h: Vec<u8>| h@);
        assert(va =~= seq![a.first()@] + ta);
        assert(vb =~= seq![b.first()@] + tb);
    }
}

/// The sixteen bytes of a dataset's identifier: the beginning of its signature,
/// marked as a name-based identifier.
pub open spec fn id_bytes(signature: Seq<u8>) -> Seq<u8> {
    Seq::new(
        16,
        |i: int|
            if i == 6 {
                (signature[6] % 16 + 0x50) as u8
            } else if i == 8 {
                (signature[8] % 64 + 0x80) as u8
            } else {
                signature[i]
            },
    )
}

/// The number that some bytes hold, most significant byte first.
pub open spec fn be_value(bytes: Seq<u8>) -> nat
    decreases bytes.len(),
{
    if bytes.len() == 0 {
        0
    } else {
        256 * be_value(bytes.drop_last()) + bytes.last() as nat
    }
}

proof fn lemma_be_value_bound(bytes: Seq<u8>, limit: nat)
    requires
        limit == vstd::arithmetic::power::pow(256, bytes.len()),
    ensures
        be_value(bytes) < limit,
    decreases bytes.len(),
{
    if bytes.len() == 0 {
        vstd::arithmetic::power::lemma_pow0(256);
    } else {
        let n = bytes.len();
        vstd::arithmetic::power::lemma_pow_adds(256, (n - 1) as nat, 1);
        vstd::arithmetic::power::lemma_pow1(256);
        vstd::arithmetic::power::lemma_pow_positive(256, (n - 1) as nat);
        lemma_be_value_bound(
            bytes.drop_last(),
            vstd::arithmetic::power::pow(256, (n - 1) as nat) as nat,
        );
    }
}

/// The identifier of a dataset.
pub fn uuid_from_hash(signature: &[u8; 32]) -> (id: u128)
    ensures
        id == be_value(id_bytes(signature@)),
{
    let ghost bytes = id_bytes(signature@);
    let mut id: u128 = 0;
    let mut i: usize = 0;
    assert(bytes.take(0) =~= Seq::<u8>::empty());
    while i < 16
        invariant
            i <= 16,
            bytes == id_bytes(signature@),
            id == be_value(bytes.take(i as int)),
        decreases 16 - i,
    {
        let byte: u8 = if i == 6 {
            signature[6] % 16 + 0x50
        } else if i == 8 {
            signature[8] % 64 + 0x80
        } else {
            signature[i]
        };
        proof {
            assert(byte == bytes[i as int]);
            assert(bytes.take(i + 1).drop_last() =~= bytes.take(i as int));
            vstd::arithmetic::power::lemma_pow_positive(256, (i + 1) as nat);
            lemma_be_value_bound(
                bytes.take(i + 1),
                vstd::arithmetic::power::pow(256, (i + 1) as nat) as nat,
            );
            assert(vstd::arithmetic::power::pow(256, 16)
                == 0x1_0000_0000_0000_0000_0000_0000_0000_0000) by {
                reveal(vstd::arithmetic::power::pow);
                reveal_with_fuel(vstd::arithmetic::power::pow, 17);
            }
            if i + 1 < 16 {
                vstd::arithmetic::power::lemma_pow_strictly_increases(256, (i + 1) as nat, 16);
            }
        }
        id = 256 * id + byte as u128;
        i += 1;
    }
    assert(bytes.take(16) =~= bytes);
    id
}

/// The identifier of a dataset is marked as version 5 of the standard variant.
pub proof fn law_dataset_id_is_name_based(signature: Seq<u8>)
    requires
        signature.len() == 32,
    ensures
        id_bytes(signature)[6] as int / 16 == 5,
        id_bytes(signature)[8] as int / 64 == 2,
{
}

/// A file of the result directory, with the time of its last change where that
/// is known.
pub struct Candidate {
    pub name: String,
    pub modified: Option<u128>,
}

/// A file holds heights of a radar, and its time is known.
pub open spec fn is_heights_of(candidate: Candidate, radar: u128) -> bool {
    &&& candidate.modified is Some
    &&& without_prefix(candidate.name@, spec_id_text(radar) + "-"@) is Some
    &&& without_suffix(candidate.name@, ".rhgt"@) is Some
}

/// `latest` is the most recent height file of a radar; the last of several with
/// the same time.
pub open spec fn is_latest_heights(
    candidates: Seq<Candidate>,
    radar: u128,
    latest: Option<int>,
) -> bool {
    match latest {
        None => forall|i: int|
            0 <= i < candidates.len() ==> !is_heights_of(#[trigger] candidates[i], radar),
        Some(l) => {
            &&& 0 <= l < candidates.len()
            &&& is_heights_of(candidates[l], radar)
            &&& forall|i: int|
                0 <= i < candidates.len() && is_heights_of(#[trigger] candidates[i], radar)
                    ==> candidates[i].modified->0 < candidates[l].modified->0 || (
                candidates[i].modified->0 == candidates[l].modified->0 && i <= l)
        },
    }
}

/// Finds the most recent height file of a radar.
pub fn latest_rhgt(candidates: &[Candidate], radar: u128) -> (latest: Option<usize>)
    ensures
        is_latest_heights(
            candidates@,
            radar,
            match latest {
                Some(l) => Some(l as int),
                None => None,
            },
        ),
{
    let mut prefix = id_text(radar);
    prefix.append("-");
    let mut latest: Option<(usize, u128)> = None;
    let mut i: usize = 0;
    while i < candidates.len()
        invariant
            i <= candidates@.len(),
            prefix@ == spec_id_text(radar) + "-"@,
            match latest {
                Some((l, time)) => l < i && candidates@[l as int].modified == Some(time)
                    && is_heights_of(candidates@[l as int], radar) && forall|j: int|
                    0 <= j < i && is_heights_of(#[trigger] candidates@[j], radar)
                        ==> candidates@[j].modified->0 < time || (candidates@[j].modified->0
                        == time && j <= l),
                None => forall|j: int|
                    0 <= j < i ==> !is_heights_of(#[trigger] candidates@[j], radar),
            },
        decreases candidates@.len() - i,
    {
        match candidates[i].modified {
            Some(time) => {
                let name = candidates[i].name.as_str();
                if strip_prefix(name, prefix.as_str()).is_some() && strip_suffix(
                    name,
                    ".rhgt",
                ).is_some() {
                    let newer = match latest {
                        Some((_, best)) => time >= best,
                        None => true,
                    };
                    if newer {
                        latest = Some((i, time));
                    }
                }
            },
            None => {},
        }
        i += 1;
    }
    match latest {
        Some((l, _)) => Some(l),
        None => None,
    }
}

/// Two headers say the same; two missing ones too.
pub open spec fn same_metadata(a: Option<Metadata>, b: Option<Metadata>) -> bool {
    match (a, b) {
        (Some(x), Some(y)) => x.same_as(&y),
        (None, None) => true,
        _ => false,
    }
}

/// Refuses terrain that was not stored with the fused coverages.
pub fn check_terrain(fused: &Option<Metadata>, terrain: &Option<Metadata>) -> (checked: Result<
    (),
    ApiError,
>)
    ensures
        checked is Ok <==> same_metadata(*fused, *terrain),
        checked matches Err(e) ==> says(e, 422, "terrain grid is incompatible"),
{
    let same = match (fused, terrain) {
        (Some(x), Some(y)) => x.equals(y),
        (None, None) => true,
        _ => false,
    };
    if same {
        Ok(())
    } else {
        Err(public_error(422, "terrain grid is incompatible"))
    }
}

/// The name under which a layer is served.
pub open spec fn layer_name_text(height: u16) -> Seq<char> {
    if height == 0 {
        "ground"@
    } else {
        "agl-"@ + decimal(height as nat) + "m"@
    }
}

/// The layer that a dataset stores for a height is the one that is served under
/// the name of that height.
pub proof fn law_stored_layers_are_served(height: u16)
    ensures
        source_of(layer_name_text(height)) == Some(layer_file_text(height)),
{
    reveal_strlit("ground");
    reveal_strlit("ground.bin");
    reveal_strlit("radar-count");
    reveal_strlit("min-detection-height");
    reveal_strlit("agl-");
    reveal_strlit("m");
    reveal_strlit("m.bin");
    reveal_strlit("agl-30m");
    reveal_strlit("agl-50m");
    reveal_strlit("agl-100m");
    reveal_strlit("agl-30m.bin");
    reveal_strlit("agl-50m.bin");
    reveal_strlit("agl-100m.bin");
    let name = layer_name_text(height);
    if height == 0 {
        assert("ground"@[0] != "radar-count"@[0]);
    } else {
        let digits = decimal(height as nat);
        law_decimal_is_read_back(height as nat, 65535);
        assert(name[0] == 'a');
        assert(name != "radar-count"@ && name != "ground"@ && name != "min-detection-height"@) by {
            assert("radar-count"@[0] == 'r');
            assert("ground"@[0] == 'g');
            assert("min-detection-height"@[0] == 'm');
        }
        assert(name.skip(4) =~= digits + "m"@);
        assert(name.take(4) =~= "agl-"@);
        assert((digits + "m"@).take(digits.len() as int) =~= digits);
        assert((digits + "m"@).skip(digits.len() as int) =~= "m"@);
        assert(name =~= (name.take(name.len() - 1)) + "m"@);
        if name == "agl-30m"@ {
            assert(layer_file_text(height) =~= "agl-30m.bin"@) by {
                assert(digits =~= "agl-30m"@.subrange(4, 6));
            }
        } else if name == "agl-50m"@ {
            assert(layer_file_text(height) =~= "agl-50m.bin"@) by {
                assert(digits =~= "agl-50m"@.subrange(4, 6));
            }
        } else if name == "agl-100m"@ {
            assert(layer_file_text(height) =~= "agl-100m.bin"@) by {
                assert(digits =~= "agl-100m"@.subrange(4, 7));
            }
        }
    }
}

/// Each layer of a fused dataset has its file: it is named for the layer's height,
/// is as long as the layer, and holds 255 at each cell where that same layer's
/// count is positive, and 0 at each other cell.
pub proof fn law_layer_file_holds_its_own_mask(
    layers: Seq<CountLayer>,
    target: u16,
    minimum: Seq<u16>,
    at: int,
)
    requires
        0 <= at < layers.len(),
    ensures
        exists|f: int|
            {
                &&& 0 <= f < dataset_file_views(layers, target, minimum).len()
                &&& (#[trigger] dataset_file_views(layers, target, minimum)[f]).0
                    == layer_file_text(layers[at].height)
                &&& dataset_file_views(layers, target, minimum)[f].1.len()
                    == layers[at].counts@.len()
                &&& forall|i: int|
                    0 <= i < layers[at].counts@.len() ==> #[trigger] dataset_file_views(
                        layers,
                        target,
                        minimum,
                    )[f].1[i] == (if layers[at].counts@[i] > 0 {
                        255u8
                    } else {
                        0u8
                    })
            },
        layers[at].height == target ==> exists|f: int|
            0 <= f < dataset_file_views(layers, target, minimum).len() && (
            #[trigger] dataset_file_views(layers, target, minimum)[f]) == (
                "radar-count.bin"@,
                layers[at].counts@,
            ),
{
    lemma_layer_file_bytes(layers, target, at, layers.len());
    let inner = layer_files(layers, target, layers.len());
    let files = dataset_file_views(layers, target, minimum);
    assert(forall|f: int| 0 <= f < inner.len() ==> #[trigger] files[f] == inner[f]);
    let f = choose|f: int|
        0 <= f < inner.len() && #[trigger] inner[f] == (
            layer_file_text(layers[at].height),
            mask_of(layers[at].counts@),
        );
    assert(files[f] == inner[f]);
    if layers[at].height == target {
        let g = choose|g: int|
            0 <= g < inner.len() && #[trigger] inner[g] == ("radar-count.bin"@, layers[at].counts@);
        assert(files[g] == inner[g]);
    }
}

proof fn lemma_layer_file_bytes(layers: Seq<CountLayer>, target: u16, at: int, n: nat)
    requires
        0 <= at < n <= layers.len(),
    ensures
        exists|f: int|
            0 <= f < layer_files(layers, target, n).len() && #[trigger] layer_files(
                layers,
                target,
                n,
            )[f] == (layer_file_text(layers[at].height), mask_of(layers[at].counts@)),
        layers[at].height == target ==> exists|f: int|
            0 <= f < layer_files(layers, target, n).len() && #[trigger] layer_files(
                layers,
                target,
                n,
            )[f] == ("radar-count.bin"@, layers[at].counts@),
    decreases n,
{
    let before = layer_files(layers, target, (n - 1) as nat);
    let after = layer_files(layers, target, n);
    let mask = (layer_file_text(layers[at].height), mask_of(layers[at].counts@));
    let counts = ("radar-count.bin"@, layers[at].counts@);
    if at == n - 1 {
        assert(after[before.len() as int] == mask);
        if layers[at].height == target {
            assert(after[before.len() as int + 1] == counts);
        }
    } else {
        lemma_layer_file_bytes(layers, target, at, (n - 1) as nat);
        assert(forall|f: int| 0 <= f < before.len() ==> after[f] == before[f]);
        let f = choose|f: int| 0 <= f < before.len() && #[trigger] before[f] == mask;
        assert(after[f] == mask);
        if layers[at].height == target {
            let g = choose|g: int| 0 <= g < before.len() && #[trigger] before[g] == counts;
            assert(after[g] == counts);
        }
    }
}

/// Every file of a fused dataset is one of these: the mask of a layer under that
/// layer's name, the counts of the target's layer, or the minimum heights.
pub proof fn law_dataset_holds_nothing_else(
    layers: Seq<CountLayer>,
    target: u16,
    minimum: Seq<u16>,
    f: int,
)
    requires
        0 <= f < dataset_file_views(layers, target, minimum).len(),
    ensures
        ({
            let (name, bytes) = dataset_file_views(layers, target, minimum)[f];
            ||| name == "min-detection-height.bin"@ && bytes.len() == 2 * minimum.len() && forall|
                i: int,
            |
                0 <= i < minimum.len() ==> #[trigger] minimum[i] == bytes[2 * i] + 256 * bytes[2 * i
                    + 1]
            ||| name == "radar-count.bin"@ && exists|at: int|
                0 <= at < layers.len() && (#[trigger] layers[at]).height == target
                    && layers[at].counts@ == bytes
            ||| exists|at: int|
                0 <= at < layers.len() && name == layer_file_text((#[trigger] layers[at]).height)
                    && bytes.len() == layers[at].counts@.len() && forall|i: int|
                    0 <= i < bytes.len() ==> #[trigger] bytes[i] == (if layers[at].counts@[i] > 0 {
                        255u8
                    } else {
                        0u8
                    })
        }),
{
    let inner = layer_files(layers, target, layers.len());
    let (name, bytes) = dataset_file_views(layers, target, minimum)[f];
    if f < inner.len() {
        lemma_layer_file_source(layers, target, f, layers.len());
    } else {
        lemma_heights_bytes(minimum);
    }
}

proof fn lemma_layer_file_source(layers: Seq<CountLayer>, target: u16, f: int, n: nat)
    requires
        n <= layers.len(),
        0 <= f < layer_files(layers, target, n).len(),
    ensures
        ({
            let file = layer_files(layers, target, n)[f];
            ||| exists|at: int|
                0 <= at < n && (#[trigger] layers[at]).height == target && file == (
                    "radar-count.bin"@,
                    layers[at].counts@,
                )
            ||| exists|at: int|
                0 <= at < n && file == (
                    layer_file_text((#[trigger] layers[at]).height),
                    mask_of(layers[at].counts@),
                )
        }),
    decreases n,
{
    if n > 0 {
        let before = layer_files(layers, target, (n - 1) as nat);
        if f < before.len() {
            lemma_layer_file_source(layers, target, f, (n - 1) as nat);
        } else {
            assert(layers[n - 1] == layers[n - 1]);
        }
    }
}

proof fn lemma_heights_bytes(heights: Seq<u16>)
    ensures
        height_payload(heights).len() == 2 * heights.len(),
        forall|i: int|
            0 <= i < heights.len() ==> #[trigger] heights[i] == height_payload(heights)[2 * i] + 256
                * height_payload(heights)[2 * i + 1],
{
    lemma_le_words_len(heights.map_values(|h: u16| h as nat), 2);
    assert forall|i: int| 0 <= i < heights.len() implies #[trigger] heights[i] == height_payload(
        heights,
    )[2 * i] + 256 * height_payload(heights)[2 * i + 1] by {
        law_heights_round_trip(heights, i);
    }
}

/// The layers of a dataset are the ground, three fixed heights and the target,
/// none of them twice.
pub proof fn law_layers_hold_the_target_once(target: u16, i: int, j: int)
    requires
        0 <= i < j < layer_heights(target).len(),
    ensures
        layer_heights(target).contains(target),
        layer_heights(target).contains(0),
        layer_heights(target).contains(30),
        layer_heights(target).contains(50),
        layer_heights(target).contains(100),
        layer_heights(target)[i] != layer_heights(target)[j],
        layer_heights(target).len() <= 5,
{
    let heights = layer_heights(target);
    assert(heights[0] == 0 && heights[1] == 30 && heights[2] == 50 && heights[3] == 100);
    if target != 0 && target != 30 && target != 50 && target != 100 {
        assert(heights[4] == target);
    }
}

/// Files of different heights have different names, and neither is named like the
/// counts or the minimum heights. The number in a name is the height.
pub proof fn law_layer_names_tell_the_height(height: u16, other: u16)
    ensures
        layer_file_text(height) == layer_file_text(other) ==> height == other,
        layer_file_text(height) != "radar-count.bin"@,
        layer_file_text(height) != "min-detection-height.bin"@,
        height > 0 ==> {
            let name = layer_file_text(height);
            digits_value(name.subrange(4, name.len() - 5)) == height
        },
{
    reveal_strlit("ground.bin");
    reveal_strlit("agl-");
    reveal_strlit("m.bin");
    reveal_strlit("radar-count.bin");
    reveal_strlit("min-detection-height.bin");
    lemma_layer_digits(height);
    lemma_layer_digits(other);
    let (a, b) = (layer_file_text(height), layer_file_text(other));
    assert(a[0] == (if height == 0 {
        'g'
    } else {
        'a'
    }));
    assert(b[0] == (if other == 0 {
        'g'
    } else {
        'a'
    }));
    assert("radar-count.bin"@[0] == 'r');
    assert("min-detection-height.bin"@[0] == 'm');
}

proof fn lemma_layer_digits(height: u16)
    ensures
        height > 0 ==> {
            let name = layer_file_text(height);
            name.len() >= 9 && digits_value(name.subrange(4, name.len() - 5)) == height
        },
{
    if height > 0 {
        reveal_strlit("agl-");
        reveal_strlit("m.bin");
        let name = layer_file_text(height);
        let digits = decimal(height as nat);
        lemma_decimal_digits(height as nat);
        assert(name.subrange(4, name.len() - 5) =~= digits);
    }
}

/// The identifier of a dataset is read from its bytes, the highest first: what
/// stands before other bytes counts as many times more.
pub proof fn law_high_bytes_come_first(high: Seq<u8>, low: Seq<u8>)
    ensures
        be_value(high + low) == be_value(high) * pow(256, low.len()) + be_value(low),
        low.len() == 1 ==> be_value(low) == low[0],
    decreases low.len(),
{
    if low.len() == 0 {
        lemma_pow0(256);
        assert(high + low =~= high);
        assert(be_value(low) == 0);
    } else {
        let rest = low.drop_last();
        law_high_bytes_come_first(high, rest);
        assert((high + low).drop_last() =~= high + rest);
        assert((high + low).last() == low.last());
        lemma_pow_adds(256, 1, rest.len());
        lemma_pow1(256);
        let (h, p, r) = (be_value(high) as int, pow(256, rest.len()), be_value(rest) as int);
        assert(256 * (h * p + r) == h * (256 * p) + 256 * r) by (nonlinear_arith);
        if low.len() == 1 {
            assert(be_value(rest) == 0);
        }
    }
}

/// But for the marks of version and variant, the identifier of a dataset is the
/// beginning of its signature.
pub proof fn law_dataset_id_begins_the_signature(signature: Seq<u8>, i: int)
    requires
        signature.len() == 32,
        0 <= i < 16,
    ensures
        id_bytes(signature).len() == 16,
        i != 6 && i != 8 ==> id_bytes(signature)[i] == signature[i],
        id_bytes(signature)[6] as int % 16 == signature[6] as int % 16,
        id_bytes(signature)[8] as int % 64 == signature[8] as int % 64,
{
}

} // verus!
