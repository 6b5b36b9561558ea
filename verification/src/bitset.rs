//! Fixed-length bitsets and saturating fusion of several of them.
use vstd::arithmetic::power2::pow2;
use vstd::bits::lemma_u64_shr_is_div;
use vstd::prelude::*;

verus! {

/// Bit `b` of a word, counted from the least significant one.
pub open spec fn bit_of(word: u64, b: int) -> bool {
    (word >> (b as u64)) & 1u64 == 1u64
}

/// Bit `i` of a sequence of words, in which word `i / 64` holds bit `i`.
pub open spec fn word_bit(words: Seq<u64>, i: int) -> bool {
    0 <= i < 64 * words.len() && bit_of(words[i / 64], i % 64)
}

/// The number of words that hold `len` bits.
pub open spec fn words_for(len: int) -> int {
    (len + 63) / 64
}

/// How many of the lowest `n` bits of `word` are set.
pub open spec fn word_ones(word: u64, n: nat) -> nat
    decreases n,
{
    if n == 0 {
        0
    } else {
        word_ones(word, (n - 1) as nat) + if bit_of(word, n - 1) {
            1nat
        } else {
            0nat
        }
    }
}

/// How many bits are set in all the words together.
pub open spec fn total_ones(words: Seq<u64>) -> nat
    decreases words.len(),
{
    if words.len() == 0 {
        0
    } else {
        total_ones(words.drop_last()) + word_ones(words.last(), 64)
    }
}

/// How many entries of a sequence are true.
pub open spec fn count_true(s: Seq<bool>) -> nat
    decreases s.len(),
{
    if s.len() == 0 {
        0
    } else {
        count_true(s.drop_last()) + if s.last() {
            1nat
        } else {
            0nat
        }
    }
}

/// `u64::count_ones`: the number of bits that are set in the word.
pub assume_specification[ u64::count_ones ](word: u64) -> (n: u32)
    ensures
        n == word_ones(word, 64),
;

/// A set of cell indices below a fixed length, one bit per index.
#[derive(Clone, Debug, PartialEq, Eq)]
pub struct BitSet {
    len: usize,
    words: Vec<u64>,
}

impl View for BitSet {
    type V = Seq<bool>;

    /// Membership of each index below the length.
    open spec fn view(&self) -> Seq<bool> {
        Seq::new(self.spec_len() as nat, |i: int| word_bit(self.spec_words(), i))
    }
}

impl BitSet {
    pub closed spec fn spec_len(&self) -> usize {
        self.len
    }

    pub closed spec fn spec_words(&self) -> Seq<u64> {
        self.words@
    }

    /// There is a word for every bit, and no word more.
    pub open spec fn wf(&self) -> bool {
        self.spec_words().len() == words_for(self.spec_len() as int)
    }

    /// No bit is set at or beyond the length.
    pub open spec fn tail_clear(&self) -> bool {
        forall|i: int| #![trigger word_bit(self.spec_words(), i)]
            i >= self.spec_len() ==> !word_bit(self.spec_words(), i)
    }

    pub fn new(len: usize) -> (set: Self)
        ensures
            set.wf(),
            set.tail_clear(),
            set.spec_len() == len,
            set@ =~= Seq::new(len as nat, |i: int| false),
            set.spec_words() =~= Seq::new(words_for(len as int) as nat, |i: int| 0u64),
    {
        let count: usize = if len % 64 == 0 {
            len / 64
        } else {
            len / 64 + 1
        };
        let set = BitSet { len, words: vec![0u64; count] };
        proof {
            assert forall|i: int| !#[trigger] word_bit(set.spec_words(), i) by {
                let b = (i % 64) as u64;
                assert((0u64 >> b) & 1u64 == 0u64) by (bit_vector);
            }
        }
        set
    }

    pub fn len(&self) -> (n: usize)
        ensures
            n == self.spec_len(),
            n == self@.len(),
    {
        self.len
    }

    pub fn is_empty(&self) -> (b: bool)
        ensures
            b <==> self@.len() == 0,
    {
        self.len == 0
    }

    pub fn words(&self) -> (words: &[u64])
        ensures
            words@ == self.spec_words(),
    {
        self.words.as_slice()
    }

    /// Hands out the words for in-place edits. What is written to them is what
    /// the set then holds, bits beyond the length included.
    pub fn words_mut(&mut self) -> (words: &mut [u64])
        ensures
            words@ == old(self).spec_words(),
            final(self).spec_words() == final(words)@,
            final(self).spec_len() == old(self).spec_len(),
    {
        self.words.as_mut_slice()
    }

    pub fn set(&mut self, index: usize)
        requires
            old(self).wf(),
            index < old(self).spec_len(),
        ensures
            final(self).wf(),
            final(self).spec_len() == old(self).spec_len(),
            final(self)@ =~= old(self)@.update(index as int, true),
            forall|i: int| #[trigger]
                word_bit(final(self).spec_words(), i) == (i == index || word_bit(
                    old(self).spec_words(),
                    i,
                )),
            old(self).tail_clear() ==> final(self).tail_clear(),
    {
        let slot: usize = index / 64;
        let shift: u64 = (index % 64) as u64;
        let before: u64 = self.words[slot];
        let after: u64 = before | (1u64 << shift);
        self.words[slot] = after;
        proof {
            let new_words = self.spec_words();
            let old_words = old(self).spec_words();
            assert(new_words =~= old_words.update(slot as int, after));
            assert forall|i: int| #[trigger]
                word_bit(new_words, i) == (i == index || word_bit(old_words, i)) by {
                if 0 <= i < 64 * old_words.len() && i / 64 == slot {
                    let b = (i % 64) as u64;
                    assert(((before | (1u64 << shift)) >> b) & 1u64 == (if b == shift {
                        1u64
                    } else {
                        (before >> b) & 1u64
                    })) by (bit_vector)
                        requires
                            b < 64,
                            shift < 64,
                    ;
                }
            }
        }
    }

    pub fn contains(&self, index: usize) -> (b: bool)
        requires
            self.wf(),
        ensures
            b == (index < self.spec_len() && self@[index as int]),
    {
        if index >= self.len {
            return false;
        }
        let shift: u64 = (index % 64) as u64;
        let word: u64 = self.words[index / 64];
        assert(((word & (1u64 << shift)) != 0) == ((word >> shift) & 1u64 == 1u64)) by (bit_vector)
            requires
                shift < 64,
        ;
        word & (1u64 << shift) != 0
    }

    /// The number of bits that are set, bits beyond the length included. Where
    /// there are none of those, it can always be counted.
    pub fn count_ones(&self) -> (n: usize)
        requires
            (self.wf() && self.tail_clear()) || total_ones(self.spec_words()) <= usize::MAX,
        ensures
            n == total_ones(self.spec_words()),
            self.wf() && self.tail_clear() ==> n == count_true(self@),
    {
        let mut total: usize = 0;
        let mut i: usize = 0;
        proof {
            assert(self.words@.take(0) =~= Seq::<u64>::empty());
            if self.wf() && self.tail_clear() {
                self.lemma_count();
                lemma_count_true_bound(self@);
            }
        }
        while i < self.words.len()
            invariant
                i <= self.words@.len(),
                total == total_ones(self.words@.take(i as int)),
                total_ones(self.words@) <= usize::MAX,
            decreases self.words@.len() - i,
        {
            proof {
                assert(self.words@.take(i + 1).drop_last() =~= self.words@.take(i as int));
                lemma_total_ones_prefix(self.words@, i + 1);
            }
            total = total + self.words[i].count_ones() as usize;
            i += 1;
        }
        proof {
            assert(self.words@.take(i as int) =~= self.words@);
            if self.wf() && self.tail_clear() {
                self.lemma_count();
            }
        }
        total
    }

    /// In a well-formed set without stray bits, the bits that are set are the
    /// members.
    pub proof fn lemma_count(&self)
        requires
            self.wf(),
            self.tail_clear(),
        ensures
            total_ones(self.spec_words()) == count_true(self@),
    {
        let words = self.spec_words();
        let all = Seq::new((64 * words.len()) as nat, |i: int| word_bit(words, i));
        lemma_total_ones_is_count(words);
        assert(all.take(self.spec_len() as int) =~= self@);
        lemma_count_true_tail(all, self.spec_len() as int);
    }
}

proof fn lemma_total_ones_prefix(words: Seq<u64>, n: int)
    requires
        0 <= n <= words.len(),
    ensures
        total_ones(words.take(n)) <= total_ones(words),
    decreases words.len() - n,
{
    if n < words.len() {
        lemma_total_ones_prefix(words, n + 1);
        assert(words.take(n + 1).drop_last() =~= words.take(n));
    } else {
        assert(words.take(n) =~= words);
    }
}

proof fn lemma_word_ones_is_count(words: Seq<u64>, slot: int, n: nat)
    requires
        0 <= slot < words.len(),
        n <= 64,
    ensures
        word_ones(words[slot], n) == count_true(
            Seq::new(n, |i: int| word_bit(words, 64 * slot + i)),
        ),
    decreases n,
{
    let s = Seq::new(n, |i: int| word_bit(words, 64 * slot + i));
    if n > 0 {
        lemma_word_ones_is_count(words, slot, (n - 1) as nat);
        assert(s.drop_last() =~= Seq::new((n - 1) as nat, |i: int| word_bit(words, 64 * slot + i)));
        let i = 64 * slot + (n - 1);
        assert(i / 64 == slot && i % 64 == n - 1);
    }
}

proof fn lemma_count_true_concat(a: Seq<bool>, b: Seq<bool>)
    ensures
        count_true(a + b) == count_true(a) + count_true(b),
    decreases b.len(),
{
    if b.len() == 0 {
        assert(a + b =~= a);
    } else {
        assert((a + b).drop_last() =~= a + b.drop_last());
        lemma_count_true_concat(a, b.drop_last());
    }
}

proof fn lemma_count_true_bound(s: Seq<bool>)
    ensures
        count_true(s) <= s.len(),
    decreases s.len(),
{
    if s.len() > 0 {
        lemma_count_true_bound(s.drop_last());
    }
}

proof fn lemma_count_true_tail(s: Seq<bool>, n: int)
    requires
        0 <= n <= s.len(),
        forall|i: int| n <= i < s.len() ==> !#[trigger] s[i],
    ensures
        count_true(s) == count_true(s.take(n)),
    decreases s.len() - n,
{
    if n == s.len() {
        assert(s.take(n) =~= s);
    } else {
        assert(!s[s.len() - 1]);
        lemma_count_true_tail(s.drop_last(), n);
        assert(s.drop_last().take(n) =~= s.take(n));
    }
}

proof fn lemma_total_ones_is_count(words: Seq<u64>)
    ensures
        total_ones(words) == count_true(
            Seq::new((64 * words.len()) as nat, |i: int| word_bit(words, i)),
        ),
    decreases words.len(),
{
    let all = Seq::new((64 * words.len()) as nat, |i: int| word_bit(words, i));
    if words.len() > 0 {
        let head = words.drop_last();
        let slot = words.len() - 1;
        lemma_total_ones_is_count(head);
        lemma_word_ones_is_count(words, slot, 64);
        let first = Seq::new((64 * head.len()) as nat, |i: int| word_bit(head, i));
        let last = Seq::new(64, |i: int| word_bit(words, 64 * slot + i));
        assert(all =~= first + last);
        lemma_count_true_concat(first, last);
    }
}

/// How many of the layers have bit `i` set in their words.
pub open spec fn holders(layers: Seq<&BitSet>, i: int) -> nat
    decreases layers.len(),
{
    if layers.len() == 0 {
        0
    } else {
        holders(layers.drop_last(), i) + if word_bit(layers.last().spec_words(), i) {
            1nat
        } else {
            0nat
        }
    }
}

/// A count, or 255 where it is larger.
pub open spec fn saturated(n: nat) -> u8 {
    if n > 255 {
        255
    } else {
        n as u8
    }
}

/// Counts, for each of `cells` cells, the layers that contain it. A count
/// stops at 255.
pub fn merge_counts(layers: &[&BitSet], cells: usize) -> (output: Vec<u8>)
    ensures
        output@.len() == cells,
        forall|i: int| 0 <= i < cells ==> #[trigger] output@[i] == saturated(holders(layers@, i)),
{
    let mut output: Vec<u8> = vec![0u8; cells];
    let mut l: usize = 0;
    proof {
        assert(layers@.take(0) =~= Seq::<&BitSet>::empty());
    }
    while l < layers.len()
        invariant
            l <= layers@.len(),
            output@.len() == cells,
            forall|i: int|
                0 <= i < cells ==> #[trigger] output@[i] == saturated(
                    holders(layers@.take(l as int), i),
                ),
        decreases layers@.len() - l,
    {
        let ghost before = output@;
        let words = layers[l].words();
        let mut w: usize = 0;
        while w < words.len() && w < cells / 64 + 1
            invariant
                w <= words@.len(),
                w <= cells / 64 + 1,
                output@.len() == cells,
                before.len() == cells,
                forall|i: int|
                    0 <= i < cells ==> #[trigger] output@[i] == (if i < 64 * w && word_bit(words@, i) {
                        bumped(before[i])
                    } else {
                        before[i]
                    }),
            decreases words@.len() - w,
        {
            add_word(&mut output, w, words[w]);
            proof {
                assert forall|i: int| 0 <= i < cells implies #[trigger] output@[i] == (if i < 64 * (w
                    + 1) && word_bit(words@, i) {
                    bumped(before[i])
                } else {
                    before[i]
                }) by {}
            }
            w += 1;
        }
        proof {
            assert(layers@.take(l + 1).drop_last() =~= layers@.take(l as int));
            assert(layers@.take(l + 1).last() == layers@[l as int]);
            assert forall|i: int| 0 <= i < cells implies #[trigger] output@[i] == saturated(
                holders(layers@.take(l + 1), i),
            ) by {
                assert(before[i] == saturated(holders(layers@.take(l as int), i)));
            }
        }
        l += 1;
    }
    proof {
        assert(layers@.take(l as int) =~= layers@);
    }
    output
}

/// One more, up to 255.
pub open spec fn bumped(count: u8) -> u8 {
    if count == 255 {
        255
    } else {
        (count + 1) as u8
    }
}

/// Adds one, with saturation, at each index whose bit is set in `source`, the
/// word with number `slot`.
fn add_word(output: &mut Vec<u8>, slot: usize, source: u64)
    requires
        slot <= old(output)@.len() / 64,
    ensures
        final(output)@.len() == old(output)@.len(),
        forall|i: int|
            0 <= i < final(output)@.len() ==> #[trigger] final(output)@[i] == (if i / 64 == slot
                && bit_of(source, i % 64) {
                bumped(old(output)@[i])
            } else {
                old(output)@[i]
            }),
{
    let cells: usize = output.len();
    let base: usize = slot * 64;
    let room: usize = cells - base;
    let mut word: u64 = source;
    while word != 0
        invariant
            base == slot * 64,
            base + room == output@.len(),
            output@.len() == old(output)@.len(),
            forall|b: int| 0 <= b < 64 && #[trigger] bit_of(word, b) ==> bit_of(source, b),
            forall|i: int|
                0 <= i < output@.len() ==> #[trigger] output@[i] == (if i / 64 == slot && bit_of(
                    source,
                    i % 64,
                ) && !bit_of(word, i % 64) {
                    bumped(old(output)@[i])
                } else {
                    old(output)@[i]
                }),
        decreases word,
    {
        let bit: usize = word.trailing_zeros() as usize;
        proof {
            vstd::std_specs::bits::axiom_u64_trailing_zeros(word);
        }
        let ghost mid = output@;
        if bit < room {
            let index: usize = base + bit;
            output[index] = output[index].saturating_add(1);
        }
        let next: u64 = word & (word - 1);
        proof {
            lemma_lowest_bit(word);
            assert forall|b: int| 0 <= b < 64 && #[trigger] bit_of(next, b) implies bit_of(source, b) by {
                lemma_lowest_bit_cleared(word, bit as u64, b as u64);
                assert(bit_of(word, b));
            }
            assert forall|i: int| 0 <= i < output@.len() implies #[trigger] output@[i] == (if i / 64
                == slot && bit_of(source, i % 64) && !bit_of(next, i % 64) {
                bumped(old(output)@[i])
            } else {
                old(output)@[i]
            }) by {
                assert(mid[i] == (if i / 64 == slot && bit_of(source, i % 64) && !bit_of(
                    word,
                    i % 64,
                ) {
                    bumped(old(output)@[i])
                } else {
                    old(output)@[i]
                }));
                lemma_lowest_bit_cleared(word, bit as u64, (i % 64) as u64);
                assert(bit_of(word, bit as int));
            }
        }
        word = next;
    }
    proof {
        assert forall|b: u64| b < 64 implies !#[trigger] bit_of(0u64, b as int) by {
            assert((0u64 >> b) & 1u64 == 0u64) by (bit_vector);
        }
        assert forall|i: int| 0 <= i < output@.len() implies !bit_of(word, #[trigger] (i % 64)) by {
            assert(!bit_of(0u64, ((i % 64) as u64) as int));
        }
    }
}

proof fn lemma_lowest_bit(word: u64)
    requires
        word != 0,
    ensures
        word & ((word - 1) as u64) < word,
{
    assert(word & ((word - 1) as u64) < word) by (bit_vector)
        requires
            word != 0,
    ;
}

/// Clearing the lowest set bit clears that bit and keeps the others.
proof fn lemma_lowest_bit_cleared(word: u64, low: u64, b: u64)
    requires
        word != 0,
        low < 64,
        b < 64,
        (word >> low) & 1 == 1,
        word << ((64 - low) as u64) == 0,
    ensures
        bit_of(word & ((word - 1) as u64), b as int) == (bit_of(word, b as int) && b != low),
{
    assert(((word & ((word - 1) as u64)) >> b) & 1 == (if b == low {
        0u64
    } else {
        (word >> b) & 1
    })) by (bit_vector)
        requires
            word != 0,
            low < 64,
            b < 64,
            (word >> low) & 1 == 1,
            word << ((64 - low) as u64) == 0,
    ;
}

/// How many numbers below `n` have a property.
pub open spec fn how_many(n: nat, holds: spec_fn(int) -> bool) -> nat
    decreases n,
{
    if n == 0 {
        0
    } else {
        how_many((n - 1) as nat, holds) + if holds(n - 1) {
            1nat
        } else {
            0nat
        }
    }
}


/// It is the size of the set of these numbers.
pub proof fn law_how_many_is_the_size_of_a_set(n: nat, holds: spec_fn(int) -> bool)
    ensures
        Set::new(|i: int| 0 <= i < n && holds(i)).finite(),
        Set::new(|i: int| 0 <= i < n && holds(i)).len() == how_many(n, holds),
        how_many(n, holds) <= n,
    decreases n,
{
    let all = Set::new(|i: int| 0 <= i < n && holds(i));
    if n == 0 {
        assert(all =~= Set::empty());
    } else {
        let m = (n - 1) as nat;
        law_how_many_is_the_size_of_a_set(m, holds);
        let before = Set::new(|i: int| 0 <= i < m && holds(i));
        if holds(n - 1) {
            assert(all =~= before.insert(n - 1));
        } else {
            assert(all =~= before);
        }
    }
}

/// Two properties that agree below `n` hold of as many numbers.
pub proof fn lemma_how_many_agrees(n: nat, a: spec_fn(int) -> bool, b: spec_fn(int) -> bool)
    requires
        forall|i: int| 0 <= i < n ==> #[trigger] a(i) == b(i),
    ensures
        how_many(n, a) == how_many(n, b),
    decreases n,
{
    if n > 0 {
        lemma_how_many_agrees((n - 1) as nat, a, b);
    }
}

/// A bit of a word is a digit of the number in base two.
pub proof fn law_bits_are_binary_digits(word: u64, b: u64)
    requires
        b < 64,
    ensures
        bit_of(word, b as int) <==> (word as int / pow2(b as nat) as int) % 2 == 1,
{
    lemma_u64_shr_is_div(word, b);
    let shifted = word >> b;
    assert(shifted & 1u64 == shifted % 2) by (bit_vector);
}

/// Words hold the bits of a set in their order, and there are just as many words as
/// the bits need.
pub proof fn law_words_hold_the_bits(words: Seq<u64>, len: int, slot: int, b: int)
    requires
        0 <= slot < words.len(),
        0 <= b < 64,
        len >= 0,
    ensures
        word_bit(words, 64 * slot + b) == bit_of(words[slot], b),
        !word_bit(words, 64 * words.len() as int),
        64 * words_for(len) - 64 < len || len == 0 && words_for(len) == 0,
        len <= 64 * words_for(len),
{
    assert((64 * slot + b) / 64 == slot && (64 * slot + b) % 64 == b);
}

/// The count of a set is the number of its members.
pub proof fn law_count_is_the_number_of_members(members: Seq<bool>)
    ensures
        count_true(members) == how_many(members.len(), |i: int| members[i]),
        count_true(members) == Set::new(|i: int| 0 <= i < members.len() && members[i]).len(),
    decreases members.len(),
{
    let holds = |i: int| members[i];
    if members.len() > 0 {
        let rest = members.drop_last();
        law_count_is_the_number_of_members(rest);
        lemma_how_many_agrees(rest.len(), |i: int| rest[i], holds);
    }
    law_how_many_is_the_size_of_a_set(members.len(), holds);
    assert(Set::new(|i: int| 0 <= i < members.len() && members[i]) =~= Set::new(
        |i: int| 0 <= i < members.len() && holds(i),
    ));
}

/// A merged count is the number of layers that hold the cell, as far as a byte
/// counts.
pub proof fn law_merged_count_is_the_number_of_layers(layers: Seq<&BitSet>, i: int)
    ensures
        ({
            let number = how_many(
                layers.len(),
                |l: int| word_bit(layers[l].spec_words(), i),
            );
            saturated(holders(layers, i)) == (if number < 255 {
                number as int
            } else {
                255
            })
        }),
{
    lemma_holders_are_counted(layers, i);
}

proof fn lemma_holders_are_counted(layers: Seq<&BitSet>, i: int)
    ensures
        holders(layers, i) == how_many(
            layers.len(),
            |l: int| word_bit(layers[l].spec_words(), i),
        ),
    decreases layers.len(),
{
    if layers.len() > 0 {
        let rest = layers.drop_last();
        lemma_holders_are_counted(rest, i);
        lemma_how_many_agrees(
            rest.len(),
            |l: int| word_bit(rest[l].spec_words(), i),
            |l: int| word_bit(layers[l].spec_words(), i),
        );
    }
}

} // verus!
