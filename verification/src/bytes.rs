//! Little-endian numbers in byte sequences.
use vstd::arithmetic::power::{lemma_pow0, lemma_pow1, lemma_pow_adds,
    lemma_pow_strictly_increases, pow};
use vstd::prelude::*;

verus! {

/// The number that some bytes hold, least significant byte first.
pub open spec fn le_value(bytes: Seq<u8>) -> nat
    decreases bytes.len(),
{
    if bytes.len() == 0 {
        0
    } else {
        bytes.first() as nat + 256 * le_value(bytes.drop_first())
    }
}

/// The lowest `n` bytes of a number, least significant byte first.
pub open spec fn le_bytes(value: nat, n: nat) -> Seq<u8>
    decreases n,
{
    if n == 0 {
        Seq::empty()
    } else {
        seq![(value % 256) as u8] + le_bytes(value / 256, (n - 1) as nat)
    }
}

pub proof fn lemma_le_bytes_len(value: nat, n: nat)
    ensures
        le_bytes(value, n).len() == n,
    decreases n,
{
    if n > 0 {
        lemma_le_bytes_len(value / 256, (n - 1) as nat);
    }
}

/// A number that fits into `n` bytes is read back from them.
pub proof fn law_le_round_trip(value: nat, n: nat)
    requires
        value < pow(256, n),
    ensures
        le_value(le_bytes(value, n)) == value,
        le_bytes(value, n).len() == n,
    decreases n,
{
    if n == 0 {
        lemma_pow0(256);
    } else {
        lemma_pow_adds(256, 1, (n - 1) as nat);
        lemma_pow1(256);
        assert(pow(256, n) == 256 * pow(256, (n - 1) as nat));
        let rest = le_bytes(value / 256, (n - 1) as nat);
        law_le_round_trip(value / 256, (n - 1) as nat);
        assert(le_bytes(value, n).drop_first() =~= rest);
        assert(le_bytes(value, n).first() == (value % 256) as u8);
    }
}

/// Bytes are written back from the number that they hold.
pub proof fn law_le_value_round_trip(bytes: Seq<u8>)
    ensures
        le_bytes(le_value(bytes), bytes.len()) == bytes,
        le_value(bytes) < pow(256, bytes.len()),
    decreases bytes.len(),
{
    if bytes.len() == 0 {
        lemma_pow0(256);
        assert(le_bytes(0, 0) =~= bytes);
    } else {
        let rest = bytes.drop_first();
        law_le_value_round_trip(rest);
        lemma_pow_adds(256, 1, rest.len());
        lemma_pow1(256);
        let value = le_value(bytes);
        assert(value % 256 == bytes.first() as nat);
        assert(value / 256 == le_value(rest));
        assert(seq![bytes.first()] + rest =~= bytes);
    }
}

pub proof fn lemma_pow256()
    ensures
        pow(256, 1) == 0x100,
        pow(256, 2) == 0x1_0000,
        pow(256, 4) == 0x1_0000_0000,
        pow(256, 8) == 0x1_0000_0000_0000_0000,
{
    reveal(pow);
    reveal_with_fuel(pow, 9);
}

/// Appends the lowest `n` bytes of a number.
pub fn push_le(out: &mut Vec<u8>, value: u64, n: usize)
    ensures
        final(out)@ == old(out)@ + le_bytes(value as nat, n as nat),
{
    let mut rest: u64 = value;
    let mut left: usize = n;
    assert(old(out)@ + le_bytes(value as nat, n as nat) =~= out@ + le_bytes(
        rest as nat,
        left as nat,
    ));
    while left > 0
        invariant
            old(out)@ + le_bytes(value as nat, n as nat) == out@ + le_bytes(
                rest as nat,
                left as nat,
            ),
        decreases left,
    {
        let ghost before = out@;
        let low: u8 = (rest % 256) as u8;
        out.push(low);
        assert(before + le_bytes(rest as nat, left as nat) =~= out@ + le_bytes(
            (rest / 256) as nat,
            (left - 1) as nat,
        ));
        rest = rest / 256;
        left = left - 1;
    }
    assert(out@ + le_bytes(rest as nat, 0) =~= out@);
}

/// Reads the number that at most eight bytes hold.
pub fn read_le(bytes: &[u8]) -> (value: u64)
    requires
        bytes@.len() <= 8,
    ensures
        value == le_value(bytes@),
{
    let mut value: u64 = 0;
    let mut i: usize = bytes.len();
    proof {
        lemma_pow256();
        lemma_pow0(256);
        assert(bytes@.skip(i as int) =~= Seq::<u8>::empty());
    }
    while i > 0
        invariant
            i <= bytes@.len() <= 8,
            value == le_value(bytes@.skip(i as int)),
        decreases i,
    {
        proof {
            let tail = bytes@.skip(i - 1);
            assert(tail.drop_first() =~= bytes@.skip(i as int));
            law_le_value_round_trip(tail);
            lemma_pow256();
            if tail.len() < 8 {
                lemma_pow_strictly_increases(256, tail.len(), 8);
            }
        }
        i = i - 1;
        value = bytes[i] as u64 + 256 * value;
    }
    assert(bytes@.skip(0) =~= bytes@);
    value
}

/// The unsigned number with the same sixteen bits as a signed one.
pub open spec fn unsigned16(value: i16) -> u16 {
    if value < 0 {
        (value + 65536) as u16
    } else {
        value as u16
    }
}

/// The signed number with the same sixteen bits as an unsigned one.
pub open spec fn signed16(value: u16) -> i16 {
    if value >= 32768 {
        (value - 65536) as i16
    } else {
        value as i16
    }
}

pub fn to_unsigned16(value: i16) -> (bits: u16)
    ensures
        bits == unsigned16(value),
{
    if value < 0 {
        (value as i32 + 65536) as u16
    } else {
        value as u16
    }
}

pub fn to_signed16(value: u16) -> (number: i16)
    ensures
        number == signed16(value),
{
    if value >= 32768 {
        (value as i32 - 65536) as i16
    } else {
        value as i16
    }
}

/// Some numbers of `n` bytes each, one after the other.
pub open spec fn le_words(values: Seq<nat>, n: nat) -> Seq<u8>
    decreases values.len(),
{
    if values.len() == 0 {
        Seq::empty()
    } else {
        le_words(values.drop_last(), n) + le_bytes(values.last(), n)
    }
}

pub proof fn lemma_le_words_len(values: Seq<nat>, n: nat)
    ensures
        le_words(values, n).len() == n * values.len(),
    decreases values.len(),
{
    if values.len() > 0 {
        lemma_le_words_len(values.drop_last(), n);
        lemma_le_bytes_len(values.last(), n);
        assert(n * (values.len() - 1) + n == n * values.len()) by (nonlinear_arith);
    } else {
        assert(n * 0 == 0) by (nonlinear_arith);
    }
}

/// The bytes of the number with index `i` among numbers of `n` bytes each.
pub proof fn lemma_le_words_at(values: Seq<nat>, n: nat, i: int)
    requires
        0 <= i < values.len(),
    ensures
        0 <= n * i <= n * i + n <= le_words(values, n).len(),
        le_words(values, n).subrange(n * i, n * i + n) == le_bytes(values[i], n),
    decreases values.len(),
{
    let before = le_words(values.drop_last(), n);
    lemma_le_words_len(values, n);
    lemma_le_words_len(values.drop_last(), n);
    lemma_le_bytes_len(values.last(), n);
    assert(0 <= n * i && n * i + n <= n * values.len()) by (nonlinear_arith)
        requires
            0 <= i < values.len(),
    ;
    if i < values.len() - 1 {
        lemma_le_words_at(values.drop_last(), n, i);
        assert(le_words(values, n).subrange(n * i, n * i + n) =~= before.subrange(
            n * i,
            n * i + n,
        ));
    } else {
        assert(n * i == before.len());
        assert(le_words(values, n).subrange(n * i, n * i + n) =~= le_bytes(values[i], n));
    }
}

/// The sixteen-bit number with index `i` in a byte sequence.
pub open spec fn u16_at(bytes: Seq<u8>, i: int) -> u16 {
    (bytes[2 * i] + 256 * bytes[2 * i + 1]) as u16
}

pub proof fn lemma_u16_at_words(values: Seq<nat>, i: int)
    requires
        0 <= i < values.len(),
        values[i] < 65536,
    ensures
        2 * i + 1 < le_words(values, 2).len(),
        u16_at(le_words(values, 2), i) == values[i],
{
    let all = le_words(values, 2);
    lemma_le_words_at(values, 2, i);
    lemma_le_words_len(values, 2);
    let pair = all.subrange(2 * i, 2 * i + 2);
    lemma_pow256();
    law_le_round_trip(values[i], 2);
    reveal_with_fuel(le_value, 3);
    assert(pair[0] == all[2 * i] && pair[1] == all[2 * i + 1]);
    assert(pair.drop_first().drop_first().len() == 0);
    assert(le_value(pair) == pair[0] + 256 * pair[1]);
}

/// The lowest byte of a number comes first, and the rest follows for what is left
/// of it.
pub proof fn law_low_byte_comes_first(value: nat, n: nat)
    requires
        n > 0,
    ensures
        le_bytes(value, n).len() == n,
        le_bytes(value, n)[0] == value % 256,
        le_bytes(value, n).skip(1) == le_bytes(value / 256, (n - 1) as nat),
        value < 256 ==> forall|i: int| 1 <= i < n ==> #[trigger] le_bytes(value, n)[i] == 0,
{
    lemma_le_bytes_len(value, n);
    assert(le_bytes(value, n).skip(1) =~= le_bytes(value / 256, (n - 1) as nat));
    if value < 256 {
        lemma_zero_bytes((n - 1) as nat);
        assert forall|i: int| 1 <= i < n implies #[trigger] le_bytes(value, n)[i] == 0 by {
            assert(le_bytes(value, n)[i] == le_bytes(0, (n - 1) as nat)[i - 1]);
        }
    }
}

proof fn lemma_zero_bytes(n: nat)
    ensures
        le_bytes(0, n).len() == n,
        forall|i: int| 0 <= i < n ==> #[trigger] le_bytes(0, n)[i] == 0,
    decreases n,
{
    if n > 0 {
        lemma_zero_bytes((n - 1) as nat);
        assert forall|i: int| 0 <= i < n implies #[trigger] le_bytes(0, n)[i] == 0 by {
            if i > 0 {
                assert(le_bytes(0, n)[i] == le_bytes(0, (n - 1) as nat)[i - 1]);
            }
        }
    }
}

/// The sign of a sixteen-bit number survives: what is read as signed differs from
/// the pattern by 65536 or not at all, and both ways undo each other.
pub proof fn law_signs_are_read_back(signed: i16, pattern: u16)
    ensures
        signed16(unsigned16(signed)) == signed,
        unsigned16(signed16(pattern)) == pattern,
        signed16(pattern) == pattern || signed16(pattern) == pattern - 65536,
        unsigned16(signed) == signed || unsigned16(signed) == signed + 65536,
{
}

/// Numbers are written one after the other, each in its own bytes.
pub proof fn law_words_stand_in_their_order(values: Seq<nat>, n: nat, i: int)
    requires
        0 <= i < values.len(),
    ensures
        le_words(values, n).len() == n * values.len(),
        le_words(values, n).subrange(n * i, n * i + n) == le_bytes(values[i], n),
{
    lemma_le_words_len(values, n);
    lemma_le_words_at(values, n, i);
}

} // verus!
