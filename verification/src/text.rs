//! Text that is built and read character by character.
use vstd::prelude::*;
use vstd::string::*;

verus! {

/// `String::push`: appends the character to the end of the string.
pub assume_specification[ String::push ](text: &mut String, c: char)
    ensures
        final(text)@ == old(text)@.push(c),
;

/// The character of a digit below sixteen, letters in lower case.
pub open spec fn digit_char(digit: int) -> char {
    if digit == 0 {
        '0'
    } else if digit == 1 {
        '1'
    } else if digit == 2 {
        '2'
    } else if digit == 3 {
        '3'
    } else if digit == 4 {
        '4'
    } else if digit == 5 {
        '5'
    } else if digit == 6 {
        '6'
    } else if digit == 7 {
        '7'
    } else if digit == 8 {
        '8'
    } else if digit == 9 {
        '9'
    } else if digit == 10 {
        'a'
    } else if digit == 11 {
        'b'
    } else if digit == 12 {
        'c'
    } else if digit == 13 {
        'd'
    } else if digit == 14 {
        'e'
    } else {
        'f'
    }
}

pub fn to_digit_char(digit: u8) -> (c: char)
    requires
        digit < 16,
    ensures
        c == digit_char(digit as int),
{
    match digit {
        0 => '0',
        1 => '1',
        2 => '2',
        3 => '3',
        4 => '4',
        5 => '5',
        6 => '6',
        7 => '7',
        8 => '8',
        9 => '9',
        10 => 'a',
        11 => 'b',
        12 => 'c',
        13 => 'd',
        14 => 'e',
        _ => 'f',
    }
}

/// A number in decimal, without leading zeros.
pub open spec fn decimal(n: nat) -> Seq<char>
    decreases n,
{
    if n < 10 {
        seq![digit_char(n as int)]
    } else {
        decimal(n / 10).push(digit_char((n % 10) as int))
    }
}

/// A number in decimal, with leading zeros up to a width.
pub open spec fn padded_decimal(n: nat, width: nat) -> Seq<char> {
    let digits = decimal(n);
    if digits.len() < width {
        Seq::new((width - digits.len()) as nat, |i: int| '0') + digits
    } else {
        digits
    }
}

/// Each byte as two hexadecimal digits.
pub open spec fn hex(bytes: Seq<u8>) -> Seq<char>
    decreases bytes.len(),
{
    if bytes.len() == 0 {
        Seq::empty()
    } else {
        hex(bytes.drop_last()).push(digit_char(bytes.last() as int / 16)).push(
            digit_char(bytes.last() as int % 16),
        )
    }
}

/// Some texts one after the other.
pub open spec fn concatenated(parts: Seq<&str>) -> Seq<char>
    decreases parts.len(),
{
    if parts.len() == 0 {
        Seq::empty()
    } else {
        concatenated(parts.drop_last()) + parts.last()@
    }
}

pub fn push_decimal(out: &mut String, n: u64)
    ensures
        final(out)@ == old(out)@ + decimal(n as nat),
    decreases n,
{
    if n >= 10 {
        push_decimal(out, n / 10);
    }
    let low: u8 = (n % 10) as u8;
    let ghost before = out@;
    out.push(to_digit_char(low));
    assert(out@ =~= old(out)@ + decimal(n as nat));
}

pub fn decimal_text(n: u64) -> (text: String)
    ensures
        text@ == decimal(n as nat),
{
    let mut text = String::new();
    push_decimal(&mut text, n);
    assert(text@ =~= decimal(n as nat));
    text
}

proof fn lemma_decimal_len(n: nat)
    requires
        n < 100_000,
    ensures
        decimal(n).len() == (if n < 10 {
            1nat
        } else if n < 100 {
            2nat
        } else if n < 1_000 {
            3nat
        } else if n < 10_000 {
            4nat
        } else {
            5nat
        }),
{
    reveal_with_fuel(decimal, 6);
}

/// Appends a number with leading zeros up to a width.
pub fn push_padded(out: &mut String, n: u16, width: u8)
    ensures
        final(out)@ == old(out)@ + padded_decimal(n as nat, width as nat),
{
    proof {
        lemma_decimal_len(n as nat);
    }
    let digits: u16 = if n < 10 {
        1
    } else if n < 100 {
        2
    } else if n < 1_000 {
        3
    } else if n < 10_000 {
        4
    } else {
        5
    };
    let mut zeros: u16 = 0;
    assert(out@ =~= old(out)@ + Seq::new(0, |i: int| '0'));
    while zeros + digits < width as u16
        invariant
            digits <= 5,
            zeros + digits <= width || zeros == 0,
            out@ == old(out)@ + Seq::new(zeros as nat, |i: int| '0'),
        decreases width - zeros,
    {
        out.push('0');
        zeros = zeros + 1;
        assert(out@ =~= old(out)@ + Seq::new(zeros as nat, |i: int| '0'));
    }
    push_decimal(out, n as u64);
    assert(out@ =~= old(out)@ + padded_decimal(n as nat, width as nat));
}

/// A signed number in decimal.
pub open spec fn signed_decimal(n: int) -> Seq<char> {
    if n < 0 {
        seq!['-'] + decimal((-n) as nat)
    } else {
        decimal(n as nat)
    }
}

pub fn push_signed(out: &mut String, n: i64)
    requires
        n > i64::MIN,
    ensures
        final(out)@ == old(out)@ + signed_decimal(n as int),
{
    if n < 0 {
        out.push('-');
        push_decimal(out, (-n) as u64);
    } else {
        push_decimal(out, n as u64);
    }
    assert(out@ =~= old(out)@ + signed_decimal(n as int));
}

pub fn hex_text(bytes: &[u8]) -> (text: String)
    ensures
        text@ == hex(bytes@),
{
    let mut text = String::new();
    let mut i: usize = 0;
    assert(bytes@.take(0) =~= Seq::<u8>::empty());
    while i < bytes.len()
        invariant
            i <= bytes@.len(),
            text@ == hex(bytes@.take(i as int)),
        decreases bytes@.len() - i,
    {
        assert(bytes@.take(i + 1).drop_last() =~= bytes@.take(i as int));
        text.push(to_digit_char(bytes[i] / 16));
        text.push(to_digit_char(bytes[i] % 16));
        i += 1;
    }
    assert(bytes@.take(i as int) =~= bytes@);
    text
}

pub fn concat_text(parts: &[&str]) -> (text: String)
    ensures
        text@ == concatenated(parts@),
{
    let mut text = String::new();
    let mut i: usize = 0;
    assert(parts@.take(0) =~= Seq::<&str>::empty());
    while i < parts.len()
        invariant
            i <= parts@.len(),
            text@ == concatenated(parts@.take(i as int)),
        decreases parts@.len() - i,
    {
        assert(parts@.take(i + 1).drop_last() =~= parts@.take(i as int));
        text.append(parts[i]);
        i += 1;
    }
    assert(parts@.take(i as int) =~= parts@);
    text
}

/// A character that separates words: Unicode white space.
pub open spec fn spec_is_blank(c: char) -> bool {
    let code = c as u32;
    ||| 0x9 <= code <= 0xd
    ||| code == 0x20
    ||| code == 0x85
    ||| code == 0xa0
    ||| code == 0x1680
    ||| 0x2000 <= code <= 0x200a
    ||| code == 0x2028
    ||| code == 0x2029
    ||| code == 0x202f
    ||| code == 0x205f
    ||| code == 0x3000
}

pub fn is_blank(c: char) -> (b: bool)
    ensures
        b == spec_is_blank(c),
{
    let code: u32 = c as u32;
    (0x9 <= code && code <= 0xd) || code == 0x20 || code == 0x85 || code == 0xa0 || code == 0x1680
        || (0x2000 <= code && code <= 0x200a) || code == 0x2028 || code == 0x2029 || code == 0x202f
        || code == 0x205f || code == 0x3000
}

/// The characters of a text.
pub fn chars_of(text: &str) -> (chars: Vec<char>)
    ensures
        chars@ == text@,
{
    let mut chars: Vec<char> = Vec::new();
    for c in it: text.chars()
        invariant
            chars@ == it.seq().take(it.index() as int),
            it.seq() == text@,
    {
        chars.push(c);
        assert(chars@ =~= it.seq().take(it.index() + 1));
    }
    assert(chars@ =~= text@);
    chars
}

/// The text of some characters.
pub fn text_of_chars(chars: &Vec<char>, from: usize, to: usize) -> (text: String)
    requires
        from <= to <= chars@.len(),
    ensures
        text@ == chars@.subrange(from as int, to as int),
{
    let mut text = String::new();
    let mut i: usize = from;
    assert(text@ =~= chars@.subrange(from as int, i as int));
    while i < to
        invariant
            from <= i <= to <= chars@.len(),
            text@ == chars@.subrange(from as int, i as int),
        decreases to - i,
    {
        text.push(chars[i]);
        i += 1;
        assert(text@ =~= chars@.subrange(from as int, i as int));
    }
    text
}

/// Whether two texts are the same.
pub fn same_text(a: &str, b: &str) -> (same: bool)
    ensures
        same <==> a@ == b@,
{
    let left = a.to_owned();
    let right = b.to_owned();
    left == right
}

pub open spec fn is_digit(c: char) -> bool {
    '0' <= c <= '9'
}

/// The number that some decimal digits write.
pub open spec fn digits_value(digits: Seq<char>) -> nat
    decreases digits.len(),
{
    if digits.len() == 0 {
        0
    } else {
        (10 * digits_value(digits.drop_last()) + (digits.last() as int - 48)) as nat
    }
}

/// The number that a text writes, if it is at most `max`: decimal digits, at
/// least one, with or without a plus sign before them.
pub open spec fn number_of(text: Seq<char>, max: nat) -> Option<nat> {
    let digits = digits_part(text);
    if digits.len() > 0 && all_digits(digits) && digits_value(digits) <= max {
        Some(digits_value(digits))
    } else {
        None
    }
}

/// A text without the plus sign before it, if there is one.
pub open spec fn digits_part(text: Seq<char>) -> Seq<char> {
    if text.len() > 0 && text[0] == '+' {
        text.drop_first()
    } else {
        text
    }
}

pub open spec fn all_digits(text: Seq<char>) -> bool {
    forall|i: int| 0 <= i < text.len() ==> is_digit(#[trigger] text[i])
}

proof fn lemma_digits_value_grows(digits: Seq<char>, n: int)
    requires
        0 <= n <= digits.len(),
        all_digits(digits),
    ensures
        digits_value(digits.take(n)) <= digits_value(digits),
    decreases digits.len() - n,
{
    if n < digits.len() {
        lemma_digits_value_grows(digits, n + 1);
        assert(digits.take(n + 1).drop_last() =~= digits.take(n));
        assert(is_digit(digits[n]));
    } else {
        assert(digits.take(n) =~= digits);
    }
}

/// Reads the number that a text writes.
pub fn parse_number(text: &str, max: u64) -> (number: Option<u64>)
    ensures
        match number {
            Some(n) => number_of(text@, max as nat) == Some(n as nat),
            None => number_of(text@, max as nat) is None,
        },
{
    let chars = chars_of(text);
    let len: usize = chars.len();
    let start: usize = if len > 0 && chars[0] == '+' {
        1
    } else {
        0
    };
    let ghost digits = text@.subrange(start as int, len as int);
    proof {
        if start == 1 {
            assert(digits =~= text@.drop_first());
        } else {
            assert(digits =~= text@);
        }
        assert(digits.take(0) =~= Seq::<char>::empty());
    }
    if start == len {
        return None;
    }
    let mut value: u128 = 0;
    let mut i: usize = start;
    while i < len
        invariant
            start <= i <= len,
            len == chars@.len(),
            chars@ == text@,
            digits == text@.subrange(start as int, len as int),
            start <= 1,
            digits == digits_part(text@),
            digits.len() > 0,
            forall|j: int| 0 <= j < i - start ==> is_digit(#[trigger] digits[j]),
            value == digits_value(digits.take(i - start)),
            value <= max,
        decreases len - i,
    {
        let c = chars[i];
        if c < '0' || c > '9' {
            assert(!is_digit(digits[i - start]));
            return None;
        }
        let digit: u128 = (c as u32 - 48) as u128;
        let next: u128 = 10 * value + digit;
        proof {
            assert(digits.take(i - start + 1).drop_last() =~= digits.take(i - start));
            assert(next == digits_value(digits.take(i - start + 1)));
        }
        if next > max as u128 {
            proof {
                if all_digits(digits) {
                    lemma_digits_value_grows(digits, i - start + 1);
                }
            }
            return None;
        }
        value = next;
        i += 1;
    }
    assert(digits.take(i - start) =~= digits);
    Some(value as u64)
}

/// The text without its last characters, where these are `suffix`.
pub open spec fn without_suffix(text: Seq<char>, suffix: Seq<char>) -> Option<Seq<char>> {
    let rest = text.len() - suffix.len();
    if rest >= 0 && text.skip(rest) == suffix {
        Some(text.take(rest))
    } else {
        None
    }
}

/// The text without its first characters, where these are `prefix`.
pub open spec fn without_prefix(text: Seq<char>, prefix: Seq<char>) -> Option<Seq<char>> {
    if prefix.len() <= text.len() && text.take(prefix.len() as int) == prefix {
        Some(text.skip(prefix.len() as int))
    } else {
        None
    }
}

fn chars_match(chars: &Vec<char>, at: usize, part: &Vec<char>) -> (same: bool)
    requires
        at + part@.len() <= chars@.len(),
    ensures
        same <==> chars@.subrange(at as int, at + part@.len()) == part@,
{
    let len: usize = chars.len();
    let mut i: usize = 0;
    while i < part.len()
        invariant
            i <= part@.len(),
            len == chars@.len(),
            at + part@.len() <= chars@.len(),
            forall|j: int| 0 <= j < i ==> chars@[at + j] == part@[j],
        decreases part@.len() - i,
    {
        if chars[at + i] != part[i] {
            assert(chars@.subrange(at as int, at + part@.len())[i as int] != part@[i as int]);
            return false;
        }
        i += 1;
    }
    assert(chars@.subrange(at as int, at + part@.len()) =~= part@);
    true
}

pub fn strip_suffix(text: &str, suffix: &str) -> (rest: Option<String>)
    ensures
        match rest {
            Some(r) => without_suffix(text@, suffix@) == Some(r@),
            None => without_suffix(text@, suffix@) is None,
        },
{
    let chars = chars_of(text);
    let end = chars_of(suffix);
    if end.len() > chars.len() {
        return None;
    }
    let at: usize = chars.len() - end.len();
    assert(chars@.subrange(at as int, at + end@.len()) =~= text@.skip(at as int));
    if chars_match(&chars, at, &end) {
        let rest = text_of_chars(&chars, 0, at);
        assert(rest@ =~= text@.take(at as int));
        Some(rest)
    } else {
        None
    }
}

pub fn strip_prefix(text: &str, prefix: &str) -> (rest: Option<String>)
    ensures
        match rest {
            Some(r) => without_prefix(text@, prefix@) == Some(r@),
            None => without_prefix(text@, prefix@) is None,
        },
{
    let chars = chars_of(text);
    let start = chars_of(prefix);
    if start.len() > chars.len() {
        return None;
    }
    assert(chars@.subrange(0, start@.len() as int) =~= text@.take(start@.len() as int));
    if chars_match(&chars, 0, &start) {
        let rest = text_of_chars(&chars, start.len(), chars.len());
        assert(rest@ =~= text@.skip(start@.len() as int));
        Some(rest)
    } else {
        None
    }
}

/// A number in decimal has digits only, and they say what it is.
pub proof fn lemma_decimal_digits(n: nat)
    ensures
        decimal(n).len() > 0,
        all_digits(decimal(n)),
        digits_value(decimal(n)) == n,
    decreases n,
{
    if n < 10 {
        let digits = decimal(n);
        assert(digits.drop_last() =~= Seq::<char>::empty());
        assert(digits_value(digits.drop_last()) == 0);
        assert(is_digit(digits[0]));
    } else {
        lemma_decimal_digits(n / 10);
        let digits = decimal(n);
        assert(digits.drop_last() =~= decimal(n / 10));
        assert forall|i: int| 0 <= i < digits.len() implies is_digit(#[trigger] digits[i]) by {
            if i < digits.len() - 1 {
                assert(is_digit(decimal(n / 10)[i]));
            }
        }
    }
}

/// A number that is written in decimal is read back.
pub proof fn law_decimal_is_read_back(n: nat, max: nat)
    requires
        n <= max,
    ensures
        number_of(decimal(n), max) == Some(n),
{
    lemma_decimal_digits(n);
    assert(is_digit(decimal(n)[0]));
    assert(digits_part(decimal(n)) == decimal(n));
}

/// A text does not come after another: character by character, and a text comes
/// before those that it begins.
pub open spec fn text_le(a: Seq<char>, b: Seq<char>) -> bool
    decreases a.len(),
{
    if a.len() == 0 {
        true
    } else if b.len() == 0 {
        false
    } else if a[0] == b[0] {
        text_le(a.skip(1), b.skip(1))
    } else {
        a[0] < b[0]
    }
}

/// Texts rise.
pub open spec fn texts_rise(texts: Seq<Seq<char>>) -> bool {
    forall|i: int, j: int| 0 <= i < j < texts.len() ==> text_le(texts[i], texts[j])
}

/// Of two texts, one does not come after the other.
pub proof fn lemma_text_le_total(a: Seq<char>, b: Seq<char>)
    ensures
        text_le(a, b) || text_le(b, a),
    decreases a.len(),
{
    if a.len() > 0 && b.len() > 0 && a[0] == b[0] {
        lemma_text_le_total(a.skip(1), b.skip(1));
    }
}

pub proof fn lemma_text_le_transitive(a: Seq<char>, b: Seq<char>, c: Seq<char>)
    requires
        text_le(a, b),
        text_le(b, c),
    ensures
        text_le(a, c),
    decreases a.len(),
{
    if a.len() > 0 && b.len() > 0 && c.len() > 0 && a[0] == b[0] && b[0] == c[0] {
        lemma_text_le_transitive(a.skip(1), b.skip(1), c.skip(1));
    }
}

/// Whether a text does not come after another.
pub fn not_after(a: &str, b: &str) -> (le: bool)
    ensures
        le == text_le(a@, b@),
{
    let left = chars_of(a);
    let right = chars_of(b);
    let mut i: usize = 0;
    assert(a@.skip(0) =~= a@);
    assert(b@.skip(0) =~= b@);
    while i < left.len() && i < right.len()
        invariant
            left@ == a@,
            right@ == b@,
            i <= left@.len(),
            i <= right@.len(),
            text_le(a@, b@) == text_le(a@.skip(i as int), b@.skip(i as int)),
        decreases left@.len() - i,
    {
        assert(a@.skip(i as int)[0] == a@[i as int]);
        assert(b@.skip(i as int)[0] == b@[i as int]);
        if left[i] != right[i] {
            return left[i] < right[i];
        }
        assert(a@.skip(i as int).skip(1) =~= a@.skip(i + 1));
        assert(b@.skip(i as int).skip(1) =~= b@.skip(i + 1));
        i += 1;
    }
    left.len() == i
}

/// The byte of two hexadecimal digits.
pub open spec fn hex_byte(high: char, low: char) -> int {
    let (h, l) = (high as int, low as int);
    16 * (if h < 97 {
        h - 48
    } else {
        h - 97 + 10
    }) + (if l < 97 {
        l - 48
    } else {
        l - 97 + 10
    })
}

/// Each byte is written in two hexadecimal digits, the high one first, and is read
/// back from them; different bytes have different texts.
pub proof fn law_hex_is_read_back(bytes: Seq<u8>)
    ensures
        hex(bytes).len() == 2 * bytes.len(),
        forall|i: int|
            0 <= i < bytes.len() ==> #[trigger] bytes[i] == hex_byte(
                hex(bytes)[2 * i],
                hex(bytes)[2 * i + 1],
            ),
        forall|other: Seq<u8>| #[trigger] hex(other) == hex(bytes) ==> other == bytes,
    decreases bytes.len(),
{
    lemma_hex_pairs(bytes);
    assert forall|other: Seq<u8>| #[trigger] hex(other) == hex(bytes) implies other == bytes by {
        lemma_hex_pairs(other);
        assert forall|i: int| 0 <= i < bytes.len() implies other[i] == #[trigger] bytes[i] by {}
        assert(other =~= bytes);
    }
}

proof fn lemma_hex_pairs(bytes: Seq<u8>)
    ensures
        hex(bytes).len() == 2 * bytes.len(),
        forall|i: int|
            0 <= i < bytes.len() ==> #[trigger] bytes[i] == hex_byte(
                hex(bytes)[2 * i],
                hex(bytes)[2 * i + 1],
            ),
    decreases bytes.len(),
{
    if bytes.len() > 0 {
        let rest = bytes.drop_last();
        lemma_hex_pairs(rest);
        assert forall|i: int| 0 <= i < bytes.len() implies #[trigger] bytes[i] == hex_byte(
            hex(bytes)[2 * i],
            hex(bytes)[2 * i + 1],
        ) by {
            if i < rest.len() {
                assert(rest[i] == bytes[i]);
            }
        }
    }
}

/// A padded number has at least the width asked for, is not cut, and is read back.
pub proof fn law_padded_number_is_read_back(n: nat, width: nat)
    ensures
        padded_decimal(n, width).len() >= width,
        padded_decimal(n, width).len() == width || padded_decimal(n, width) == decimal(n),
        all_digits(padded_decimal(n, width)),
        digits_value(padded_decimal(n, width)) == n,
{
    lemma_decimal_digits(n);
    let digits = decimal(n);
    if digits.len() < width {
        let zeros = Seq::new((width - digits.len()) as nat, |i: int| '0');
        lemma_leading_zeros(zeros, digits);
        assert(all_digits(zeros + digits)) by {
            assert forall|i: int| 0 <= i < (zeros + digits).len() implies is_digit(
                #[trigger] (zeros + digits)[i],
            ) by {
                if i >= zeros.len() {
                    assert((zeros + digits)[i] == digits[i - zeros.len()]);
                    assert(is_digit(digits[i - zeros.len()]));
                }
            }
        }
    }
}

proof fn lemma_leading_zeros(zeros: Seq<char>, digits: Seq<char>)
    requires
        forall|i: int| 0 <= i < zeros.len() ==> zeros[i] == '0',
        all_digits(digits),
    ensures
        digits_value(zeros + digits) == digits_value(digits),
    decreases zeros.len() + digits.len(),
{
    let all = zeros + digits;
    if digits.len() > 0 {
        assert(all.drop_last() =~= zeros + digits.drop_last());
        assert(all_digits(digits.drop_last())) by {
            assert forall|i: int| 0 <= i < digits.len() - 1 implies is_digit(
                #[trigger] digits.drop_last()[i],
            ) by {
                assert(is_digit(digits[i]));
            }
        }
        lemma_leading_zeros(zeros, digits.drop_last());
    } else if zeros.len() > 0 {
        assert(all =~= zeros);
        assert(zeros.drop_last() + digits =~= zeros.drop_last());
        lemma_leading_zeros(zeros.drop_last(), digits);
        assert(digits_value(zeros.drop_last()) == 0);
        assert(zeros.last() == '0');
    } else {
        assert(all =~= digits);
    }
}

/// A signed number is read back: a minus sign stands first just where it is
/// negative, and the digits say its size.
pub proof fn law_signed_number_is_read_back(n: int)
    ensures
        n < 0 <==> signed_decimal(n).first() == '-',
        n >= 0 ==> digits_value(signed_decimal(n)) == n,
        n < 0 ==> digits_value(signed_decimal(n).skip(1)) == -n,
{
    if n < 0 {
        lemma_decimal_digits((-n) as nat);
        assert(signed_decimal(n).skip(1) =~= decimal((-n) as nat));
    } else {
        lemma_decimal_digits(n as nat);
        assert(is_digit(decimal(n as nat)[0]));
    }
}

/// A number is read just where its text is digits, with a plus sign at most before
/// them, and is not above the limit. It is then what the digits say.
pub proof fn law_number_is_what_its_digits_say(digits: Seq<char>, max: nat)
    requires
        digits.len() > 0,
    ensures
        all_digits(digits) ==> number_of(digits, max) == (if digits_value(digits) <= max {
            Some(digits_value(digits))
        } else {
            None
        }),
        all_digits(digits) ==> number_of(seq!['+'] + digits, max) == number_of(digits, max),
        number_of(digits, max) is Some ==> (forall|i: int|
            1 <= i < digits.len() ==> '0' <= #[trigger] digits[i] <= '9') && ('0' <= digits[0]
            <= '9' || digits[0] == '+'),
        number_of(digits, max) matches Some(n) ==> n <= max,
{
    assert((seq!['+'] + digits).drop_first() =~= digits);
    if all_digits(digits) {
        assert(is_digit(digits[0]));
        assert(digits_part(digits) == digits);
    }
    if number_of(digits, max) is Some {
        let part = digits_part(digits);
        assert forall|i: int| 1 <= i < digits.len() implies '0' <= #[trigger] digits[i] <= '9' by {
            if digits[0] == '+' {
                assert(part[i - 1] == digits[i]);
                assert(is_digit(part[i - 1]));
            } else {
                assert(is_digit(part[i]));
            }
        }
        if digits[0] != '+' {
            assert(is_digit(part[0]));
        }
    }
}

/// One more digit multiplies by ten and adds what the digit stands for.
pub proof fn law_digits_count_in_tens(digits: Seq<char>, digit: char)
    requires
        '0' <= digit <= '9',
    ensures
        digits_value(Seq::empty()) == 0,
        digits_value(digits.push(digit)) == 10 * digits_value(digits) + (digit as int - '0' as int),
{
    assert(digits.push(digit).drop_last() =~= digits);
}

/// What is left of a text without its beginning or its end, put together with it
/// again, is the text.
pub proof fn law_stripped_text_is_put_together(text: Seq<char>, part: Seq<char>)
    ensures
        without_prefix(part + text, part) == Some(text),
        without_suffix(text + part, part) == Some(text),
        without_prefix(text, part) matches Some(rest) ==> part + rest == text,
        without_suffix(text, part) matches Some(rest) ==> rest + part == text,
{
    assert((part + text).skip(part.len() as int) =~= text);
    assert((part + text).take(part.len() as int) =~= part);
    assert((text + part).take(text.len() as int) =~= text);
    assert((text + part).skip(text.len() as int) =~= part);
    if let Some(rest) = without_prefix(text, part) {
        assert(part + rest =~= text);
    }
    if let Some(rest) = without_suffix(text, part) {
        assert(rest + part =~= text);
    }
}

/// The order of texts is that of their first difference. A text that another one
/// begins with comes before it.
pub proof fn law_texts_are_ordered_by_their_first_difference(
    a: Seq<char>,
    b: Seq<char>,
    k: int,
)
    requires
        0 <= k <= a.len(),
        k <= b.len(),
        a.take(k) == b.take(k),
    ensures
        k == a.len() ==> text_le(a, b),
        k == b.len() && k < a.len() ==> !text_le(a, b),
        k < a.len() && k < b.len() && a[k] != b[k] ==> (text_le(a, b) <==> a[k] < b[k]),
    decreases k,
{
    if k > 0 {
        assert(a.take(k)[0] == b.take(k)[0]);
        assert(a.take(k)[0] == a[0] && b.take(k)[0] == b[0]);
        assert(k < a.len() ==> a.skip(1)[k - 1] == a[k]);
        assert(k < b.len() ==> b.skip(1)[k - 1] == b[k]);
        assert(a.skip(1).take(k - 1) =~= a.take(k).skip(1));
        assert(b.skip(1).take(k - 1) =~= b.take(k).skip(1));
        law_texts_are_ordered_by_their_first_difference(a.skip(1), b.skip(1), k - 1);
    }
}

/// Parts are put together in their order.
pub proof fn law_parts_are_put_together_in_order(parts: Seq<&str>, more: Seq<&str>)
    ensures
        concatenated(parts + more) == concatenated(parts) + concatenated(more),
        more.len() == 1 ==> concatenated(more) == more[0]@,
    decreases more.len(),
{
    if more.len() == 0 {
        assert(parts + more =~= parts);
        assert(concatenated(parts + more) =~= concatenated(parts) + concatenated(more));
    } else {
        law_parts_are_put_together_in_order(parts, more.drop_last());
        assert((parts + more).drop_last() =~= parts + more.drop_last());
        assert(concatenated(parts + more) =~= concatenated(parts) + concatenated(more));
        if more.len() == 1 {
            assert(more.drop_last() =~= Seq::<&str>::empty());
            assert(concatenated(more) =~= more[0]@);
        }
    }
}

} // verus!
