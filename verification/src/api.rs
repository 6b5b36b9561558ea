//! The contracts of the HTTP interface.
use crate::float::{law_order_is_numeric, Binary64, INFINITE_MAGNITUDE};
use crate::terrain::{check_latitude, check_longitude, is_latitude, is_longitude};
use crate::text::{decimal, digit_char, law_decimal_is_read_back, number_of, parse_number,
    to_digit_char};
use vstd::arithmetic::power2::{lemma2_to64, lemma_pow2_adds, lemma_pow2_pos, pow2};
use vstd::prelude::*;
use vstd::string::*;

verus! {

/// A refused request: an HTTP status and a public message.
#[derive(Clone, Copy, Debug, PartialEq, Eq)]
pub struct ApiError {
    pub status: u16,
    pub message: &'static str,
}

/// An error by what it says.
pub open spec fn says(error: ApiError, status: u16, message: &str) -> bool {
    error.status == status && error.message@ == message@
}

pub fn public_error(status: u16, message: &'static str) -> (error: ApiError)
    ensures
        says(error, status, message),
{
    ApiError { status, message }
}

/// The default origin of the server, for clients that are built without another.
pub fn configured_api_url(configured: Option<&str>) -> (url: String)
    ensures
        url@ == (match configured {
            Some(origin) => origin@,
            None => "http://localhost:8080"@,
        }),
{
    match configured {
        Some(origin) => origin.to_owned(),
        None => "http://localhost:8080".to_owned(),
    }
}

/// A positive number from a setting; the default where the setting is missing
/// or anything else.
pub open spec fn setting_or(value: Option<&str>, default: u64) -> u64 {
    match value {
        Some(text) => match number_of(text@, u64::MAX as nat) {
            Some(n) => if n > 0 {
                n as u64
            } else {
                default
            },
            None => default,
        },
        None => default,
    }
}

pub fn configured_number(value: Option<&str>, default: u64) -> (number: u64)
    ensures
        number == setting_or(value, default),
{
    match value {
        Some(text) => match parse_number(text, u64::MAX) {
            Some(n) => if n > 0 {
                n
            } else {
                default
            },
            None => default,
        },
        None => default,
    }
}

/// Refuses the target of a profile that is no place on Earth.
pub fn check_profile_target(latitude: Binary64, longitude: Binary64) -> (checked: Result<
    (),
    ApiError,
>)
    ensures
        checked is Ok <==> is_latitude(latitude) && is_longitude(longitude),
        checked matches Err(e) ==> says(e, 400, "target coordinates"),
{
    if !check_latitude(latitude) || !check_longitude(longitude) {
        return Err(public_error(400, "target coordinates"));
    }
    Ok(())
}

/// Refuses the target of a profile that is farther than the radar reaches.
pub fn check_profile_distance(distance_m: Binary64, range_m: Binary64) -> (checked: Result<
    (),
    ApiError,
>)
    ensures
        checked is Err <==> range_m.spec_lt(distance_m),
        checked matches Err(e) ==> says(e, 400, "target outside radar range"),
{
    if range_m.lt(distance_m) {
        return Err(public_error(400, "target outside radar range"));
    }
    Ok(())
}

/// A radar by its 128-bit identifier.
#[derive(Debug)]
pub struct Radar {
    pub id: u128,
    pub name: String,
    pub latitude: Binary64,
    pub longitude: Binary64,
    pub antenna_agl_m: Binary64,
    pub range_m: Binary64,
    pub active: bool,
}

impl Clone for Radar {
    fn clone(&self) -> (copy: Self)
        ensures
            copy == *self,
    {
        Radar {
            id: self.id,
            name: self.name.clone(),
            latitude: self.latitude,
            longitude: self.longitude,
            antenna_agl_m: self.antenna_agl_m,
            range_m: self.range_m,
            active: self.active,
        }
    }
}

/// A range from zero to four hundred kilometres.
pub open spec fn is_range(number: Binary64) -> bool {
    crate::terrain::within(0, number, 0x4118_6a00_0000_0000)
}

impl Radar {
    /// What is wrong with a radar, if anything is.
    pub open spec fn fault(&self) -> Option<Seq<char>> {
        if !is_latitude(self.latitude) {
            Some("latitude"@)
        } else if !is_longitude(self.longitude) {
            Some("longitude"@)
        } else if !is_range(self.range_m) {
            Some("range"@)
        } else {
            None
        }
    }

    pub fn validate(&self) -> (checked: Result<(), &'static str>)
        ensures
            checked is Ok <==> self.fault() is None,
            checked matches Err(fault) ==> self.fault() == Some(fault@),
    {
        if !check_latitude(self.latitude) {
            return Err("latitude");
        }
        if !check_longitude(self.longitude) {
            return Err("longitude");
        }
        if !(Binary64::from_bits(0).le(self.range_m) && self.range_m.le(
            Binary64::from_bits(0x4118_6a00_0000_0000),
        )) {
            return Err("range");
        }
        Ok(())
    }
}

/// Refuses a radar that is not valid.
pub fn validate_radar(radar: &Radar) -> (checked: Result<(), ApiError>)
    ensures
        checked is Ok <==> radar.fault() is None,
        checked matches Err(e) ==> e.status == 400 && radar.fault() == Some(e.message@),
{
    match radar.validate() {
        Ok(()) => Ok(()),
        Err(fault) => Err(public_error(400, fault)),
    }
}

#[derive(Debug)]
pub struct FusionRequest {
    pub radar_ids: Vec<u128>,
    pub target_agl_m: u16,
}

#[derive(Clone, Copy, Debug, PartialEq, Eq, Structural)]
pub enum JobState {
    Queued,
    Running,
    Completed,
    Failed,
    Cancelled,
}

/// The registered radars, one per identifier.
pub struct RadarRegistry {
    radars: Vec<Radar>,
}

impl RadarRegistry {
    pub closed spec fn spec_radars(&self) -> Seq<Radar> {
        self.radars@
    }

    /// No identifier is registered twice.
    pub open spec fn wf(&self) -> bool {
        forall|i: int, j: int|
            0 <= i < j < self.spec_radars().len() ==> (#[trigger] self.spec_radars()[i]).id != (
            #[trigger] self.spec_radars()[j]).id
    }

    pub open spec fn contains(&self, id: u128) -> bool {
        exists|i: int| 0 <= i < self.spec_radars().len() && (#[trigger] self.spec_radars()[i]).id == id
    }

    /// A radar is registered as it is given.
    pub open spec fn has(&self, radar: Radar) -> bool {
        self.spec_radars().contains(radar)
    }

    pub fn new() -> (registry: Self)
        ensures
            registry.wf(),
            registry.spec_radars() == Seq::<Radar>::empty(),
    {
        RadarRegistry { radars: Vec::new() }
    }

    fn find(&self, id: u128) -> (place: Option<usize>)
        requires
            self.wf(),
        ensures
            place matches Some(i) ==> i < self.spec_radars().len() && self.spec_radars()[i as int].id
                == id,
            place is None ==> !self.contains(id),
    {
        let mut i: usize = 0;
        while i < self.radars.len()
            invariant
                i <= self.radars@.len(),
                forall|j: int| 0 <= j < i ==> (#[trigger] self.spec_radars()[j]).id != id,
            decreases self.radars@.len() - i,
        {
            if self.radars[i].id == id {
                return Some(i);
            }
            i += 1;
        }
        None
    }

    /// All registered radars.
    pub fn list(&self) -> (radars: &[Radar])
        ensures
            radars@ == self.spec_radars(),
    {
        self.radars.as_slice()
    }

    /// The radars after one was put in: those with other identifiers, and it.
    pub open spec fn is_put(before: Self, after: Self, radar: Radar) -> bool {
        &&& after.wf()
        &&& after.has(radar)
        &&& forall|other: Radar| other.id != radar.id ==> (before.has(other) <==> #[trigger] after.has(other))
    }

    fn put(&mut self, radar: Radar)
        requires
            old(self).wf(),
        ensures
            Self::is_put(*old(self), *final(self), radar),
    {
        let ghost before = self.radars@;
        match self.find(radar.id) {
            Some(i) => {
                self.radars[i] = radar;
                proof {
                    assert(self.radars@[i as int] == radar);
                    assert forall|other: Radar| other.id != radar.id implies (old(self).has(other)
                        <==> #[trigger] self.has(other)) by {
                        if old(self).has(other) {
                            let j = choose|j: int| 0 <= j < before.len() && before[j] == other;
                            assert(self.radars@[j] == other);
                        }
                        if self.has(other) {
                            let j = choose|j: int|
                                0 <= j < self.radars@.len() && self.radars@[j] == other;
                            assert(before[j] == other);
                        }
                    }
                    assert forall|a: int, b: int| 0 <= a < b < self.spec_radars().len() implies (
                    #[trigger] self.spec_radars()[a]).id != (#[trigger] self.spec_radars()[b]).id by {
                        assert(old(self).spec_radars()[a].id != old(self).spec_radars()[b].id);
                    }
                }
            },
            None => {
                self.radars.push(radar);
                proof {
                    assert(self.radars@[before.len() as int] == radar);
                    assert forall|other: Radar| other.id != radar.id implies (old(self).has(other)
                        <==> #[trigger] self.has(other)) by {
                        if old(self).has(other) {
                            let j = choose|j: int| 0 <= j < before.len() && before[j] == other;
                            assert(self.radars@[j] == other);
                        }
                        if self.has(other) {
                            let j = choose|j: int|
                                0 <= j < self.radars@.len() && self.radars@[j] == other;
                            assert(before[j] == other);
                        }
                    }
                    assert forall|a: int, b: int| 0 <= a < b < self.spec_radars().len() implies (
                    #[trigger] self.spec_radars()[a]).id != (#[trigger] self.spec_radars()[b]).id by {
                        if b < before.len() {
                            assert(old(self).spec_radars()[a].id != old(self).spec_radars()[b].id);
                        } else {
                            assert(old(self).spec_radars()[a].id != radar.id);
                        }
                    }
                }
            },
        }
    }

    /// Registers a radar under its own identifier.
    pub fn create_radar(&mut self, radar: Radar) -> (created: Result<(), ApiError>)
        requires
            old(self).wf(),
        ensures
            created is Ok <==> radar.fault() is None,
            created is Ok ==> Self::is_put(*old(self), *final(self), radar),
            created matches Err(e) ==> e.status == 400 && radar.fault() == Some(e.message@)
                && *final(self) == *old(self),
    {
        match validate_radar(&radar) {
            Err(error) => Err(error),
            Ok(()) => {
                self.put(radar);
                Ok(())
            },
        }
    }

    /// Replaces a registered radar. The identifier of the request wins over the
    /// one in its body.
    pub fn update_radar(&mut self, id: u128, radar: Radar) -> (updated: Result<Radar, ApiError>)
        requires
            old(self).wf(),
        ensures
            updated matches Ok(stored) ==> {
                &&& radar.fault() is None
                &&& old(self).contains(id)
                &&& stored == (Radar { id, ..radar })
                &&& Self::is_put(*old(self), *final(self), stored)
            },
            updated matches Err(e) ==> *final(self) == *old(self) && if radar.fault() is Some {
                e.status == 400 && radar.fault() == Some(e.message@)
            } else {
                !old(self).contains(id) && says(e, 404, "radar not found")
            },
    {
        match validate_radar(&radar) {
            Err(error) => {
                return Err(error);
            },
            Ok(()) => {},
        }
        match self.find(id) {
            None => Err(public_error(404, "radar not found")),
            Some(i) => {
                assert(self.spec_radars()[i as int].id == id);
                let stored = Radar {
                    id,
                    name: radar.name,
                    latitude: radar.latitude,
                    longitude: radar.longitude,
                    antenna_agl_m: radar.antenna_agl_m,
                    range_m: radar.range_m,
                    active: radar.active,
                };
                self.put(stored.clone());
                Ok(stored)
            },
        }
    }

    pub fn get_radar(&self, id: u128) -> (found: Result<Radar, ApiError>)
        requires
            self.wf(),
        ensures
            found matches Ok(radar) ==> radar.id == id && self.has(radar),
            found matches Err(e) ==> !self.contains(id) && says(e, 404, "radar not found"),
    {
        match self.find(id) {
            Some(i) => {
                assert(self.spec_radars()[i as int] == self.radars@[i as int]);
                Ok(self.radars[i].clone())
            },
            None => Err(public_error(404, "radar not found")),
        }
    }
}

/// A radar that was put in is the one that is found.
pub proof fn law_registered_radar_is_found(registry: RadarRegistry, radar: Radar, found: Radar)
    requires
        registry.wf(),
        registry.has(radar),
        registry.has(found),
        found.id == radar.id,
    ensures
        found == radar,
        registry.contains(radar.id),
{
    let s = registry.spec_radars();
    let i = choose|i: int| 0 <= i < s.len() && s[i] == radar;
    let j = choose|j: int| 0 <= j < s.len() && s[j] == found;
    assert(s[i].id == radar.id);
    if i < j {
        assert(s[i].id != s[j].id);
    } else if j < i {
        assert(s[j].id != s[i].id);
    }
}

/// The digits of an identifier from one place to another, counted from the most
/// significant of its 32 hexadecimal digits.
pub open spec fn id_digits(id: u128, from: int, to: int) -> Seq<char> {
    Seq::new((to - from) as nat, |i: int| digit_char(id_digit(id as int, from + i)))
}

/// One of the 32 hexadecimal digits of an identifier.
pub open spec fn id_digit(id: int, place: int) -> int {
    (id / vstd::arithmetic::power::pow(16, (31 - place) as nat)) % 16
}

/// The text of an identifier: five groups of hexadecimal digits.
pub open spec fn spec_id_text(id: u128) -> Seq<char> {
    id_digits(id, 0, 8) + seq!['-'] + id_digits(id, 8, 12) + seq!['-'] + id_digits(id, 12, 16)
        + seq!['-'] + id_digits(id, 16, 20) + seq!['-'] + id_digits(id, 20, 32)
}

fn push_id_digits(out: &mut String, id: u128, from: usize, to: usize)
    requires
        from <= to <= 32,
    ensures
        final(out)@ == old(out)@ + id_digits(id, from as int, to as int),
{
    let mut i: usize = from;
    assert(out@ =~= old(out)@ + id_digits(id, from as int, i as int));
    while i < to
        invariant
            from <= i <= to <= 32,
            out@ == old(out)@ + id_digits(id, from as int, i as int),
        decreases to - i,
    {
        let digit: u8 = digit_at(id, i);
        out.push(to_digit_char(digit));
        i += 1;
        assert(out@ =~= old(out)@ + id_digits(id, from as int, i as int));
    }
}

fn digit_at(id: u128, place: usize) -> (digit: u8)
    requires
        place < 32,
    ensures
        digit == id_digit(id as int, place as int),
        digit < 16,
{
    let mut rest: u128 = id;
    let mut i: usize = 31;
    proof {
        vstd::arithmetic::power::lemma_pow0(16);
    }
    while i > place
        invariant
            place <= i <= 31,
            rest == id as int / vstd::arithmetic::power::pow(16, (31 - i) as nat),
        decreases i,
    {
        proof {
            let p = vstd::arithmetic::power::pow(16, (31 - i) as nat);
            vstd::arithmetic::power::lemma_pow_adds(16, (31 - i) as nat, 1);
            vstd::arithmetic::power::lemma_pow1(16);
            vstd::arithmetic::power::lemma_pow_positive(16, (31 - i) as nat);
            vstd::arithmetic::div_mod::lemma_div_denominator(id as int, p, 16);
        }
        rest = rest / 16;
        i -= 1;
    }
    (rest % 16) as u8
}

/// The text of an identifier.
pub fn id_text(id: u128) -> (text: String)
    ensures
        text@ == spec_id_text(id),
{
    let mut text = String::new();
    push_id_digits(&mut text, id, 0, 8);
    text.push('-');
    push_id_digits(&mut text, id, 8, 12);
    text.push('-');
    push_id_digits(&mut text, id, 12, 16);
    text.push('-');
    push_id_digits(&mut text, id, 16, 20);
    text.push('-');
    push_id_digits(&mut text, id, 20, 32);
    assert(text@ =~= spec_id_text(id));
    text
}

/// Different identifiers have different texts.
pub proof fn law_identifiers_have_distinct_texts(a: u128, b: u128)
    requires
        spec_id_text(a) == spec_id_text(b),
    ensures
        a == b,
{
    assert forall|place: int| 0 <= place < 32 implies #[trigger] id_digit(a as int, place)
        == id_digit(b as int, place) by {
        let at = if place < 8 {
            place
        } else if place < 12 {
            place + 1
        } else if place < 16 {
            place + 2
        } else if place < 20 {
            place + 3
        } else {
            place + 4
        };
        assert(spec_id_text(a)[at] == digit_char(id_digit(a as int, place)));
        assert(spec_id_text(b)[at] == digit_char(id_digit(b as int, place)));
        vstd::arithmetic::power::lemma_pow_positive(16, (31 - place) as nat);
    }
    lemma_same_digits(a, b, 0);
    vstd::arithmetic::power::lemma_pow0(16);
}

/// Numbers with the same 32 digits agree from any digit upwards.
proof fn lemma_same_digits(a: u128, b: u128, k: nat)
    requires
        k <= 32,
        forall|place: int|
            0 <= place < 32 ==> #[trigger] id_digit(a as int, place) == id_digit(b as int, place),
    ensures
        a as int / vstd::arithmetic::power::pow(16, k) == b as int
            / vstd::arithmetic::power::pow(16, k),
    decreases 32 - k,
{
    if k == 32 {
        assert(vstd::arithmetic::power::pow(16, 32)
            == 0x1_0000_0000_0000_0000_0000_0000_0000_0000) by {
            reveal(vstd::arithmetic::power::pow);
            reveal_with_fuel(vstd::arithmetic::power::pow, 33);
        }
    } else {
        lemma_same_digits(a, b, k + 1);
        let p = vstd::arithmetic::power::pow(16, k);
        vstd::arithmetic::power::lemma_pow_adds(16, k, 1);
        vstd::arithmetic::power::lemma_pow1(16);
        vstd::arithmetic::power::lemma_pow_positive(16, k);
        vstd::arithmetic::div_mod::lemma_div_denominator(a as int, p, 16);
        vstd::arithmetic::div_mod::lemma_div_denominator(b as int, p, 16);
        assert(id_digit(a as int, 31 - k) == id_digit(b as int, 31 - k));
    }
}

/// A radar's range runs from nothing to four hundred kilometres.
pub proof fn law_radar_range_ends_at_four_hundred_kilometres(range_m: Binary64)
    ensures
        is_range(range_m) <==> {
            &&& range_m.spec_is_finite()
            &&& range_m.bits <= 0x8000_0000_0000_0000
            &&& range_m.exponent() < 0
            &&& range_m.significand() <= 400_000 * pow2((-range_m.exponent()) as nat)
        },
{
    let most = Binary64::from_bits(0x4118_6a00_0000_0000);
    lemma2_to64();
    lemma_pow2_adds(32, 2);
    assert(most.exponent() == -34);
    assert(most.significand() == 400_000 * pow2(34));
    if range_m.bits == 0x8000_0000_0000_0000 {
        lemma_pow2_pos(1074);
    } else if range_m.bits < INFINITE_MAGNITUDE {
        let e = range_m.exponent();
        if e <= -34 {
            law_order_is_numeric(range_m, most);
            let more = (-34 - e) as nat;
            lemma_pow2_adds(34, more);
            assert(most.significand() * pow2(more) == 400_000 * pow2((-e) as nat))
                by (nonlinear_arith)
                requires
                    most.significand() == 400_000 * pow2(34),
                    pow2(34) * pow2(more) == pow2((-e) as nat),
            ;
        } else if e < 0 {
            let places = (-e) as nat;
            lemma_pow2_adds(places, (33 - places) as nat);
            lemma_pow2_pos((33 - places) as nat);
            lemma_pow2_adds(32, 1);
            assert(pow2(places) <= pow2(33)) by (nonlinear_arith)
                requires
                    pow2(places) * pow2((33 - places) as nat) == pow2(33),
                    pow2((33 - places) as nat) >= 1,
                    pow2(places) >= 0,
            ;
            assert(range_m.bits > most.bits);
        } else {
            assert(range_m.bits > most.bits);
        }
    }
}

/// A radar is faultless just where its place is on the globe and its range is one.
/// The first of latitude, longitude and range that is wrong is named.
pub proof fn law_first_fault_is_named(radar: Radar)
    ensures
        radar.fault() is None <==> is_latitude(radar.latitude) && is_longitude(radar.longitude)
            && is_range(radar.range_m),
        !is_latitude(radar.latitude) ==> radar.fault() == Some("latitude"@),
        is_latitude(radar.latitude) && !is_longitude(radar.longitude) ==> radar.fault() == Some(
            "longitude"@,
        ),
        is_latitude(radar.latitude) && is_longitude(radar.longitude) && !is_range(radar.range_m)
            ==> radar.fault() == Some("range"@),
{
}

/// A setting is the number that its text says, where that is a positive one, and the
/// default otherwise.
pub proof fn law_setting_is_positive_or_default(value: Option<&str>, default: u64, n: u64)
    ensures
        value is None ==> setting_or(value, default) == default,
        value is Some && number_of(value->0@, u64::MAX as nat) is None ==> setting_or(
            value,
            default,
        ) == default,
        n > 0 && value is Some && value->0@ == decimal(n as nat) ==> setting_or(value, default)
            == n,
        setting_or(value, default) == default || setting_or(value, default) > 0,
        value is Some && value->0@ == decimal(0) ==> setting_or(value, default) == default,
{
    law_decimal_is_read_back(n as nat, u64::MAX as nat);
    law_decimal_is_read_back(0, u64::MAX as nat);
}

/// The text of an identifier has dashes after eight, twelve, sixteen and twenty
/// digits, and each digit is that of the number, the highest first.
pub proof fn law_identifier_text_shows_its_digits(id: u128, place: int)
    requires
        0 <= place < 32,
    ensures
        ({
            let text = spec_id_text(id);
            let at: int = if place < 8 {
                place
            } else if place < 12 {
                place + 1
            } else if place < 16 {
                place + 2
            } else if place < 20 {
                place + 3
            } else {
                place + 4
            };
            let code = text[at] as int;
            let digit = if code < 97 {
                code - 48
            } else {
                code - 97 + 10
            };
            &&& text.len() == 36
            &&& text[8] == '-' && text[13] == '-' && text[18] == '-' && text[23] == '-'
            &&& digit == (id as int / vstd::arithmetic::power::pow(16, (31 - place) as nat)) % 16
        }),
{
    let text = spec_id_text(id);
    let digit = id_digit(id as int, place);
    assert(0 <= digit < 16);
    if place < 8 {
        assert(text[place] == digit_char(digit));
    } else if place < 12 {
        assert(text[place + 1] == digit_char(digit));
    } else if place < 16 {
        assert(text[place + 2] == digit_char(digit));
    } else if place < 20 {
        assert(text[place + 3] == digit_char(digit));
    } else {
        assert(text[place + 4] == digit_char(digit));
    }
}

/// Putting a radar in replaces the one with its identifier, and touches no other.
pub proof fn law_put_replaces_only_its_own(
    before: RadarRegistry,
    after: RadarRegistry,
    radar: Radar,
    other: Radar,
)
    requires
        RadarRegistry::is_put(before, after, radar),
    ensures
        after.spec_radars().contains(radar),
        other.id == radar.id && after.spec_radars().contains(other) ==> other == radar,
        other.id != radar.id ==> (before.spec_radars().contains(other)
            <==> after.spec_radars().contains(other)),
{
    assert(before.has(other) == before.spec_radars().contains(other));
    assert(after.has(other) == after.spec_radars().contains(other));
    if other.id == radar.id && after.spec_radars().contains(other) {
        law_registered_radar_is_found(after, radar, other);
    }
}

} // verus!
