//! Names, limits and retries of the elevation tile cache.
use crate::terrain::{TerrainError, TileCoordinate};
use crate::text::{decimal, digit_char, digits_value, padded_decimal, push_padded};
use vstd::arithmetic::power2::{lemma2_to64, lemma_pow2_unfold, pow2};
use vstd::prelude::*;
use vstd::string::*;

verus! {

#[derive(Debug)]
pub struct SrtmCacheConfig {
    pub disk_directory: String,
    pub max_download_bytes: usize,
    pub request_timeout_s: u64,
    pub retries: u8,
    pub max_concurrent_downloads: usize,
}

impl Default for SrtmCacheConfig {
    fn default() -> (config: Self)
        ensures
            config.disk_directory@ == "data/srtm"@,
            config.max_download_bytes == 30_000_000,
            config.request_timeout_s == 30,
            config.retries == 2,
            config.max_concurrent_downloads == 4,
    {
        SrtmCacheConfig {
            disk_directory: "data/srtm".to_owned(),
            max_download_bytes: 30_000_000,
            request_timeout_s: 30,
            retries: 2,
            max_concurrent_downloads: 4,
        }
    }
}

impl SrtmCacheConfig {
    /// A cache that may not download anything at a time is refused.
    pub fn check(&self) -> (checked: Result<(), TerrainError>)
        ensures
            checked is Ok <==> self.max_concurrent_downloads > 0,
            checked matches Err(e) ==> (e matches TerrainError::Network(reason) && reason@
                == "download concurrency must be positive"@),
    {
        if self.max_concurrent_downloads == 0 {
            return Err(
                TerrainError::Network("download concurrency must be positive".to_owned()),
            );
        }
        Ok(())
    }

    /// A file of the disk cache may not be larger than a download.
    pub fn check_file(&self, len: u64) -> (checked: Result<(), TerrainError>)
        ensures
            checked is Ok <==> len <= self.max_download_bytes,
            checked matches Err(e) ==> e == TerrainError::TooLarge,
    {
        if len > self.max_download_bytes as u64 {
            return Err(TerrainError::TooLarge);
        }
        Ok(())
    }
}

/// The number without its sign.
pub open spec fn size(n: i16) -> nat {
    if n < 0 {
        (-(n as int)) as nat
    } else {
        n as nat
    }
}

fn to_size(n: i16) -> (size_of_n: u16)
    ensures
        size_of_n == size(n),
{
    if n < 0 {
        (-(n as i32)) as u16
    } else {
        n as u16
    }
}

/// The canonical name of a tile: hemisphere and latitude with two digits, then
/// hemisphere and longitude with three.
pub open spec fn spec_tile_name(c: TileCoordinate) -> Seq<char> {
    seq![
        if c.lat >= 0 {
            'N'
        } else {
            'S'
        },
    ] + padded_decimal(size(c.lat), 2) + seq![
        if c.lon >= 0 {
            'E'
        } else {
            'W'
        },
    ] + padded_decimal(size(c.lon), 3)
}

pub fn tile_name(c: TileCoordinate) -> (name: String)
    ensures
        name@ == spec_tile_name(c),
{
    let mut name = String::new();
    name.push(
        if c.lat >= 0 {
            'N'
        } else {
            'S'
        },
    );
    push_padded(&mut name, to_size(c.lat), 2);
    name.push(
        if c.lon >= 0 {
            'E'
        } else {
            'W'
        },
    );
    push_padded(&mut name, to_size(c.lon), 3);
    assert(name@ =~= spec_tile_name(c));
    name
}

/// The name of a tile's file in the disk cache.
pub fn tile_file_name(c: TileCoordinate) -> (name: String)
    ensures
        name@ == spec_tile_name(c) + ".hgt.gz"@,
{
    let mut name = tile_name(c);
    name.append(".hgt.gz");
    name
}

/// Where a tile is downloaded from: the directory of its latitude band, which is
/// the first three characters of its name.
pub fn tile_url(c: TileCoordinate) -> (url: String)
    ensures
        url@ == "https://s3.amazonaws.com/elevation-tiles-prod/skadi/"@ + spec_tile_name(c).take(3)
            + "/"@ + spec_tile_name(c) + ".hgt.gz"@,
{
    let name = tile_name(c);
    proof {
        lemma_name_len(c);
    }
    let mut url = "https://s3.amazonaws.com/elevation-tiles-prod/skadi/".to_owned();
    url.append(name.as_str().substring_char(0, 3));
    url.append("/");
    url.append(name.as_str());
    url.append(".hgt.gz");
    assert(name@.subrange(0, 3) =~= name@.take(3));
    url
}

proof fn lemma_name_len(c: TileCoordinate)
    ensures
        spec_tile_name(c).len() >= 7,
{
}

/// What to do after a failed request.
#[derive(Debug)]
pub enum Retry {
    /// Wait for some milliseconds and try again.
    After(u64),
    GiveUp(TerrainError),
}

/// The wait after an attempt: it doubles each time, as far as it can be counted.
pub open spec fn retry_delay_ms(attempt: u8) -> nat {
    counted(100 * pow2(attempt as nat))
}

/// A number, or the largest one that can be counted.
pub open spec fn counted(n: nat) -> nat {
    if n > u64::MAX {
        u64::MAX as nat
    } else {
        n
    }
}

/// Decides what follows a request that failed. The last attempt is the one with
/// the number of retries; its reason is reported.
pub fn after_failure(config: &SrtmCacheConfig, attempt: u8, reason: String) -> (next: Retry)
    ensures
        attempt < config.retries ==> (next matches Retry::After(ms) && ms == retry_delay_ms(
            attempt,
        )),
        attempt >= config.retries ==> next == Retry::GiveUp(TerrainError::Network(reason)),
{
    if attempt < config.retries {
        let mut delay: u64 = 100;
        let mut i: u8 = 0;
        proof {
            lemma2_to64();
        }
        while i < attempt
            invariant
                i <= attempt,
                delay == counted(100 * pow2(i as nat)),
            decreases attempt - i,
        {
            proof {
                lemma_pow2_unfold((i + 1) as nat);
            }
            delay = match delay.checked_mul(2) {
                Some(doubled) => doubled,
                None => u64::MAX,
            };
            i += 1;
        }
        Retry::After(delay)
    } else {
        Retry::GiveUp(TerrainError::Network(reason))
    }
}

/// A download may not announce more bytes than allowed.
pub fn check_announced(config: &SrtmCacheConfig, content_length: Option<u64>) -> (checked: Result<
    (),
    TerrainError,
>)
    ensures
        checked is Ok <==> (content_length matches Some(n) ==> n <= config.max_download_bytes),
        checked matches Err(e) ==> e == TerrainError::TooLarge,
{
    match content_length {
        Some(n) => config.check_file(n),
        None => Ok(()),
    }
}

/// A download may not have more bytes than allowed.
pub fn check_body(config: &SrtmCacheConfig, body: &[u8]) -> (checked: Result<(), TerrainError>)
    ensures
        checked is Ok <==> body@.len() <= config.max_download_bytes,
        checked matches Err(e) ==> e == TerrainError::TooLarge,
{
    if body.len() > config.max_download_bytes {
        return Err(TerrainError::TooLarge);
    }
    Ok(())
}

/// What a download asks for next.
#[derive(Debug)]
pub enum DownloadStep {
    /// Send a request for the tile.
    Request,
    /// Read the body of the answer.
    Body,
    /// Wait for some milliseconds.
    Wait(u64),
    /// Nothing: the body is complete.
    Complete,
    Failed(TerrainError),
}

/// A download that is tried again after failed requests.
pub struct TileDownload<'a> {
    config: &'a SrtmCacheConfig,
    attempt: u8,
    step: DownloadStep,
}

impl<'a> TileDownload<'a> {
    pub closed spec fn spec_config(&self) -> SrtmCacheConfig {
        *self.config
    }

    /// The number of the current request, from zero.
    pub closed spec fn spec_attempt(&self) -> u8 {
        self.attempt
    }

    pub closed spec fn spec_step(&self) -> DownloadStep {
        self.step
    }

    /// No more requests are sent than there are retries, and one.
    pub open spec fn wf(&self) -> bool {
        &&& self.spec_attempt() <= self.spec_config().retries
        &&& self.spec_step() is Wait ==> self.spec_attempt() < self.spec_config().retries
    }

    pub fn new(config: &'a SrtmCacheConfig) -> (download: Self)
        ensures
            download.wf(),
            download.spec_config() == *config,
            download.spec_attempt() == 0,
            download.spec_step() is Request,
    {
        TileDownload { config, attempt: 0, step: DownloadStep::Request }
    }

    pub fn step(&self) -> (step: &DownloadStep)
        ensures
            *step == self.spec_step(),
    {
        &self.step
    }

    /// What the download has come to.
    pub fn into_step(self) -> (step: DownloadStep)
        ensures
            step == self.spec_step(),
    {
        self.step
    }

    /// Takes in an answer with a success status and the length that it announces.
    pub fn take_success(&mut self, content_length: Option<u64>)
        requires
            old(self).wf(),
            old(self).spec_step() is Request,
        ensures
            final(self).wf(),
            final(self).spec_config() == old(self).spec_config(),
            final(self).spec_attempt() == old(self).spec_attempt(),
            final(self).spec_step() == (if content_length matches Some(n) && n > old(
                self,
            ).spec_config().max_download_bytes {
                DownloadStep::Failed(TerrainError::TooLarge)
            } else {
                DownloadStep::Body
            }),
    {
        self.step = match check_announced(self.config, content_length) {
            Ok(()) => DownloadStep::Body,
            Err(error) => DownloadStep::Failed(error),
        };
    }

    /// Takes in the reason why a request failed.
    pub fn take_failure(&mut self, reason: String)
        requires
            old(self).wf(),
            old(self).spec_step() is Request,
        ensures
            final(self).wf(),
            final(self).spec_config() == old(self).spec_config(),
            final(self).spec_attempt() == old(self).spec_attempt(),
            if old(self).spec_attempt() < old(self).spec_config().retries {
                final(self).spec_step() matches DownloadStep::Wait(ms) && ms == retry_delay_ms(
                    old(self).spec_attempt(),
                )
            } else {
                final(self).spec_step() == DownloadStep::Failed(TerrainError::Network(reason))
            },
    {
        self.step = match after_failure(self.config, self.attempt, reason) {
            Retry::After(ms) => DownloadStep::Wait(ms),
            Retry::GiveUp(error) => DownloadStep::Failed(error),
        };
    }

    /// Goes on after a wait.
    pub fn take_wait(&mut self)
        requires
            old(self).wf(),
            old(self).spec_step() is Wait,
        ensures
            final(self).wf(),
            final(self).spec_config() == old(self).spec_config(),
            final(self).spec_attempt() == old(self).spec_attempt() + 1,
            final(self).spec_step() is Request,
    {
        self.attempt = self.attempt + 1;
        self.step = DownloadStep::Request;
    }

    /// Takes in the body, or the reason why it could not be read, which is not
    /// tried again.
    pub fn take_body(&mut self, body: Result<&[u8], String>)
        requires
            old(self).wf(),
            old(self).spec_step() is Body,
        ensures
            final(self).wf(),
            final(self).spec_config() == old(self).spec_config(),
            final(self).spec_attempt() == old(self).spec_attempt(),
            final(self).spec_step() == (match body {
                Err(reason) => DownloadStep::Failed(TerrainError::Network(reason)),
                Ok(bytes) => if bytes@.len() > old(self).spec_config().max_download_bytes {
                    DownloadStep::Failed(TerrainError::TooLarge)
                } else {
                    DownloadStep::Complete
                },
            }),
    {
        self.step = match body {
            Err(reason) => DownloadStep::Failed(TerrainError::Network(reason)),
            Ok(bytes) => match check_body(self.config, bytes) {
                Ok(()) => DownloadStep::Complete,
                Err(error) => DownloadStep::Failed(error),
            },
        };
    }
}

/// Tiles of the globe have different names, so that none takes the place of
/// another in the cache.
pub proof fn law_tile_names_are_unique(a: TileCoordinate, b: TileCoordinate)
    requires
        -90 <= a.lat <= 90,
        -180 <= a.lon <= 180,
        -90 <= b.lat <= 90,
        -180 <= b.lon <= 180,
        spec_tile_name(a) == spec_tile_name(b),
    ensures
        a == b,
{
    lemma_padded_number(size(a.lat), 2);
    lemma_padded_number(size(b.lat), 2);
    lemma_padded_number(size(a.lon), 3);
    lemma_padded_number(size(b.lon), 3);
    let left = spec_tile_name(a);
    let right = spec_tile_name(b);
    assert(left[0] == right[0]);
    assert(left[3] == right[3]);
    assert(left.subrange(1, 3) =~= padded_decimal(size(a.lat), 2));
    assert(right.subrange(1, 3) =~= padded_decimal(size(b.lat), 2));
    assert(left.subrange(4, 7) =~= padded_decimal(size(a.lon), 3));
    assert(right.subrange(4, 7) =~= padded_decimal(size(b.lon), 3));
}

/// A number that fits a width has that many digits, which say what it is.
proof fn lemma_padded_number(n: nat, width: nat)
    requires
        width == 2 && n < 100 || width == 3 && n < 1000,
    ensures
        padded_decimal(n, width).len() == width,
        digits_value(padded_decimal(n, width)) == n,
{
    reveal_with_fuel(decimal, 4);
    reveal_with_fuel(digits_value, 4);
    let digits = padded_decimal(n, width);
    if width == 2 {
        assert(digits =~= seq![digit_char((n / 10) as int), digit_char((n % 10) as int)]);
        assert(digits.drop_last() =~= seq![digit_char((n / 10) as int)]);
        assert(digits.drop_last().drop_last() =~= Seq::<char>::empty());
    } else {
        let hundreds = digit_char((n / 100) as int);
        let tens = digit_char((n / 10 % 10) as int);
        assert(n / 10 / 10 == n / 100);
        assert(digits =~= seq![hundreds, tens, digit_char((n % 10) as int)]);
        assert(digits.drop_last() =~= seq![hundreds, tens]);
        assert(digits.drop_last().drop_last() =~= seq![hundreds]);
        assert(digits.drop_last().drop_last().drop_last() =~= Seq::<char>::empty());
    }
}

/// The name of a tile says where its corner lies: the hemispheres by their letters,
/// and the degrees in two and three digits.
pub proof fn law_tile_name_says_its_corner(c: TileCoordinate)
    requires
        -90 <= c.lat <= 90,
        -180 <= c.lon <= 180,
    ensures
        ({
            let name = spec_tile_name(c);
            let north = digits_value(name.subrange(1, 3)) as int;
            let east = digits_value(name.subrange(4, 7)) as int;
            &&& name.len() == 7
            &&& name[0] == 'N' || name[0] == 'S'
            &&& name[3] == 'E' || name[3] == 'W'
            &&& name[0] == 'N' ==> c.lat == north
            &&& name[0] == 'S' ==> c.lat == -north && c.lat < 0
            &&& name[3] == 'E' ==> c.lon == east
            &&& name[3] == 'W' ==> c.lon == -east && c.lon < 0
        }),
{
    lemma_padded_number(size(c.lat), 2);
    lemma_padded_number(size(c.lon), 3);
    let name = spec_tile_name(c);
    assert(name.subrange(1, 3) =~= padded_decimal(size(c.lat), 2));
    assert(name.subrange(4, 7) =~= padded_decimal(size(c.lon), 3));
}

/// Each wait is twice as long as the one before it, from a tenth of a second on, as
/// far as milliseconds are counted.
pub proof fn law_each_wait_doubles(attempt: u8)
    requires
        attempt < 255,
    ensures
        retry_delay_ms(0) == 100,
        ({
            let (before, after) = (
                retry_delay_ms(attempt) as int,
                retry_delay_ms((attempt + 1) as u8) as int,
            );
            after == 2 * before || (after == u64::MAX && 2 * before > u64::MAX)
        }),
{
    lemma2_to64();
    lemma_pow2_unfold(attempt as nat + 1);
}

} // verus!
