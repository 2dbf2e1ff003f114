//! A xorshift generator of 64 bits.

use vstd::prelude::*;

verus! {

/// A point in time, as the system's clock gives it.
#[verifier::external_type_specification]
#[verifier::external_body]
pub struct ExSystemTime(std::time::SystemTime);

/// `getrandom::u64`: eight bytes from the system's source of randomness, or
/// nothing where that source fails. Nothing is known of the number.
#[verifier::external_body]
fn entropy() -> (r: Option<u64>) {
    getrandom::u64().ok()
}

/// `SystemTime::now`: the time by the system's clock. Nothing is known of it.
#[verifier::external_body]
fn now() -> (r: std::time::SystemTime) {
    std::time::SystemTime::now()
}

/// `SystemTime::duration_since`, taken from the start of 1970: the time
/// since then, or nothing where the clock stands before it.
#[verifier::external_body]
fn since_epoch(t: &std::time::SystemTime) -> (r: Option<std::time::Duration>) {
    t.duration_since(std::time::UNIX_EPOCH).ok()
}

/// `Duration::as_millis`: the whole milliseconds of a span.
#[verifier::external_body]
fn millis(d: &std::time::Duration) -> (r: u128) {
    d.as_millis()
}

/// One step of the generator: three shifts, each folded in by exclusive or.
pub open spec fn xorshift(x: u64) -> u64 {
    let a = x ^ (x << 13);
    let b = a ^ (a >> 7);
    b ^ (b << 17)
}

/// `x` to the power `n`, in arithmetic modulo 2^128.
pub open spec fn wrapping_power(x: u128, n: nat) -> u128
    decreases n,
{
    if n == 0 {
        1
    } else {
        ((wrapping_power(x, (n - 1) as nat) * x) % (u128::MAX + 1)) as u128
    }
}

/// The seed for a time in milliseconds: its seventh power to the fifth
/// power, in arithmetic modulo 2^128, cut to the low 64 bits.
pub open spec fn time_seed(ms: u128) -> u64 {
    (wrapping_power(wrapping_power(ms, 7), 5) % 0x1_0000_0000_0000_0000) as u64
}

/// The number of milliseconds that stands for a clock before 1970.
pub const CLOCK_FALLBACK: u128 = 0x6969696969696969;

/// The seed for what the clock reads: for `ms` milliseconds since 1970 the
/// seed of that time, and for a clock that stands before 1970 the seed of
/// the fallback.
pub open spec fn clock_seed(ms: Option<u128>) -> u64 {
    time_seed(
        match ms {
            Some(x) => x,
            None => CLOCK_FALLBACK,
        },
    )
}

fn power(x: u128, n: u32) -> (r: u128)
    ensures
        r == wrapping_power(x, n as nat),
{
    let mut r: u128 = 1;
    let mut i: u32 = 0;
    while i < n
        invariant
            i <= n,
            r == wrapping_power(x, i as nat),
        decreases n - i,
    {
        r = r.wrapping_mul(x);
        i += 1;
    }
    r
}

/// The seed for a time in milliseconds.
pub fn seed_of_millis(ms: u128) -> (r: u64)
    ensures
        r == time_seed(ms),
{
    let p = power(power(ms, 7), 5);
    (p % 0x1_0000_0000_0000_0000) as u64
}

/// The generator. Its state is the last number it gave.
pub struct XorShift64(u64);

impl XorShift64 {
    /// The state.
    pub closed spec fn state(&self) -> u64 {
        self.0
    }

    pub fn new(seed: u64) -> (r: Self)
        ensures
            r.state() == seed,
    {
        Self(seed)
    }

    /// The generator for what the source of randomness gave: one with that
    /// seed, or none where the source gave nothing.
    pub fn from_entropy(seed: Option<u64>) -> (r: Option<Self>)
        ensures
            r.is_some() == seed.is_some(),
            seed.is_some() ==> r.unwrap().state() == seed.unwrap(),
    {
        match seed {
            Some(x) => Some(Self::new(x)),
            None => None,
        }
    }

    /// A generator seeded from the system's source of randomness, where
    /// that gives a seed. What the seed is, and whether there is one, is the
    /// source's to say.
    pub fn new_entropy() -> (r: Option<Self>) {
        Self::from_entropy(entropy())
    }

    /// The generator for a clock that reads `ms` milliseconds since 1970, or
    /// that stands before 1970.
    pub fn at_time(ms: Option<u128>) -> (r: Self)
        ensures
            r.state() == clock_seed(ms),
    {
        let ms = match ms {
            Some(x) => x,
            None => CLOCK_FALLBACK,
        };
        Self(seed_of_millis(ms))
    }

    /// A generator seeded from the system's clock: its seed is the seed for
    /// what the clock reads, whatever that is.
    pub fn new_time() -> (r: Self)
        ensures
            exists|ms: Option<u128>| r.state() == #[trigger] clock_seed(ms),
    {
        let t = now();
        let ms = match since_epoch(&t) {
            Some(d) => Some(millis(&d)),
            None => None,
        };
        let r = Self::at_time(ms);
        assert(r.state() == clock_seed(ms));
        r
    }

    /// Steps the generator and gives its new state. Divided by the largest
    /// number of 64 bits it is a number from 0 to 1.
    pub fn next(&mut self) -> (r: u64)
        ensures
            r == xorshift(old(self).state()),
            final(self).state() == r,
    {
        let mut x = self.0;
        x ^= x << 13;
        x ^= x >> 7;
        x ^= x << 17;
        self.0 = x;
        x
    }
}

} // verus!
