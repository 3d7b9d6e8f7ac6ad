//! Random value generators.

use rand::distr::Alphanumeric;
use rand::Rng;
use vstd::prelude::*;

verus! {

/// The thread-local random number generator of `rand`.
#[verifier::external_type_specification]
#[verifier::external_body]
pub struct ExThreadRng(rand::rngs::ThreadRng);

/// Creates a handle to the thread-local random number generator (`rand::rng`).
#[verifier::external_body]
pub(crate) fn thread_rng() -> rand::rngs::ThreadRng {
    rand::rng()
}

/// A uniformly random `u64` from `rng` (`Rng::random`). Nothing is promised of its value.
#[verifier::external_body]
pub(crate) fn random_u64(rng: &mut rand::rngs::ThreadRng) -> u64 {
    rng.random::<u64>()
}

/// A uniformly random `u32` from `rng` (`Rng::random`). Nothing is promised of its value.
#[verifier::external_body]
fn random_u32(rng: &mut rand::rngs::ThreadRng) -> u32 {
    rng.random::<u32>()
}

/// A uniformly random `u8` from `rng` (`Rng::random`). Nothing is promised of its value.
#[verifier::external_body]
fn random_u8(rng: &mut rand::rngs::ThreadRng) -> u8 {
    rng.random::<u8>()
}

/// A random number below `n`, made from a random word of `rng`.
pub fn random_below(rng: &mut rand::rngs::ThreadRng, n: u64) -> (r: u64)
    requires
        n > 0,
    ensures
        r < n,
{
    random_u64(rng) % n
}

/// An ASCII letter or digit.
pub open spec fn is_alphanumeric(c: u8) -> bool {
    (0x30 <= c <= 0x39) || (0x41 <= c <= 0x5a) || (0x61 <= c <= 0x7a)
}

/// A random byte drawn from the `Alphanumeric` distribution (`Rng::sample`), which the
/// documentation of `rand` describes as uniform over the ASCII letters a-z, A-Z and digits 0-9.
#[verifier::external_body]
fn sample_alphanumeric(rng: &mut rand::rngs::ThreadRng) -> (r: u8)
    ensures
        is_alphanumeric(r),
{
    rng.sample(Alphanumeric)
}

/// Appends `c` to `s` (`String::push`).
#[verifier::external_body]
fn push_char(s: &mut String, c: char)
    ensures
        final(s)@ == old(s)@.push(c),
{
    s.push(c)
}

/// The longest random key is one character shorter than this.
pub const KEY_MAX_LENGTH: usize = 4;

/// The bits a random `usize` may have set: 16 bits, the most significant one clear.
pub const USIZE_MASK: u64 = 0x4004004004007777u64;

/// The bits a random `u32` may have set: 16 bits.
pub const U32_MASK: u32 = 0x66666666u32;

/// Types that have a random generator.
pub trait RandGen: Sized {
    /// Randomly generates a value.
    fn rand_gen(rng: &mut rand::rngs::ThreadRng) -> Self;
}

/// The length of a random key made from the random word `x`.
pub fn key_length(x: u64) -> (r: usize)
    ensures
        r == (x as usize) % KEY_MAX_LENGTH,
        r < KEY_MAX_LENGTH,
{
    (x as usize) % KEY_MAX_LENGTH
}

/// The random `usize` made from the random word `x`: only the bits of `USIZE_MASK` are kept.
pub fn mask_usize(x: u64) -> (r: usize)
    ensures
        r == (x & USIZE_MASK) as usize,
        (r as u64) & USIZE_MASK == r as u64,
        r < 0x8000_0000_0000_0000u64,
{
    let m = x & USIZE_MASK;
    assert(m & USIZE_MASK == m) by (bit_vector)
        requires
            m == x & 0x4004004004007777u64,
    ;
    assert(m < 0x8000_0000_0000_0000u64) by (bit_vector)
        requires
            m == x & 0x4004004004007777u64,
    ;
    let r = m as usize;
    assert((r as u64) & 0x4004004004007777u64 == r as u64) by (bit_vector)
        requires
            m == x & 0x4004004004007777u64,
            r == m as usize,
    ;
    assert((r as u64) < 0x8000_0000_0000_0000u64) by (bit_vector)
        requires
            m == x & 0x4004004004007777u64,
            r == m as usize,
    ;
    r
}

/// The random `u32` made from the random word `x`: only the bits of `U32_MASK` are kept.
pub fn mask_u32(x: u32) -> (r: u32)
    ensures
        r == x & U32_MASK,
        r & U32_MASK == r,
{
    let r = x & U32_MASK;
    assert(r & U32_MASK == r) by (bit_vector)
        requires
            r == x & 0x66666666u32,
    ;
    r
}

impl RandGen for String {
    /// A random key: fewer than `KEY_MAX_LENGTH` ASCII letters and digits.
    fn rand_gen(rng: &mut rand::rngs::ThreadRng) -> (r: Self)
        ensures
            r@.len() < KEY_MAX_LENGTH,
            forall|i: int| 0 <= i < r@.len() ==> is_alphanumeric(#[trigger] r@[i] as u8),
    {
        let length = key_length(random_u64(rng));
        let mut s = String::new();
        let mut i: usize = 0;
        while i < length
            invariant
                i <= length < KEY_MAX_LENGTH,
                s@.len() == i,
                forall|j: int| 0 <= j < s@.len() ==> is_alphanumeric(#[trigger] s@[j] as u8),
            decreases length - i,
        {
            let c = sample_alphanumeric(rng);
            push_char(&mut s, c as char);
            i = i + 1;
        }
        s
    }
}

impl RandGen for usize {
    /// A random `usize` with only the bits of `USIZE_MASK` set (16 bits, most significant clear).
    fn rand_gen(rng: &mut rand::rngs::ThreadRng) -> (r: Self)
        ensures
            (r as u64) & USIZE_MASK == r as u64,
            r < 0x8000_0000_0000_0000u64,
    {
        mask_usize(random_u64(rng))
    }
}

impl RandGen for u32 {
    /// A random `u32` with only the bits of `U32_MASK` set (16 bits).
    fn rand_gen(rng: &mut rand::rngs::ThreadRng) -> (r: Self)
        ensures
            r & U32_MASK == r,
    {
        mask_u32(random_u32(rng))
    }
}

impl RandGen for u8 {
    /// A random byte.
    fn rand_gen(rng: &mut rand::rngs::ThreadRng) -> (r: Self) {
        random_u8(rng)
    }
}

impl RandGen for () {
    /// The unit value.
    fn rand_gen(_rng: &mut rand::rngs::ThreadRng) -> (r: Self)
        ensures
            r == (),
    {
    }
}

} // verus!
