//! The random values the mutator's own generator draws.

use vstd::prelude::*;
use crate::generator::rand::{Draw, Rng, RngState, gen_range_usize, printable_chars, range_draw, range_state, reordered, xorshift_next, xorshift_shuffle, xorshift_uniform};

verus! {

/// A generator seeded from the operating system's random source, with the
/// seed that was drawn.
pub fn seedrand() -> (r: (u64, Rng))
    ensures
        r.1@ == (RngState { seed: r.0, draws: Seq::empty() }),
{
    crate::generator::rand::seedrand()
}

/// A generator seeded with `s`, with no draws made yet.
pub fn seed(s: u64) -> (r: Rng)
    ensures
        r@ == (RngState { seed: s, draws: Seq::empty() }),
{
    crate::generator::rand::seed(s)
}

/// The generator's next number.
pub fn gen(rng: &mut Rng) -> (r: u64)
    ensures
        r == xorshift_next(old(rng)@),
        final(rng)@ == old(rng)@.after(Draw::Next),
{
    crate::generator::rand::gen_u64(rng)
}

/// A number drawn uniformly from `low..high`.
pub fn gen_range(rng: &mut Rng, low: usize, high: usize) -> (r: usize)
    requires
        low < high,
    ensures
        low <= r < high,
        r == xorshift_uniform(old(rng)@, low as u64, high as u64),
        final(rng)@ == old(rng)@.after(Draw::Uniform(low as u64, high as u64)),
{
    gen_range_usize(rng, low, high)
}

/// A number from zero up to, not including, `i64::MAX`.
pub fn rand_i64(rng: &mut Rng) -> (r: i64)
    ensures
        0 <= r < i64::MAX,
        r == range_draw(old(rng)@, 0, i64::MAX as int),
        final(rng)@ == range_state(old(rng)@, 0, i64::MAX as int),
{
    crate::generator::rand::gen_range(rng, 0, i64::MAX)
}

/// A random string of `length` printable characters.
pub fn gen_printable_string(rng: &mut Rng, length: usize) -> (r: String)
    ensures
        r@.len() == length,
        forall|i: int| 0 <= i < length ==> printable_chars().contains(#[trigger] r@[i]),
{
    crate::generator::rand::gen_printable_string(rng, length, None)
}

/// Puts the elements in a random order.
pub fn shuffle<T>(rng: &mut Rng, values: &mut Vec<T>)
    ensures
        final(values)@ == reordered(old(values)@, xorshift_shuffle(old(rng)@, old(values)@.len())),
        final(rng)@ == old(rng)@.after(Draw::Shuffle(old(values)@.len())),
        final(values)@.to_multiset() == old(values)@.to_multiset(),
        final(values)@.len() == old(values)@.len(),
{
    crate::generator::rand::shuffle(rng, values)
}

} // verus!
