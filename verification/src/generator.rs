//! The pseudo-random generator that the initial conditions are drawn from:
//! the xorshift generator of the `rand` crate, seeded from one integer.

use rand::RngCore;
use rand::SeedableRng;
use rand::XorShiftRng;
use vstd::prelude::*;

verus! {

/// `rand`'s `XorShiftRng`, taken as it is: nothing of what it holds is seen
/// but through `words`.
#[verifier::external_type_specification]
#[verifier::external_body]
pub struct ExXorShiftRng(XorShiftRng);

/// The four 32-bit words that a generator holds, oldest first: the fields
/// `x`, `y`, `z` and `w` of `rand_xorshift`'s generator, which `XorShiftRng`
/// wraps.
pub uninterp spec fn words(rng: XorShiftRng) -> Seq<u32>;

/// One step of the 64-bit congruential generator that expands a seed.
pub open spec fn expand_step(state: u64) -> u64 {
    ((state * 6364136223846793005 + 11634580027462260723) % 0x1_0000_0000_0000_0000) as u64
}

/// The 32-bit word that the expanding generator gives in a state: a xorshift
/// of the state, rotated right by its five highest bits.
pub open spec fn expand_output(state: u64) -> u32 {
    let mixed = ((((state >> 18u64) ^ state) >> 27u64) % 0x1_0000_0000) as u32;
    let rot = (state >> 59u64) as u32;
    if rot == 0 {
        mixed
    } else {
        (mixed >> rot) | (mixed << ((32 - rot) as u32))
    }
}

/// The words of a generator seeded from `seed`: four successive outputs of
/// the expanding generator, or a fixed pattern should all four be zero.
pub open spec fn seeded_words(seed: u64) -> Seq<u32> {
    let s1 = expand_step(seed);
    let s2 = expand_step(s1);
    let s3 = expand_step(s2);
    let s4 = expand_step(s3);
    let w = seq![expand_output(s1), expand_output(s2), expand_output(s3), expand_output(s4)];
    if w[0] == 0 && w[1] == 0 && w[2] == 0 && w[3] == 0 {
        seq![0x0BAD_5EEDu32, 0x0BAD_5EEDu32, 0x0BAD_5EEDu32, 0x0BAD_5EEDu32]
    } else {
        w
    }
}

/// The word that a xorshift step appends to `w`.
pub open spec fn fresh_word(w: Seq<u32>) -> u32 {
    let t = w[0] ^ (w[0] << 11u32);
    w[3] ^ (w[3] >> 19u32) ^ (t ^ (t >> 8u32))
}

/// The words after one xorshift step: the oldest leaves, a fresh one enters.
pub open spec fn stepped(w: Seq<u32>) -> Seq<u32> {
    seq![w[1], w[2], w[3], fresh_word(w)]
}

/// `XorShiftRng::seed_from_u64`, the provided method of `rand`'s
/// `SeedableRng`. The contract repeats what its source does: it runs a 64-bit
/// congruential generator four times from the seed, takes one 32-bit output
/// from each state, and hands the sixteen bytes to `from_seed`, which reads
/// them back as four words and replaces four zeros by a fixed pattern.
#[verifier::external_body]
pub(crate) fn seeded(seed: u64) -> (rng: XorShiftRng)
    ensures
        words(rng) == seeded_words(seed),
{
    XorShiftRng::seed_from_u64(seed)
}

/// `XorShiftRng::next_u32`. The contract repeats what its source does: one
/// xorshift step with the shifts 11, 19 and 8, returning the fresh word.
#[verifier::external_body]
pub(crate) fn next_word(rng: &mut XorShiftRng) -> (word: u32)
    ensures
        words(*final(rng)) == stepped(words(*old(rng))),
        word == fresh_word(words(*old(rng))),
{
    rng.next_u32()
}

/// The words of the generator seeded from `seed` after `n` steps.
pub open spec fn words_after(seed: u64, n: nat) -> Seq<u32>
    decreases n,
{
    if n == 0 {
        seeded_words(seed)
    } else {
        stepped(words_after(seed, (n - 1) as nat))
    }
}

/// The `n`-th word, counted from zero, that the generator seeded from `seed`
/// gives.
pub open spec fn nth_word(seed: u64, n: nat) -> u32 {
    fresh_word(words_after(seed, n))
}

/// The first `count` words of the generator seeded from `seed`.
pub fn first_words(seed: u64, count: usize) -> (out: Vec<u32>)
    ensures
        out.len() == count,
        forall|i: int| 0 <= i < count ==> out[i] == nth_word(seed, i as nat),
{
    let mut rng = seeded(seed);
    let mut out: Vec<u32> = Vec::new();
    while out.len() < count
        invariant
            out.len() <= count,
            words(rng) == words_after(seed, out.len() as nat),
            forall|i: int| 0 <= i < out.len() ==> out[i] == nth_word(seed, i as nat),
        decreases count - out.len(),
    {
        let word = next_word(&mut rng);
        out.push(word);
    }
    out
}

} // verus!
