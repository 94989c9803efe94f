//! The boundary to the `rand` crate.
//!
//! Nothing in this file is proved. Each item states what the `rand` source
//! guarantees of every outcome of a draw; which outcome occurs is left open,
//! so the rest of the crate is verified for all of them.

use crate::corpus::texts;
use rand::rngs::ThreadRng;
use rand::seq::SliceRandom;
use rand::Rng;
use vstd::prelude::*;

verus! {

/// `rand::rngs::ThreadRng`, a handle to the calling thread's generator.
/// Verus carries it through without looking inside.
#[verifier::external_type_specification]
#[verifier::external_body]
pub struct ExThreadRng(ThreadRng);

/// `rand::thread_rng`: hands out the handle. Nothing is claimed of it. The
/// call panics where the system cannot seed the generator.
pub assume_specification[ rand::thread_rng ]() -> (rng: ThreadRng)
;

/// `picked` holds the entries of `pool` found at the positions `at`, no
/// position taken twice.
pub open spec fn drawn_at(pool: Seq<Seq<char>>, picked: Seq<Seq<char>>, at: Seq<int>) -> bool {
    &&& at.len() == picked.len()
    &&& at.no_duplicates()
    &&& forall|k: int|
        0 <= k < at.len() ==> 0 <= #[trigger] at[k] < pool.len() && picked[k] == pool[at[k]]
}

/// `picked` is a draw of `amount` entries from `pool` without replacement,
/// cut short where the pool holds fewer.
pub open spec fn is_selection(pool: Seq<Seq<char>>, picked: Seq<Seq<char>>, amount: nat) -> bool {
    &&& picked.len() == if amount <= pool.len() { amount } else { pool.len() }
    &&& exists|at: Seq<int>| drawn_at(pool, picked, at)
}

/// `Rng::gen_range` on an inclusive range of `usize`: the value lies in the
/// range. An empty range panics there, so it is excluded here.
#[verifier::external_body]
pub(crate) fn gen_range(rng: &mut ThreadRng, low: usize, high: usize) -> (drawn: usize)
    requires
        low <= high,
    ensures
        low <= drawn <= high,
{
    rng.gen_range(low..=high)
}

/// `Rng::gen_ratio`: true with probability `numerator / denominator`. The
/// contract leaves the result open but for the two certain cases that the
/// documentation names. A zero denominator or a ratio above one panics there.
#[verifier::external_body]
pub(crate) fn gen_ratio(rng: &mut ThreadRng, numerator: u32, denominator: u32) -> (hit: bool)
    requires
        0 < denominator,
        numerator <= denominator,
    ensures
        numerator == denominator ==> hit,
        numerator == 0 ==> !hit,
{
    rng.gen_ratio(numerator, denominator)
}

/// `SliceRandom::choose_multiple`, collected into a vector: `amount` entries
/// of `pool` at distinct random positions, in random order, or all of them
/// where `pool` is shorter than `amount`.
///
/// An amount above `u32::MAX` is left out: on a pool longer than that the
/// crate samples by rejection, and a debug build asserts there that fewer
/// entries are asked for than the pool holds.
#[verifier::external_body]
pub(crate) fn choose_multiple(
    pool: &Vec<&'static str>,
    rng: &mut ThreadRng,
    amount: usize,
) -> (picked: Vec<&'static str>)
    requires
        amount <= u32::MAX,
    ensures
        is_selection(texts(pool@), texts(picked@), amount as nat),
{
    pool.choose_multiple(rng, amount).copied().collect()
}

} // verus!
