//! Measured response times, to be replayed in simulation.

use crate::text::same_text;
use rand::rngs::StdRng;
use rand::seq::IndexedRandom;
use rand::SeedableRng;
use vstd::prelude::*;

verus! {

/// The standard random number generator of the `rand` crate, carried unopened.
#[verifier::external_type_specification]
#[verifier::external_body]
pub struct ExStdRng(StdRng);

/// Response times measured for one type of call.
pub struct LatencyEntry {
    /// Type of call.
    pub call_type: String,
    /// Response times in milliseconds.
    pub samples: Vec<u64>,
}

/// Measured response times by type of call.
pub struct LlmLatencyProfile {
    entries: Vec<LatencyEntry>,
    draws: Draws,
}

/// Model of [`LlmLatencyProfile`].
#[verifier::ext_equal]
pub struct LatencyProfileView {
    /// The measurements.
    pub entries: Seq<LatencyEntry>,
    /// What the generator of the draws was seeded with; nothing where the system seeded it.
    pub seed: Option<u64>,
}

/// A random number generator, and what it was seeded with.
struct Draws {
    rng: StdRng,
    seed: Option<u64>,
}

/// The number after a seed, wrapping around.
pub open spec fn next_seed(seed: u64) -> u64 {
    if seed == u64::MAX {
        0
    } else {
        (seed + 1) as u64
    }
}

/// The samples of a type of call; the last entry counts.
pub open spec fn samples_of(entries: Seq<LatencyEntry>, call_type: Seq<char>) -> Option<Seq<u64>>
    decreases entries.len(),
{
    if entries.len() == 0 {
        None
    } else if entries.last().call_type@ == call_type {
        Some(entries.last().samples@)
    } else {
        samples_of(entries.drop_last(), call_type)
    }
}

/// The number that a generator is seeded with: the one after the given seed, wrapping around, to
/// keep it apart from generators seeded with the seed itself.
pub fn generator_seed(seed: u64) -> (r: u64)
    ensures
        r == next_seed(seed),
{
    seed.wrapping_add(1)
}

/// Calls `StdRng::seed_from_u64` with the given number and keeps the number beside the generator.
/// Nothing is claimed of what the generator draws: that counts as chance, though one seed always
/// gives the same draws.
#[verifier::external_body]
fn seeded(seed: u64) -> (r: Draws)
    ensures
        r.seed == Some(seed),
{
    Draws { rng: StdRng::seed_from_u64(seed), seed: Some(seed) }
}

/// Calls `StdRng::from_os_rng`, which aborts where the system has no source of randomness. Nothing
/// is claimed of what the generator draws.
#[verifier::external_body]
fn from_os() -> (r: Draws)
    ensures
        r.seed is None,
{
    Draws { rng: StdRng::from_os_rng(), seed: None }
}

/// Calls `IndexedRandom::choose`: one of the elements, or nothing if there is none. Which element
/// it is is left to chance.
#[verifier::external_body]
fn choose_one(samples: &Vec<u64>, rng: &mut StdRng) -> (r: Option<u64>)
    ensures
        match r {
            Some(v) => samples@.contains(v),
            None => samples@.len() == 0,
        },
{
    samples.choose(rng).copied()
}

impl View for LlmLatencyProfile {
    type V = LatencyProfileView;

    closed spec fn view(&self) -> LatencyProfileView {
        LatencyProfileView { entries: self.entries@, seed: self.draws.seed }
    }
}

impl LlmLatencyProfile {
    /// A profile of the given measurements. A seed makes the draws repeatable: the generator is
    /// seeded with the number after it.
    pub fn new(entries: Vec<LatencyEntry>, seed: Option<u64>) -> (r: Self)
        ensures
            r@ == (LatencyProfileView {
                entries: entries@,
                seed: match seed {
                    Some(seed) => Some(next_seed(seed)),
                    None => None,
                },
            }),
    {
        let draws = match seed {
            Some(seed) => seeded(generator_seed(seed)),
            None => from_os(),
        };
        LlmLatencyProfile { entries, draws }
    }

    /// Draws one of the response times of a type of call; nothing if there is none.
    pub fn sample(&mut self, call_type: &str) -> (r: Option<u64>)
        ensures
            final(self)@ == old(self)@,
            match r {
                Some(v) => samples_of(old(self)@.entries, call_type@) matches Some(samples)
                    && samples.contains(v),
                None => samples_of(old(self)@.entries, call_type@) matches Some(samples) ==> samples.len()
                    == 0,
            },
    {
        let mut n: usize = self.entries.len();
        assert(self.entries@.take(n as int) =~= self.entries@);
        while n > 0
            invariant
                n <= self.entries@.len(),
                self@ == old(self)@,
                samples_of(self@.entries, call_type@) == samples_of(
                    self@.entries.take(n as int),
                    call_type@,
                ),
            decreases n,
        {
            assert(self@.entries.take(n as int).drop_last() =~= self@.entries.take(n - 1));
            if same_text(self.entries[n - 1].call_type.as_str(), call_type) {
                return choose_one(&self.entries[n - 1].samples, &mut self.draws.rng);
            }
            n = n - 1;
        }
        None
    }
}

/// The response times of a type of call are those of its last entry; a type without an entry has
/// none.
pub proof fn the_last_entry_of_a_type_counts(entries: Seq<LatencyEntry>, call_type: Seq<char>)
    ensures
        forall|i: int|
            0 <= i < entries.len() && (#[trigger] entries[i]).call_type@ == call_type && (forall|
                j: int,
            |
                i < j < entries.len() ==> (#[trigger] entries[j]).call_type@ != call_type)
                ==> samples_of(entries, call_type) == Some(entries[i].samples@),
        (forall|j: int| 0 <= j < entries.len() ==> (#[trigger] entries[j]).call_type@ != call_type)
            ==> samples_of(entries, call_type) is None,
    decreases entries.len(),
{
    if entries.len() > 0 {
        let front = entries.drop_last();
        the_last_entry_of_a_type_counts(front, call_type);
        let n = entries.len() - 1;
        assert(forall|j: int| 0 <= j < front.len() ==> #[trigger] front[j] == entries[j]);
        assert forall|i: int|
            0 <= i < entries.len() && (#[trigger] entries[i]).call_type@ == call_type && (forall|
                j: int,
            |
                i < j < entries.len() ==> (#[trigger] entries[j]).call_type@
                    != call_type) implies samples_of(entries, call_type) == Some(
            entries[i].samples@,
        ) by {
            if i < n {
                assert(entries[n].call_type@ != call_type);
                assert(front[i].call_type@ == call_type);
                assert forall|j: int| i < j < front.len() implies (#[trigger] front[j]).call_type@
                    != call_type by {
                    assert(entries[j].call_type@ != call_type);
                }
            }
        }
        if forall|j: int| 0 <= j < entries.len() ==> (#[trigger] entries[j]).call_type@
            != call_type {
            assert(entries[n].call_type@ != call_type);
            assert forall|j: int| 0 <= j < front.len() implies (#[trigger] front[j]).call_type@
                != call_type by {
                assert(entries[j].call_type@ != call_type);
            }
        }
    }
}

/// Different seeds give different generators, and no seed that of itself.
pub proof fn seeds_stay_apart(a: u64, b: u64)
    ensures
        next_seed(a) == next_seed(b) ==> a == b,
        next_seed(a) != a,
        a < u64::MAX ==> next_seed(a) == a + 1,
{
}

} // verus!
