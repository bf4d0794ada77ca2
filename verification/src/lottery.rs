//! The drawing of lots that settles a tie.

use rand::rngs::StdRng;
use rand::SeedableRng;
use vstd::prelude::*;
use crate::data::Count;

verus! {

/// `StdRng` of rand, the generator that the lots are drawn from. Nothing
/// is known of what it holds.
#[verifier::external_type_specification]
#[verifier::external_body]
pub struct ExStdRng(rand::rngs::StdRng);

/// `StdRng::seed_from_u64` of rand: a generator whose numbers follow from
/// `seed`. Nothing is claimed of the numbers.
#[verifier::external_body]
fn seeded_source(seed: u64) -> StdRng {
    StdRng::seed_from_u64(seed)
}

/// `StdRng::try_from_os_rng` of rand: a generator that the operating
/// system seeded, or none where it gave no seed. Nothing is claimed of the
/// numbers, nor of when there is a generator.
#[verifier::external_body]
fn system_source() -> Option<StdRng> {
    StdRng::try_from_os_rng().ok()
}

/// `rand::seq::index::sample`: `amount` positions below `length`, no
/// position twice. Which positions, and in which order, is left to chance.
#[verifier::external_body]
fn sample_positions(source: &mut StdRng, length: usize, amount: usize) -> (at: Vec<usize>)
    requires
        amount < length,
    ensures
        fair_positions(at@, length as nat, amount as nat),
{
    rand::seq::index::sample(source, length, amount).into_vec()
}

/// `at` names `amount` positions below `length`, none of them twice.
pub open spec fn fair_positions(at: Seq<usize>, length: nat, amount: nat) -> bool {
    &&& at.len() == amount
    &&& forall|k: int| 0 <= k < at.len() ==> (#[trigger] at[k]) < length
    &&& forall|j: int, k: int| 0 <= j < k < at.len() ==> at[j] != at[k]
}

/// The candidates that stand at the positions `at`, in the order of `at`.
pub open spec fn picks<T>(candidates: Seq<T>, at: Seq<usize>) -> Seq<T> {
    Seq::new(at.len(), |k: int| candidates[at[k] as int])
}

/// `picked` is what a drawing of `n` lots among `candidates` may give: all
/// of them where they are no more than `n`, else those at `n` positions of
/// which none was drawn twice.
pub open spec fn drawn_from<T>(picked: Seq<T>, candidates: Seq<T>, n: nat) -> bool {
    if candidates.len() <= n {
        picked == candidates
    } else {
        exists|at: Seq<usize>| #[trigger]
            fair_positions(at, candidates.len(), n) && picked == picks(candidates, at)
    }
}

/// The source of the lots.
pub struct Lottery {
    source: StdRng,
}

impl Lottery {
    /// A lottery that draws from the randomness of the operating system, or
    /// none where the system has no randomness to give.
    pub fn new() -> Option<Lottery> {
        match system_source() {
            Some(source) => Some(Lottery { source }),
            None => None,
        }
    }

    /// A lottery whose lots follow from `seed`.
    pub fn seeded(seed: u64) -> Lottery {
        Lottery { source: seeded_source(seed) }
    }

    /// Draws `amount` positions below `length`, none of them twice.
    pub fn draw(&mut self, length: usize, amount: usize) -> (at: Vec<usize>)
        requires
            amount < length,
        ensures
            fair_positions(at@, length as nat, amount as nat),
    {
        sample_positions(&mut self.source, length, amount)
    }
}

/// The candidates at the positions `at`.
pub fn pick<T: Copy>(candidates: &Vec<T>, at: &Vec<usize>) -> (picked: Vec<T>)
    requires
        forall|k: int| 0 <= k < at@.len() ==> (#[trigger] at@[k]) < candidates@.len(),
    ensures
        picked@ == picks(candidates@, at@),
{
    let mut picked: Vec<T> = Vec::new();
    let mut k: usize = 0;
    while k < at.len()
        invariant
            k <= at@.len(),
            forall|j: int| 0 <= j < at@.len() ==> (#[trigger] at@[j]) < candidates@.len(),
            picked@ == picks(candidates@, at@.take(k as int)),
        decreases at@.len() - k,
    {
        picked.push(candidates[at[k]]);
        k = k + 1;
    }
    assert(at@.take(k as int) == at@);
    picked
}

/// Draws `n` of the candidates by lot. Where there are no more than `n`,
/// all of them are returned as they stand and no lot is drawn.
pub fn ballotted<T: Copy>(lots: &mut Lottery, candidates: Vec<T>, n: Count) -> (picked: Vec<T>)
    ensures
        drawn_from(picked@, candidates@, n as nat),
{
    if candidates.len() as u64 <= n {
        candidates
    } else {
        let at = lots.draw(candidates.len(), n as usize);
        pick(&candidates, &at)
    }
}

/// What was drawn among candidates of which none stands twice: as many as
/// were asked for or as there are, each of them a candidate, none twice.
pub proof fn lemma_drawn_apart<T>(picked: Seq<T>, candidates: Seq<T>, n: nat)
    requires
        drawn_from(picked, candidates, n),
        candidates.no_duplicates(),
    ensures
        picked.len() == if candidates.len() <= n { candidates.len() } else { n },
        picked.no_duplicates(),
        forall|k: int| 0 <= k < picked.len() ==> candidates.contains(#[trigger] picked[k]),
{
    if candidates.len() > n {
        let at = choose|at: Seq<usize>| #[trigger]
            fair_positions(at, candidates.len(), n) && picked == picks(candidates, at);
        assert forall|k: int| 0 <= k < picked.len() implies candidates.contains(
            #[trigger] picked[k],
        ) by {
            assert(candidates[at[k] as int] == picked[k]);
        }
    }
}

/// A drawing stays one when each candidate is renamed by `f`.
pub proof fn lemma_drawn_renamed<T, U>(
    picked: Seq<T>,
    candidates: Seq<T>,
    n: nat,
    f: spec_fn(T) -> U,
)
    requires
        drawn_from(picked, candidates, n),
    ensures
        drawn_from(picked.map_values(f), candidates.map_values(f), n),
{
    if candidates.len() > n {
        let at = choose|at: Seq<usize>| #[trigger]
            fair_positions(at, candidates.len(), n) && picked == picks(candidates, at);
        assert(picked.map_values(f) == picks(candidates.map_values(f), at));
    }
}

} // verus!
