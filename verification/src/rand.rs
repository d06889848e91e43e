//! The position sampler: unpredictable integers in a half-open range, and draws of
//! distinct numbers.

use std::collections::hash_map::RandomState;
use std::collections::HashMap;
use std::collections::HashSet;
use std::hash::BuildHasher;
use vstd::prelude::*;
use vstd::std_specs::hash::group_hash_axioms;

verus! {

broadcast use group_hash_axioms;

/// Makes a hashing state with fresh keys.
///
/// Trusted: calls `RandomState::new`, which std documents as initialised with random
/// keys, so that two states are unlikely to hash one value alike. Nothing is claimed
/// of the state returned.
#[verifier::external_body]
fn fresh_state() -> (state: RandomState) {
    RandomState::new()
}

/// Hashes one word under the keys of `state`.
///
/// Trusted: calls `BuildHasher::hash_one`. The digest depends on keys drawn at run
/// time, so nothing is claimed of it.
#[verifier::external_body]
fn digest_word(state: &RandomState, word: u64) -> (digest: u64) {
    state.hash_one(word)
}

/// The member of `[low, high)` that a raw 64-bit word selects.
pub open spec fn pick(word: u64, low: usize, high: usize) -> int {
    low + (word as int) % (high - low)
}

/// Folds a raw 64-bit word into the half-open range `[low, high)`.
pub fn pick_in_range(word: u64, low: usize, high: usize) -> (r: usize)
    requires
        low < high,
    ensures
        r == pick(word, low, high),
        low <= r < high,
{
    let span: u64 = (high - low) as u64;
    let offset: u64 = word % span;
    low + offset as usize
}

/// Returns an unpredictable integer `r` with `low <= r < high`.
///
/// The range must not be empty. Which member of the range comes back is decided by
/// keys drawn at run time; the fold from the raw word into the range is
/// `pick_in_range`.
pub fn random_range(low: usize, high: usize) -> (r: usize)
    requires
        low < high,
    ensures
        low <= r < high,
{
    let state: RandomState = fresh_state();
    let word: u64 = digest_word(&state, 0);
    pick_in_range(word, low, high)
}

/// The number in slot `j` of a shuffled row of numbers, of which `moved` records the
/// slots that no longer hold their own number.
spec fn slot(moved: Map<usize, usize>, j: usize) -> usize {
    if moved.contains_key(j) {
        moved[j]
    } else {
        j
    }
}

/// Reads slot `j` of the shuffled row.
fn slot_at(moved: &HashMap<usize, usize>, j: usize) -> (v: usize)
    ensures
        v == slot(moved@, j),
{
    match moved.get(&j) {
        Some(v) => *v,
        None => j,
    }
}

/// Draws `count` distinct numbers below `total`. As far as the sampler is fair, each
/// set of `count` numbers is as likely as any other.
///
/// The numbers below `total` are thought of as a row of slots, each holding its own
/// number. Each draw picks one of the slots not yet used, takes the number in it,
/// and moves the number of the first unused slot into its place.
pub fn scatter(total: usize, count: usize) -> (chosen: HashSet<usize>)
    requires
        count <= total,
    ensures
        chosen@.finite(),
        chosen@.len() == count,
        forall|i: usize| chosen@.contains(i) ==> i < total,
{
    let mut chosen: HashSet<usize> = HashSet::new();
    let mut moved: HashMap<usize, usize> = HashMap::new();
    let mut drawn: usize = 0;
    while drawn < count
        invariant
            drawn <= count <= total,
            chosen@.finite(),
            chosen@.len() == drawn,
            forall|i: usize| chosen@.contains(i) ==> i < total,
            forall|j: usize|
                drawn <= j < total ==> #[trigger] slot(moved@, j) < total && !chosen@.contains(
                    slot(moved@, j),
                ),
            forall|j: usize, k: usize|
                drawn <= j < total && drawn <= k < total && j != k ==> #[trigger] slot(moved@, j)
                    != #[trigger] slot(moved@, k),
        decreases count - drawn,
    {
        let ghost slots = moved@;
        let j: usize = random_range(drawn, total);
        let pick: usize = slot_at(&moved, j);
        let first: usize = slot_at(&moved, drawn);
        moved.insert(j, first);
        chosen.insert(pick);
        proof {
            assert forall|k: usize| drawn + 1 <= k < total implies #[trigger] slot(moved@, k)
                < total && !chosen@.contains(slot(moved@, k)) by {
                if k == j {
                    assert(slot(slots, drawn) != slot(slots, j));
                } else {
                    assert(slot(moved@, k) == slot(slots, k));
                    assert(slot(slots, k) != slot(slots, j));
                }
            }
            assert forall|k: usize, l: usize|
                drawn + 1 <= k < total && drawn + 1 <= l < total && k != l implies #[trigger] slot(
                moved@,
                k,
            ) != #[trigger] slot(moved@, l) by {
                if k == j {
                    assert(slot(moved@, l) == slot(slots, l));
                    assert(slot(slots, drawn) != slot(slots, l));
                } else if l == j {
                    assert(slot(moved@, k) == slot(slots, k));
                    assert(slot(slots, drawn) != slot(slots, k));
                } else {
                    assert(slot(moved@, k) == slot(slots, k));
                    assert(slot(moved@, l) == slot(slots, l));
                }
            }
        }
        drawn += 1;
    }
    chosen
}

} // verus!
