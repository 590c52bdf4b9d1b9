//! Random sampling: validators look up samples that were disseminated.

use vstd::prelude::*;
use rand::SeedableRng;
use sha3::Digest;
use crate::args::LookupMethod;
use crate::ids::{be_value, NodeId};
use crate::node::DASNode;
use crate::seeds::{big_endian, big_endian_bytes, lemma_big_endian};

verus! {

/// The Keccak-256 digest of bytes, as `sha3::Keccak256` computes it.
pub uninterp spec fn keccak256_digest(bytes: Seq<u8>) -> Seq<u8>;

/// Hashes bytes, with `sha3::Keccak256`. What the digest is of given bytes is left to the crate;
/// it depends on the bytes alone.
#[verifier::external_body]
fn keccak256(bytes: &Vec<u8>) -> (digest: NodeId)
    ensures
        digest@ == keccak256_digest(bytes@),
{
    let mut hasher = sha3::Keccak256::new();
    hasher.update(bytes);
    hasher.finalize().into()
}

/// The number of bytes of a machine word.
pub open spec fn word_size() -> nat {
    (usize::BITS / 8) as nat
}

/// Whether `keys` are the keys of the first samples: each is the digest of its index, as a machine
/// word in big-endian bytes.
pub open spec fn are_sample_keys(keys: Seq<NodeId>) -> bool {
    forall|i: int|
        0 <= i < keys.len() ==> (#[trigger] keys[i])@ == keccak256_digest(
            big_endian(i as nat, word_size()),
        )
}

/// The keys of the first samples.
pub fn sample_keys(number_of_samples: usize) -> (keys: Vec<NodeId>)
    ensures
        keys@.len() == number_of_samples,
        are_sample_keys(keys@),
{
    let size: usize = (usize::BITS / 8) as usize;
    let mut keys: Vec<NodeId> = Vec::new();
    let mut i: usize = 0;
    while i < number_of_samples
        invariant
            i <= number_of_samples,
            size == word_size(),
            keys@.len() == i,
            are_sample_keys(keys@),
        decreases number_of_samples - i,
    {
        keys.push(keccak256(&big_endian_bytes(i as u64, size)));
        i = i + 1;
    }
    keys
}

/// Whether `indices` are `amount` different indices below `length`.
pub open spec fn are_distinct_indices(indices: Seq<usize>, length: nat, amount: nat) -> bool {
    &&& indices.len() == amount
    &&& indices.no_duplicates()
    &&& forall|i: int| 0 <= i < indices.len() ==> #[trigger] indices[i] < length
}

/// The indices that `rand::seq::index::sample` picks with an `StdRng` made from a seed.
pub uninterp spec fn picked_indices(seed: u64, length: usize, amount: usize) -> Seq<usize>;

/// Picks different indices, with `rand::seq::index::sample` and an `StdRng` made from a seed. The
/// generator and the way of picking are deterministic, so that the seed decides which ones.
#[verifier::external_body]
fn pick_seeded(seed: u64, length: usize, amount: usize) -> (indices: Vec<usize>)
    requires
        amount <= length,
    ensures
        indices@ == picked_indices(seed, length, amount),
        are_distinct_indices(indices@, length as nat, amount as nat),
{
    let mut rng = rand::rngs::StdRng::seed_from_u64(seed);
    rand::seq::index::sample(&mut rng, length, amount).into_vec()
}

/// Picks different indices, with `rand::seq::index::sample` and the thread-local generator. Which
/// ones is left to chance.
#[verifier::external_body]
fn pick_any(length: usize, amount: usize) -> (indices: Vec<usize>)
    requires
        amount <= length,
    ensures
        are_distinct_indices(indices@, length as nat, amount as nat),
{
    rand::seq::index::sample(&mut rand::thread_rng(), length, amount).into_vec()
}

/// Picks the nodes that act as validators, by their indices. Runs with the same seed pick the same
/// ones.
pub fn choose_validators(seed: u64, node_count: usize, validators_number: usize) -> (validators:
    Vec<usize>)
    requires
        validators_number <= node_count,
    ensures
        validators@ == picked_indices(seed, node_count, validators_number),
        are_distinct_indices(validators@, node_count as nat, validators_number as nat),
{
    pick_seeded(seed, node_count, validators_number)
}

/// Samples by their indices.
pub open spec fn samples_at(keys: Seq<NodeId>, indices: Seq<usize>) -> Seq<(usize, NodeId)> {
    Seq::new(indices.len(), |i: int| (indices[i], keys[indices[i] as int]))
}

/// Takes samples by their indices.
pub fn take_samples(keys: &Vec<NodeId>, indices: &Vec<usize>) -> (samples: Vec<(usize, NodeId)>)
    requires
        forall|i: int| 0 <= i < indices@.len() ==> #[trigger] indices@[i] < keys@.len(),
    ensures
        samples@ == samples_at(keys@, indices@),
{
    let mut samples: Vec<(usize, NodeId)> = Vec::new();
    let mut i: usize = 0;
    while i < indices.len()
        invariant
            i <= indices@.len(),
            forall|j: int| 0 <= j < indices@.len() ==> #[trigger] indices@[j] < keys@.len(),
            samples@ =~= samples_at(keys@, indices@).take(i as int),
        decreases indices@.len() - i,
    {
        samples.push((indices[i], keys[indices[i]]));
        i = i + 1;
    }
    assert(samples@ =~= samples_at(keys@, indices@));
    samples
}

/// Picks the samples that a validator looks up.
pub fn choose_samples(keys: &Vec<NodeId>, samples_per_validator: usize) -> (samples: Vec<
    (usize, NodeId),
>)
    requires
        samples_per_validator <= keys@.len(),
    ensures
        exists|indices: Seq<usize>| #[trigger]
            are_distinct_indices(indices, keys@.len(), samples_per_validator as nat) && samples@
                == samples_at(keys@, indices),
{
    let indices: Vec<usize> = pick_any(keys.len(), samples_per_validator);
    let samples: Vec<(usize, NodeId)> = take_samples(keys, &indices);
    assert(are_distinct_indices(indices@, keys@.len(), samples_per_validator as nat));
    samples
}

/// Whether a validator has a sample in its own store.
pub fn found_here(node: &DASNode, key: &NodeId) -> (found: bool)
    requires
        node.wf(),
    ensures
        found == node@.samples.dom().contains(*key),
{
    node.samples.contains(key)
}

/// Where a validator looks for a sample.
#[derive(Clone, Copy, Debug, PartialEq, Eq, Structural)]
pub enum Search {
    /// Nowhere: it has the sample itself.
    Here,
    /// In the network, with one lookup by this method.
    Network(LookupMethod),
}

/// Decides where a validator looks for a sample: in its own store first.
pub fn plan_search(node: &DASNode, key: &NodeId, method: LookupMethod) -> (search: Search)
    requires
        node.wf(),
    ensures
        search == (if node@.samples.dom().contains(*key) {
            Search::Here
        } else {
            Search::Network(method)
        }),
{
    if found_here(node, key) {
        Search::Here
    } else {
        Search::Network(method)
    }
}

/// Whether a sample counts as found: if the validator has it, or if the lookup succeeded.
pub fn counts_as_found(search: Search, lookup_succeeded: bool) -> (found: bool)
    ensures
        found == (search == Search::Here || lookup_succeeded),
{
    match search {
        Search::Here => true,
        Search::Network(_) => lookup_succeeded,
    }
}

/// The lookups of a validator, in the model.
#[verifier::ext_equal]
pub ghost struct LookupState {
    pub samples: Seq<(usize, NodeId)>,
    pub parallelism: nat,
    pub num_waiting: nat,
    pub num_success: nat,
}

impl LookupState {
    /// Before any lookup was started.
    pub open spec fn first(samples: Seq<(usize, NodeId)>, parallelism: nat) -> LookupState {
        LookupState { samples, parallelism, num_waiting: 0, num_success: 0 }
    }

    /// The sample whose lookup is started next, if one more may run and there is one left.
    pub open spec fn next(self) -> Option<(usize, NodeId)> {
        if self.num_waiting < self.parallelism && self.samples.len() > 0 {
            Some(self.samples.last())
        } else {
            None
        }
    }

    /// After the next lookup was started.
    pub open spec fn started(self) -> LookupState {
        if self.next() is Some {
            LookupState {
                samples: self.samples.drop_last(),
                num_waiting: self.num_waiting + 1,
                ..self
            }
        } else {
            self
        }
    }

    /// After the outcome of a lookup was taken up, if one was running.
    pub open spec fn finished(self, outcome: Option<bool>) -> LookupState {
        match outcome {
            Some(found) => LookupState {
                num_waiting: (self.num_waiting - 1) as nat,
                num_success: self.num_success + (if found {
                    1nat
                } else {
                    0nat
                }),
                ..self
            },
            None => self,
        }
    }

    /// Whether all samples are done with.
    pub open spec fn is_done(self) -> bool {
        self.num_waiting == 0 && self.samples.len() == 0
    }

    /// After one lookup after the other was started and has finished, with these outcomes.
    pub open spec fn after(self, outcomes: Seq<bool>) -> LookupState
        decreases outcomes.len(),
    {
        if outcomes.len() == 0 {
            self
        } else {
            self.after(outcomes.drop_last()).started().finished(Some(outcomes.last()))
        }
    }
}

/// How many outcomes are good.
pub open spec fn successes(outcomes: Seq<bool>) -> nat
    decreases outcomes.len(),
{
    if outcomes.len() == 0 {
        0
    } else {
        successes(outcomes.drop_last()) + (if outcomes.last() {
            1nat
        } else {
            0nat
        })
    }
}

/// A validator tries each of its samples once, from the last one to the first, and is then done; it
/// counts those that were found, which are no more than it tried.
pub proof fn lemma_lookups(
    samples: Seq<(usize, NodeId)>,
    parallelism: nat,
    outcomes: Seq<bool>,
)
    requires
        parallelism > 0,
        outcomes.len() <= samples.len(),
    ensures
        ({
            let state = LookupState::first(samples, parallelism).after(outcomes);
            &&& state.num_waiting == 0
            &&& state.samples == samples.take(samples.len() - outcomes.len())
            &&& state.num_success == successes(outcomes)
            &&& state.num_success <= outcomes.len()
            &&& outcomes.len() < samples.len() ==> state.next() == Some(
                samples[samples.len() - outcomes.len() - 1],
            ) && !state.is_done()
            &&& outcomes.len() == samples.len() ==> state.is_done()
            &&& state.parallelism == parallelism
        }),
    decreases outcomes.len(),
{
    let state = LookupState::first(samples, parallelism).after(outcomes);
    if outcomes.len() > 0 {
        lemma_lookups(samples, parallelism, outcomes.drop_last());
        assert(samples.take(samples.len() - outcomes.len() + 1).drop_last() =~= samples.take(
            samples.len() - outcomes.len(),
        ));
    } else {
        assert(samples.take(samples.len() as int) =~= samples);
    }
}

/// The lookups of a validator.
#[derive(Debug)]
pub struct Lookups {
    /// The samples that are still to be looked up, the next one last.
    pub samples: Vec<(usize, NodeId)>,
    /// How many lookups may run at a time.
    pub parallelism: usize,
    /// How many lookups run.
    pub num_waiting: usize,
    /// How many samples were found.
    pub num_success: usize,
}

impl View for Lookups {
    type V = LookupState;

    open spec fn view(&self) -> LookupState {
        LookupState {
            samples: self.samples@,
            parallelism: self.parallelism as nat,
            num_waiting: self.num_waiting as nat,
            num_success: self.num_success as nat,
        }
    }
}

impl Lookups {
    /// Whether the lookups can come to an end, with all samples accounted for: of `total` samples
    /// each is still to be looked up, being looked up, or done with, and no more were found than
    /// are done with. No more are being looked up than may be.
    pub open spec fn wf(&self, total: nat) -> bool {
        &&& self.parallelism > 0 || total == 0
        &&& total <= usize::MAX
        &&& self.num_waiting <= self.parallelism
        &&& self.samples@.len() + self.num_waiting + self.num_success <= total
    }

    /// The lookups of some samples, before any was started.
    pub fn new(samples: Vec<(usize, NodeId)>, parallelism: usize) -> (lookups: Self)
        requires
            parallelism > 0 || samples@.len() == 0,
        ensures
            lookups.wf(samples@.len()),
            lookups@ == LookupState::first(samples@, parallelism as nat),
    {
        assert(samples@.len() == samples.len());
        Lookups { samples, parallelism, num_waiting: 0, num_success: 0 }
    }

    /// Starts the next lookup, if one more may run and there is a sample left.
    pub fn start(&mut self) -> (started: Option<(usize, NodeId)>)
        ensures
            started == old(self)@.next(),
            final(self)@ == old(self)@.started(),
            forall|total: nat| #[trigger] old(self).wf(total) ==> final(self).wf(total),
    {
        if self.num_waiting < self.parallelism {
            match self.samples.pop() {
                Some(sample) => {
                    self.num_waiting = self.num_waiting + 1;
                    return Some(sample);
                },
                None => {},
            }
        }
        None
    }

    /// Takes up the outcome of a lookup, if one was running: whether the sample was found. Says how
    /// many were found once all are done with.
    pub fn finish(&mut self, outcome: Option<bool>) -> (found: Option<usize>)
        requires
            outcome is Some ==> old(self).num_waiting > 0,
            outcome == Some(true) ==> old(self).num_success < usize::MAX,
        ensures
            final(self)@ == old(self)@.finished(outcome),
            found == (if final(self)@.is_done() {
                Some(final(self).num_success)
            } else {
                None
            }),
            forall|total: nat| #[trigger] old(self).wf(total) ==> final(self).wf(total),
    {
        match outcome {
            Some(found) => {
                self.num_waiting = self.num_waiting - 1;
                if found {
                    self.num_success = self.num_success + 1;
                }
            },
            None => {},
        }
        if self.num_waiting == 0 && self.samples.len() == 0 {
            Some(self.num_success)
        } else {
            None
        }
    }
}

/// The samples that a validator takes are those at the indices, in their order, each with its index.
/// So different indices below the number of keys give as many samples at different places.
pub proof fn lemma_samples_are_exact(keys: Seq<NodeId>, indices: Seq<usize>)
    ensures
        samples_at(keys, indices).len() == indices.len(),
        forall|i: int|
            0 <= i < indices.len() ==> (#[trigger] samples_at(keys, indices)[i]).0 == indices[i]
                && samples_at(keys, indices)[i].1 == keys[indices[i] as int],
        forall|amount: nat| #[trigger]
            are_distinct_indices(indices, keys.len(), amount) ==> {
                &&& samples_at(keys, indices).len() == amount
                &&& forall|i: int, j: int|
                    0 <= i < j < amount ==> (#[trigger] samples_at(keys, indices)[i]).0 != (
                    #[trigger] samples_at(keys, indices)[j]).0
                &&& forall|i: int|
                    0 <= i < amount ==> (#[trigger] samples_at(keys, indices)[i]).0 < keys.len()
            },
{
    assert forall|amount: nat| #[trigger]
        are_distinct_indices(indices, keys.len(), amount) implies {
        &&& samples_at(keys, indices).len() == amount
        &&& forall|i: int, j: int|
            0 <= i < j < amount ==> (#[trigger] samples_at(keys, indices)[i]).0 != (
            #[trigger] samples_at(keys, indices)[j]).0
        &&& forall|i: int|
            0 <= i < amount ==> (#[trigger] samples_at(keys, indices)[i]).0 < keys.len()
    } by {
        assert forall|i: int, j: int| 0 <= i < j < amount implies (#[trigger] samples_at(
            keys,
            indices,
        )[i]).0 != (#[trigger] samples_at(keys, indices)[j]).0 by {
            assert(indices[i] != indices[j]);
        }
    }
}

/// The keys of samples are the digests of their indices, each written as a machine word whose bytes
/// spell the index.
pub proof fn lemma_sample_keys_are_exact(keys: Seq<NodeId>, index: int)
    requires
        are_sample_keys(keys),
        0 <= index < keys.len() <= usize::MAX,
    ensures
        8 * word_size() == usize::BITS,
        exists|word: Seq<u8>|
            word.len() == word_size() && be_value(word) == index && keys[index]@
                == #[trigger] keccak256_digest(word),
{
    let word = big_endian(index as nat, word_size());
    vstd::arithmetic::power2::lemma2_to64();
    vstd::arithmetic::power2::lemma2_to64_rest();
    assert(usize::BITS == 32 || usize::BITS == 64);
    lemma_big_endian(index as nat, word_size());
    assert(keys[index]@ == keccak256_digest(word));
}

/// A lookup is started exactly while one more may run and a sample is left, for the last of those
/// that are left. An outcome ends one lookup, and counts if the sample was found. The lookups are
/// done exactly if none is running and no sample is left.
pub proof fn lemma_lookup_steps(state: LookupState, found: bool)
    ensures
        state.next() is Some <==> state.num_waiting < state.parallelism && state.samples.len() > 0,
        state.next() is Some ==> {
            &&& state.next()->0 == state.samples[state.samples.len() - 1]
            &&& state.started().samples == state.samples.take(state.samples.len() - 1)
            &&& state.started().num_waiting == state.num_waiting + 1
            &&& state.started().num_success == state.num_success
            &&& state.started().parallelism == state.parallelism
        },
        state.next() is None ==> state.started() == state,
        state.num_waiting > 0 ==> state.finished(Some(found)).num_waiting == state.num_waiting - 1,
        state.finished(Some(found)).num_success == state.num_success + (if found {
            1int
        } else {
            0int
        }),
        state.finished(Some(found)).samples == state.samples,
        state.finished(Some(found)).parallelism == state.parallelism,
        state.finished(None) == state,
        state.is_done() <==> state.num_waiting == 0 && state.samples.len() == 0,
{
    if state.samples.len() > 0 {
        assert(state.samples.drop_last() =~= state.samples.take(state.samples.len() - 1));
    }
}

/// The samples that were found are the lookups that succeeded.
pub proof fn lemma_successes_are_exact(outcomes: Seq<bool>)
    ensures
        successes(outcomes) == outcomes.filter(|found: bool| found).len(),
    decreases outcomes.len(),
{
    reveal(Seq::filter);
    if outcomes.len() > 0 {
        lemma_successes_are_exact(outcomes.drop_last());
    }
}

/// The lookups of a validator stand in the model for what they keep, with nothing left out.
pub proof fn lemma_lookups_view(lookups: Lookups, samples: Seq<(usize, NodeId)>, parallelism: nat)
    ensures
        lookups@.samples == lookups.samples@,
        lookups@.parallelism == lookups.parallelism,
        lookups@.num_waiting == lookups.num_waiting,
        lookups@.num_success == lookups.num_success,
        LookupState::first(samples, parallelism).samples == samples,
        LookupState::first(samples, parallelism).parallelism == parallelism,
        LookupState::first(samples, parallelism).num_waiting == 0,
        LookupState::first(samples, parallelism).num_success == 0,
{
}

} // verus!
