//! The course of a simulation.

use vstd::prelude::*;
use crate::args::{LookupMethod, SampleArgs, SimulationCase};
use crate::events::MsgCountCmd;
use crate::ids::{be_value, NodeId};
use crate::iterative::lists_of;
use crate::report::{not_stored, numbers, sum_of, Tally};
use crate::sampling::{
    are_distinct_indices, are_sample_keys, choose_samples, choose_validators,
    lemma_samples_are_exact, picked_indices, sample_keys, samples_at,
};
use crate::seeds::{big_endian, is_seed_file, lemma_seed_is_kept, load_seed, seed_of};

verus! {

/// What has happened in a simulation.
pub enum Event {
    /// All nodes are up.
    Started,
    /// The dissemination is over.
    Disseminated(Tally),
    /// The messages of the dissemination were counted, after the report on it.
    Counted { is_complete: bool },
    /// The file of the validators' seed was read, if there is one.
    SeedFile(Option<Vec<u8>>),
    /// The validators are done: how many samples each has found.
    Sampled(Vec<usize>),
    /// The messages of the sampling were counted.
    CountedAgain,
}

/// What a dissemination came to.
#[derive(Debug)]
pub struct Overview {
    /// How many samples are stored in all nodes together.
    pub keys_stored_total: usize,
    /// How many samples are stored somewhere.
    pub unique_keys_stored: usize,
    /// Whether that is as many as were to be disseminated.
    pub is_complete: bool,
    /// The samples that are stored nowhere, where the simulation looks for them.
    pub missing: Vec<NodeId>,
}

/// A node that looks up samples.
#[derive(Debug)]
pub struct Validator {
    /// The index of the node.
    pub node: usize,
    /// The samples that it looks up, with their indices.
    pub samples: Vec<(usize, NodeId)>,
}

/// How many samples a validator has found, of how many.
#[derive(Debug)]
pub struct Outcome {
    pub validator: usize,
    pub found: usize,
    pub of: usize,
}

/// What happens next in a simulation.
#[derive(Debug)]
pub enum Step {
    /// Disseminate samples under these keys.
    Disseminate(Vec<NodeId>),
    /// Report on the dissemination, and count its messages.
    Report(Overview),
    /// Report on a dissemination in which samples were lost, and stop with a failure.
    Abandon(Overview),
    /// Start counting messages anew, and read the file of the validators' seed.
    Reset,
    /// Write the seed to its file, and let the validators look up samples.
    Sample { seed: u64, validators: Vec<Validator>, parallelism: usize, method: LookupMethod },
    /// Report on the validators, and count the messages of the sampling.
    Outcomes(Vec<Outcome>),
    /// Stop.
    Finished,
}

impl Event {
    /// Whether an event can happen in a simulation of `node_count` nodes with samples under `keys`.
    pub open spec fn fits(&self, case: SimulationCase, node_count: nat, keys: Seq<NodeId>) -> bool {
        match self {
            Event::Started => true,
            Event::Disseminated(tally) => {
                &&& tally.wf()
                &&& sum_of(numbers(tally.keys_per_node@)) <= usize::MAX
            },
            Event::Counted { is_complete } => *is_complete,
            Event::SeedFile(file) => {
                &&& is_seed_file(*file)
                &&& case matches SimulationCase::Sample(args) && args.validators_number
                    <= node_count && (args.validators_number > 0 ==> args.samples_per_validator
                    <= keys.len())
            },
            Event::Sampled(_) => case is Sample,
            Event::CountedAgain => case is Sample,
        }
    }
}

/// Whether validators are the nodes that a seed picks, each with different samples.
pub open spec fn are_validators(
    validators: Seq<Validator>,
    seed: u64,
    node_count: usize,
    keys: Seq<NodeId>,
    args: SampleArgs,
) -> bool {
    let nodes = picked_indices(seed, node_count, args.validators_number);
    &&& are_distinct_indices(nodes, node_count as nat, args.validators_number as nat)
    &&& validators.len() == nodes.len()
    &&& forall|i: int|
        0 <= i < validators.len() ==> {
            &&& (#[trigger] validators[i]).node == nodes[i]
            &&& looks_up(validators[i].samples@, keys, args.samples_per_validator as nat)
        }
}

/// Whether `samples` are `amount` different ones of the samples under `keys`.
pub open spec fn looks_up(samples: Seq<(usize, NodeId)>, keys: Seq<NodeId>, amount: nat) -> bool {
    exists|indices: Seq<usize>| #[trigger]
        are_distinct_indices(indices, keys.len(), amount) && samples == samples_at(keys, indices)
}

fn appoint(seed: u64, node_count: usize, keys: &Vec<NodeId>, args: &SampleArgs) -> (validators: Vec<
    Validator,
>)
    requires
        args.validators_number <= node_count,
        args.validators_number > 0 ==> args.samples_per_validator <= keys@.len(),
    ensures
        are_validators(validators@, seed, node_count, keys@, *args),
{
    let nodes: Vec<usize> = choose_validators(seed, node_count, args.validators_number);
    let mut validators: Vec<Validator> = Vec::new();
    let mut i: usize = 0;
    while i < nodes.len()
        invariant
            i <= nodes@.len(),
            nodes@.len() == args.validators_number,
            args.validators_number > 0 ==> args.samples_per_validator <= keys@.len(),
            validators@.len() == i,
            forall|j: int|
                0 <= j < i ==> {
                    &&& (#[trigger] validators@[j]).node == nodes@[j]
                    &&& looks_up(
                        validators@[j].samples@,
                        keys@,
                        args.samples_per_validator as nat,
                    )
                },
        decreases nodes@.len() - i,
    {
        let samples: Vec<(usize, NodeId)> = choose_samples(keys, args.samples_per_validator);
        validators.push(Validator { node: nodes[i], samples });
        i = i + 1;
    }
    validators
}

/// The outcomes for validators that have found so many samples of `of` each.
pub open spec fn are_outcomes(outcomes: Seq<Outcome>, found: Seq<usize>, of: usize) -> bool {
    &&& outcomes.len() == found.len()
    &&& forall|i: int|
        0 <= i < outcomes.len() ==> (#[trigger] outcomes[i]).validator == i && outcomes[i].found
            == found[i] && outcomes[i].of == of
}

fn list_outcomes(found: &Vec<usize>, of: usize) -> (outcomes: Vec<Outcome>)
    ensures
        are_outcomes(outcomes@, found@, of),
{
    let mut outcomes: Vec<Outcome> = Vec::new();
    let mut i: usize = 0;
    while i < found.len()
        invariant
            i <= found@.len(),
            outcomes@.len() == i,
            forall|j: int|
                0 <= j < i ==> (#[trigger] outcomes@[j]).validator == j && outcomes@[j].found
                    == found@[j] && outcomes@[j].of == of,
        decreases found@.len() - i,
    {
        outcomes.push(Outcome { validator: i, found: found[i], of });
        i = i + 1;
    }
    outcomes
}

/// Whether an overview is that of a dissemination which ended with a tally.
pub open spec fn is_overview(
    overview: Overview,
    case: SimulationCase,
    keys: Seq<NodeId>,
    tally: Tally,
) -> bool {
    &&& overview.keys_stored_total == sum_of(numbers(tally.keys_per_node@))
    &&& overview.unique_keys_stored == lists_of(tally.nodes_per_key@).dom().len()
    &&& overview.is_complete == (overview.unique_keys_stored
        == case.dissemination().number_of_samples)
    &&& overview.missing@ == (if case is Disseminate {
        not_stored(keys, lists_of(tally.nodes_per_key@))
    } else {
        Seq::empty()
    })
}

/// Whether a step is what happens in a simulation after an event.
pub open spec fn is_next(
    case: SimulationCase,
    node_count: usize,
    keys: Seq<NodeId>,
    event: Event,
    step: Step,
) -> bool {
    match event {
        Event::Started => step matches Step::Disseminate(made) && made@.len()
            == case.dissemination().number_of_samples && are_sample_keys(made@),
        Event::Disseminated(tally) => match step {
            Step::Report(overview) => is_overview(overview, case, keys, tally)
                && overview.is_complete,
            Step::Abandon(overview) => is_overview(overview, case, keys, tally)
                && !overview.is_complete,
            _ => false,
        },
        Event::Counted { .. } => match case {
            SimulationCase::Disseminate(_) => step is Finished,
            SimulationCase::Sample(_) => step is Reset,
        },
        Event::SeedFile(file) => {
            &&& step matches Step::Sample { seed, validators, parallelism, method } && {
                &&& file is Some ==> seed == seed_of(file, 0)
                &&& case matches SimulationCase::Sample(args) && {
                    &&& are_validators(validators@, seed, node_count, keys, args)
                    &&& parallelism == args.dissemination_args.parallelism
                    &&& method == args.lookup_method
                }
            }
        },
        Event::Sampled(found) => {
            &&& step matches Step::Outcomes(outcomes) && case matches SimulationCase::Sample(args)
                && are_outcomes(outcomes@, found@, args.samples_per_validator)
        },
        Event::CountedAgain => step is Finished,
    }
}

/// Plays a simulation: what happens next, after each event.
///
/// Samples are disseminated and the outcome is reported. A simulation in which samples were lost is
/// abandoned. The report is all of a simulation of the dissemination; otherwise validators then
/// look up samples, and what they found is reported.
pub fn play_simulation(
    case: &SimulationCase,
    node_count: usize,
    keys: &Vec<NodeId>,
    event: Event,
) -> (step: Step)
    requires
        event.fits(*case, node_count as nat, keys@),
    ensures
        is_next(*case, node_count, keys@, event, step),
{
    match event {
        Event::Started => {
            let args = case.dissemination_args();
            Step::Disseminate(sample_keys(args.number_of_samples))
        },
        Event::Disseminated(tally) => {
            let missing: Vec<NodeId> = match case {
                SimulationCase::Disseminate(_) => tally.missing_keys(keys),
                SimulationCase::Sample(_) => Vec::new(),
            };
            let args = case.dissemination_args();
            let unique_keys_stored: usize = tally.unique_keys_stored();
            let overview = Overview {
                keys_stored_total: tally.keys_stored_total(),
                unique_keys_stored,
                is_complete: unique_keys_stored == args.number_of_samples,
                missing,
            };
            if overview.is_complete {
                Step::Report(overview)
            } else {
                Step::Abandon(overview)
            }
        },
        Event::Counted { .. } => match case {
            SimulationCase::Disseminate(_) => Step::Finished,
            SimulationCase::Sample(_) => Step::Reset,
        },
        Event::SeedFile(file) => match case {
            SimulationCase::Sample(args) => {
                let seed: u64 = load_seed(&file);
                let validators: Vec<Validator> = appoint(seed, node_count, keys, args);
                Step::Sample {
                    seed,
                    validators,
                    parallelism: args.dissemination_args.parallelism,
                    method: args.lookup_method,
                }
            },
            SimulationCase::Disseminate(_) => Step::Finished,
        },
        Event::Sampled(found) => match case {
            SimulationCase::Sample(args) => Step::Outcomes(
                list_outcomes(&found, args.samples_per_validator),
            ),
            SimulationCase::Disseminate(_) => Step::Finished,
        },
        Event::CountedAgain => Step::Finished,
    }
}

/// The command that a step sends to the counter of messages, if it does.
pub open spec fn command_of(step: Step) -> Option<MsgCountCmd> {
    match step {
        Step::Report(_) => Some(MsgCountCmd::Get),
        Step::Reset => Some(MsgCountCmd::Reset),
        Step::Outcomes(_) => Some(MsgCountCmd::Get),
        _ => None,
    }
}

/// The command that a step sends to the counter of messages, if it does: the count is asked for
/// after the dissemination and after the sampling, and counting starts anew between them.
pub fn counter_command(step: &Step) -> (command: Option<MsgCountCmd>)
    ensures
        command == command_of(*step),
{
    match step {
        Step::Report(_) => Some(MsgCountCmd::Get),
        Step::Reset => Some(MsgCountCmd::Reset),
        Step::Outcomes(_) => Some(MsgCountCmd::Get),
        _ => None,
    }
}

/// The commands that the first `amount` steps of a simulation send, in order.
pub open spec fn commands_of(steps: Seq<Step>, amount: nat) -> Seq<MsgCountCmd>
    decreases amount,
{
    if amount == 0 {
        Seq::empty()
    } else {
        let front = commands_of(steps, (amount - 1) as nat);
        match command_of(steps[amount - 1]) {
            Some(command) => front.push(command),
            None => front,
        }
    }
}

/// Whether an event is what comes of a step.
pub open spec fn comes_of(event: Event, step: Step) -> bool {
    match step {
        Step::Disseminate(_) => event is Disseminated,
        Step::Report(overview) => event == (Event::Counted { is_complete: overview.is_complete }),
        Step::Abandon(_) => false,
        Step::Reset => event is SeedFile,
        Step::Sample { .. } => event is Sampled,
        Step::Outcomes(_) => event is CountedAgain,
        Step::Finished => false,
    }
}

/// The keys of the samples that are disseminated, once they were made.
pub open spec fn keys_at(steps: Seq<Step>, index: int) -> Seq<NodeId> {
    if index > 0 && steps[0] is Disseminate {
        steps[0]->Disseminate_0@
    } else {
        Seq::empty()
    }
}

/// Whether events and steps are a simulation from its start on: each step is what happens after the
/// event, and each event but the first is what comes of the step before.
pub open spec fn is_run(
    case: SimulationCase,
    node_count: usize,
    events: Seq<Event>,
    steps: Seq<Step>,
) -> bool {
    &&& steps.len() > 0
    &&& events.len() == steps.len()
    &&& events[0] is Started
    &&& forall|i: int|
        0 <= i < steps.len() ==> {
            let keys = keys_at(steps, i);
            &&& events[i].fits(case, node_count as nat, keys)
            &&& is_next(case, node_count, keys, events[i], #[trigger] steps[i])
            &&& i > 0 ==> comes_of(events[i], steps[i - 1])
        }
}

/// The messages of the dissemination and those of the sampling are counted apart. The counter is
/// asked once in a simulation of the dissemination. In one of the sampling it is asked after the
/// dissemination, reset before any validator looks up samples, and asked again when they are done.
/// No command is sent in a simulation that is abandoned.
pub proof fn lemma_commands_of_a_run(
    case: SimulationCase,
    node_count: usize,
    events: Seq<Event>,
    steps: Seq<Step>,
)
    requires
        is_run(case, node_count, events, steps),
    ensures
        ({
            let commands = commands_of(steps, steps.len());
            &&& steps.last() is Finished && case is Disseminate ==> commands
                == seq![MsgCountCmd::Get]
            &&& steps.last() is Finished && case is Sample ==> commands
                == seq![MsgCountCmd::Get, MsgCountCmd::Reset, MsgCountCmd::Get]
            &&& steps.last() is Sample ==> commands == seq![MsgCountCmd::Get, MsgCountCmd::Reset]
            &&& steps.last() is Abandon ==> commands == Seq::<MsgCountCmd>::empty()
        }),
        steps.len() <= (if case is Disseminate {
            3nat
        } else {
            6nat
        }),
{
    reveal_with_fuel(commands_of, 7);
    assert(steps[0] is Disseminate);
    if steps.len() > 1 {
        assert(steps[1] is Report || steps[1] is Abandon);
    }
    if steps.len() > 2 {
        assert(steps[1] is Report && (case is Disseminate ==> steps[2] is Finished));
        assert(case is Sample ==> steps[2] is Reset);
    }
    if steps.len() > 3 {
        assert(steps[3] is Sample && case is Sample);
    }
    if steps.len() > 4 {
        assert(steps[4] is Outcomes);
    }
    if steps.len() > 5 {
        assert(steps[5] is Finished);
    }
    if steps.len() > 6 {
        assert(comes_of(events[6], steps[5])) by {
            assert(is_next(case, node_count, keys_at(steps, 6), events[6], steps[6]));
        }
    }
}

/// A snapshot repeats the choice of validators: a run that reads the seed which an earlier run with
/// as many nodes and validators wrote to its file lets the same nodes act as validators. They are
/// as many different nodes as there are to be validators.
pub proof fn lemma_snapshot_repeats_validators(
    first: Seq<Validator>,
    second: Seq<Validator>,
    seed: u64,
    file: Vec<u8>,
    read: u64,
    node_count: usize,
    first_keys: Seq<NodeId>,
    second_keys: Seq<NodeId>,
    first_args: SampleArgs,
    second_args: SampleArgs,
)
    requires
        are_validators(first, seed, node_count, first_keys, first_args),
        file@ == big_endian(seed as nat, 8),
        read == seed_of(Some(file), 0),
        are_validators(second, read, node_count, second_keys, second_args),
        first_args.validators_number == second_args.validators_number,
    ensures
        first.len() == first_args.validators_number,
        first.len() == second.len(),
        forall|i: int|
            0 <= i < first.len() ==> (#[trigger] first[i]).node == (#[trigger] second[i]).node,
        forall|i: int| 0 <= i < first.len() ==> (#[trigger] first[i]).node < node_count,
        forall|i: int, j: int|
            0 <= i < j < first.len() ==> (#[trigger] first[i]).node != (#[trigger] first[j]).node,
{
    lemma_seed_is_kept(seed, file, 0);
    let nodes = picked_indices(seed, node_count, first_args.validators_number);
    assert forall|i: int, j: int| 0 <= i < j < first.len() implies (#[trigger] first[i]).node != (
    #[trigger] first[j]).node by {
        assert(nodes[i] != nodes[j]);
    }
    assert forall|i: int| 0 <= i < first.len() implies (#[trigger] first[i]).node < node_count by {
        assert(nodes[i] < node_count);
    }
}

/// Which events can happen in a simulation: an outcome of the dissemination whose total can be
/// counted; that its messages were counted, if no sample was lost; and under sampling a seed file
/// with enough bytes, where there are enough nodes to be validators and enough samples for each.
pub proof fn lemma_possible_events(
    event: Event,
    case: SimulationCase,
    node_count: nat,
    keys: Seq<NodeId>,
)
    ensures
        event.fits(case, node_count, keys) <==> match event {
            Event::Started => true,
            Event::Disseminated(tally) => tally.keys_per_node.wf() && tally.nodes_per_key.wf()
                && sum_of(numbers(tally.keys_per_node@)) <= usize::MAX,
            Event::Counted { is_complete } => is_complete,
            Event::SeedFile(file) => match case {
                SimulationCase::Sample(args) => (file is Some ==> file->0@.len() >= 8)
                    && args.validators_number <= node_count && (args.validators_number == 0
                    || args.samples_per_validator <= keys.len()),
                SimulationCase::Disseminate(_) => false,
            },
            Event::Sampled(_) => case is Sample,
            Event::CountedAgain => case is Sample,
        },
{
}

/// What a simulation goes on with. It starts by disseminating as many samples as the options say.
/// A dissemination in which all of these were stored somewhere is reported, and any other is given
/// up; the samples that are missing are looked for only where dissemination is all there is to the
/// simulation. Sampling goes on with the validators that the seed picks, each with as many different
/// samples as the options say, and ends with how many each has found.
pub proof fn lemma_steps_are_exact(
    case: SimulationCase,
    node_count: usize,
    keys: Seq<NodeId>,
    event: Event,
    step: Step,
)
    requires
        event.fits(case, node_count as nat, keys),
        is_next(case, node_count, keys, event, step),
    ensures
        ({
            let args = match case {
                SimulationCase::Disseminate(args) => args,
                SimulationCase::Sample(args) => args.dissemination_args,
            };
            match event {
                Event::Started => step matches Step::Disseminate(made) && made@.len()
                    == args.number_of_samples && are_sample_keys(made@),
                Event::Disseminated(tally) => {
                    let stored = tally.nodes_per_key@.dom();
                    let complete = stored.len() == args.number_of_samples;
                    &&& complete <==> step is Report
                    &&& !complete <==> step is Abandon
                    &&& step matches Step::Report(overview) ==> overview.is_complete
                        && overview.unique_keys_stored == stored.len()
                        && overview.keys_stored_total == sum_of(numbers(tally.keys_per_node@))
                        && (case is Disseminate ==> overview.missing@ == keys.filter(
                        |k: NodeId| !stored.contains(k),
                    )) && (case is Sample ==> overview.missing@.len() == 0)
                    &&& step matches Step::Abandon(overview) ==> !overview.is_complete
                        && overview.unique_keys_stored == stored.len()
                        && overview.keys_stored_total == sum_of(numbers(tally.keys_per_node@))
                        && (case is Disseminate ==> overview.missing@ == keys.filter(
                        |k: NodeId| !stored.contains(k),
                    )) && (case is Sample ==> overview.missing@.len() == 0)
                },
                Event::Counted { .. } => if case is Sample {
                    step is Reset
                } else {
                    step is Finished
                },
                Event::SeedFile(file) => step matches Step::Sample {
                    seed,
                    validators,
                    parallelism,
                    method,
                } && case matches SimulationCase::Sample(sample) && {
                    &&& file is Some ==> seed == be_value(file->0@.take(8))
                    &&& parallelism == args.parallelism
                    &&& method == sample.lookup_method
                    &&& validators@.len() == sample.validators_number
                    &&& forall|i: int|
                        0 <= i < validators@.len() ==> {
                            let samples = (#[trigger] validators@[i]).samples@;
                            &&& validators@[i].node == picked_indices(
                                seed,
                                node_count,
                                sample.validators_number,
                            )[i]
                            &&& validators@[i].node < node_count
                            &&& samples.len() == sample.samples_per_validator
                            &&& forall|s: int|
                                0 <= s < samples.len() ==> (#[trigger] samples[s]).0 < keys.len()
                                    && samples[s].1 == keys[samples[s].0 as int]
                            &&& forall|s: int, t: int|
                                0 <= s < t < samples.len() ==> (#[trigger] samples[s]).0 != (
                                #[trigger] samples[t]).0
                        }
                },
                Event::Sampled(found) => step matches Step::Outcomes(outcomes)
                    && case matches SimulationCase::Sample(sample) && {
                    &&& outcomes@.len() == found@.len()
                    &&& forall|i: int|
                        0 <= i < found@.len() ==> (#[trigger] outcomes@[i]).validator == i
                            && outcomes@[i].found == found@[i] && outcomes@[i].of
                            == sample.samples_per_validator
                },
                Event::CountedAgain => step is Finished,
            }
        }),
{
    match event {
        Event::Disseminated(tally) => {
            let lists = lists_of(tally.nodes_per_key@);
            let stored = tally.nodes_per_key@.dom();
            assert(lists.dom() =~= stored);
            lemma_missing_by(keys, lists, |k: NodeId| !stored.contains(k));
        },
        Event::SeedFile(file) => {
            if let Step::Sample { seed, validators, .. } = step {
                if let SimulationCase::Sample(sample) = case {
                    let nodes = picked_indices(seed, node_count, sample.validators_number);
                    assert forall|i: int| 0 <= i < validators@.len() implies {
                        let samples = (#[trigger] validators@[i]).samples@;
                        &&& validators@[i].node == nodes[i]
                        &&& validators@[i].node < node_count
                        &&& samples.len() == sample.samples_per_validator
                        &&& forall|s: int|
                            0 <= s < samples.len() ==> (#[trigger] samples[s]).0 < keys.len()
                                && samples[s].1 == keys[samples[s].0 as int]
                        &&& forall|s: int, t: int|
                            0 <= s < t < samples.len() ==> (#[trigger] samples[s]).0 != (
                            #[trigger] samples[t]).0
                    } by {
                        let samples = validators@[i].samples@;
                        let amount = sample.samples_per_validator as nat;
                        assert(looks_up(samples, keys, amount));
                        let indices = choose|indices: Seq<usize>| #[trigger]
                            are_distinct_indices(indices, keys.len(), amount) && samples
                                == samples_at(keys, indices);
                        lemma_samples_are_exact(keys, indices);
                        assert(nodes[i] < node_count);
                        assert forall|s: int| 0 <= s < samples.len() implies (
                        #[trigger] samples[s]).0 < keys.len() && samples[s].1
                            == keys[samples[s].0 as int] by {
                            assert(indices[s] < keys.len());
                        }
                        assert forall|s: int, t: int| 0 <= s < t < samples.len() implies (
                        #[trigger] samples[s]).0 != (#[trigger] samples[t]).0 by {
                            assert(indices[s] != indices[t]);
                        }
                    }
                }
            }
        },
        _ => {},
    }
}

proof fn lemma_missing_by(
    keys: Seq<NodeId>,
    lists: Map<NodeId, Seq<NodeId>>,
    is_missing: spec_fn(NodeId) -> bool,
)
    requires
        forall|k: NodeId| #[trigger] is_missing(k) <==> !lists.dom().contains(k),
    ensures
        not_stored(keys, lists) == keys.filter(is_missing),
    decreases keys.len(),
{
    reveal(Seq::filter);
    if keys.len() > 0 {
        lemma_missing_by(keys.drop_last(), lists, is_missing);
    }
    assert(not_stored(keys, lists) =~= keys.filter(is_missing));
}

/// Which commands the counter of messages is sent: it is asked for the count with each report, and
/// reset between the dissemination and the sampling. Other steps send none.
pub proof fn lemma_counter_commands(step: Step)
    ensures
        command_of(step) == Some(MsgCountCmd::Get) <==> step is Report || step is Outcomes,
        command_of(step) == Some(MsgCountCmd::Reset) <==> step is Reset,
        command_of(step) is None <==> step is Disseminate || step is Abandon || step is Sample
            || step is Finished,
{
}

} // verus!
