//! The options of a simulation run.

use vstd::prelude::*;

verus! {

/// How the nodes are linked before the run starts.
#[derive(Clone, Copy, Debug, PartialEq, Eq, Structural)]
pub enum Topology {
    Linear,
    Uniform,
}

/// How keys are matched with the contacts that they are forwarded to.
#[derive(Clone, Copy, Debug, PartialEq, Eq, Structural)]
pub enum BatchingStrategy {
    BucketWise,
    DistanceWise,
}

/// Who looks for the nodes closest to a key: each node on the way, or the originator.
#[derive(Clone, Copy, Debug, PartialEq, Eq, Structural)]
pub enum RoutingStrategy {
    Recursive,
    Iterative,
}

/// How many contacts a key is forwarded to.
#[derive(Clone, Copy, Debug, PartialEq, Eq, Structural)]
pub enum ReplicatePolicy {
    ReplicateOne,
    ReplicateSome,
    ReplicateAll,
}

/// Whether a request that was seen before is handled again.
#[derive(Clone, Copy, Debug, PartialEq, Eq, Structural)]
pub enum ForwardPolicy {
    ForwardOne,
    ForwardAll,
}

/// The transport of talk requests.
#[derive(Clone, Copy, Debug, PartialEq, Eq, Structural)]
pub enum TalkWire {
    Discv5,
    Libp2p,
}

/// How a validator looks for a sample.
#[derive(Clone, Copy, Debug, PartialEq, Eq, Structural)]
pub enum LookupMethod {
    Discv5FindValue,
    OverlayFindContent,
}

/// The options of the dissemination of samples.
#[derive(Clone, Copy, Debug, PartialEq, Eq, Structural)]
pub struct DisseminationArgs {
    pub number_of_samples: usize,
    pub routing_strategy: RoutingStrategy,
    pub batching_strategy: BatchingStrategy,
    pub forward_mode: ForwardPolicy,
    pub replicate_mode: ReplicatePolicy,
    pub redundancy: usize,
    pub parallelism: usize,
}

/// The options of random sampling.
#[derive(Clone, Copy, Debug, PartialEq, Eq, Structural)]
pub struct SampleArgs {
    pub dissemination_args: DisseminationArgs,
    pub validators_number: usize,
    pub samples_per_validator: usize,
    pub lookup_method: LookupMethod,
}

/// What is simulated.
#[derive(Clone, Copy, Debug, PartialEq, Eq, Structural)]
pub enum SimulationCase {
    Disseminate(DisseminationArgs),
    Sample(SampleArgs),
}

impl SimulationCase {
    /// The dissemination that the case starts with.
    pub open spec fn dissemination(self) -> DisseminationArgs {
        match self {
            SimulationCase::Disseminate(args) => args,
            SimulationCase::Sample(args) => args.dissemination_args,
        }
    }

    /// The options of the dissemination that the case starts with.
    pub fn dissemination_args(&self) -> (args: DisseminationArgs)
        ensures
            args == self.dissemination(),
    {
        match self {
            SimulationCase::Disseminate(args) => *args,
            SimulationCase::Sample(args) => args.dissemination_args,
        }
    }
}

/// The options of a run.
#[derive(Clone, Debug)]
pub struct Options {
    pub node_count: usize,
    pub ip_listen: String,
    pub port_udp: usize,
    pub topology: Topology,
    pub wire_protocol: TalkWire,
    pub request_timeout: u64,
    pub snapshot: String,
    pub cache_dir: String,
    pub simulation_case: SimulationCase,
}

/// A simulation starts with the dissemination that its options describe.
pub proof fn lemma_dissemination(case: SimulationCase)
    ensures
        case matches SimulationCase::Disseminate(args) ==> case.dissemination() == args,
        case matches SimulationCase::Sample(args) ==> case.dissemination()
            == args.dissemination_args,
{
}

} // verus!
