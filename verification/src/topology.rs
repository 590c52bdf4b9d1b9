//! How the nodes are linked before a run starts.

use vstd::prelude::*;
use rand::rngs::StdRng;
use rand::{Rng, SeedableRng};
use crate::args::Topology;
use crate::grouping::{
    lemma_ranked, lemma_ranked_payloads, payloads, rank_order, ranked, with_ranks,
};
use crate::ids::{
    be_value, distance, lemma_distance_zero, xor_distance, NodeId,
};
use crate::seeds::{big_endian, is_seed_file, lemma_seed_is_kept, load_seed, seed_of};

verus! {

/// How many contacts each node is given in a uniform topology.
pub const UNIFORM_LINKS: u32 = 150;

/// A generator of random numbers.
#[verifier::external_type_specification]
#[verifier::external_body]
pub struct ExStdRng(rand::rngs::StdRng);

/// The generator that `rand::SeedableRng::seed_from_u64` makes from a seed.
pub uninterp spec fn rng_from_seed(seed: u64) -> StdRng;

/// The number below a bound that `rand::Rng::gen_range` draws from a generator on a machine with
/// words of so many bits, and the generator that is left.
pub uninterp spec fn drawn(rng: StdRng, bound: usize, word_bits: u32) -> (usize, StdRng);

/// A generator made from a seed, with `rand::SeedableRng::seed_from_u64`: the seed alone decides
/// which one.
#[verifier::external_body]
fn seeded(seed: u64) -> (rng: StdRng)
    ensures
        rng == rng_from_seed(seed),
{
    StdRng::seed_from_u64(seed)
}

/// Draws a number below a bound, with `rand::Rng::gen_range`: the generator, the bound and the size
/// of a machine word decide which one, and which generator is left.
#[verifier::external_body]
fn draw_below(rng: &mut StdRng, bound: usize) -> (number: usize)
    requires
        bound > 0,
    ensures
        number < bound,
        (number, *final(rng)) == drawn(*old(rng), bound, usize::BITS),
{
    rng.gen_range(0usize..bound)
}

/// Nodes by their indices, with their distances to the last node.
pub open spec fn from_last(ids: Seq<NodeId>) -> Seq<(nat, usize)> {
    Seq::new(ids.len(), |i: int| (distance(ids[i], ids.last()), i as usize))
}

/// The nodes by their indices, the one farthest from the last node first.
pub open spec fn farthest_first(ids: Seq<NodeId>) -> Seq<usize> {
    payloads(ranked(from_last(ids))).reverse()
}

/// Orders the nodes by their indices, the one farthest from the last node first.
pub fn order_linearly(ids: &Vec<NodeId>) -> (order: Vec<usize>)
    requires
        ids@.len() > 0,
    ensures
        order@ == farthest_first(ids@),
{
    let last: NodeId = ids[ids.len() - 1];
    let mut items: Vec<(NodeId, usize)> = Vec::new();
    let mut i: usize = 0;
    while i < ids.len()
        invariant
            i <= ids@.len(),
            last == ids@.last(),
            items@.len() == i,
            forall|j: int|
                0 <= j < i ==> be_value((#[trigger] items@[j]).0@) == distance(ids@[j], last)
                    && items@[j].1 == j,
        decreases ids@.len() - i,
    {
        items.push((xor_distance(&ids[i], &last), i));
        i = i + 1;
    }
    assert(with_ranks(items@) =~= from_last(ids@));
    let nearest_first: Vec<usize> = rank_order(items);
    let mut order: Vec<usize> = Vec::new();
    let mut k: usize = nearest_first.len();
    while k > 0
        invariant
            k <= nearest_first@.len(),
            order@.len() == nearest_first@.len() - k,
            forall|j: int| 0 <= j < order@.len() ==> order@[j] == nearest_first@.reverse()[j],
        decreases k,
    {
        k = k - 1;
        order.push(nearest_first[k]);
    }
    assert(order@ =~= nearest_first@.reverse());
    order
}

/// The links of a chain: each node but the last knows the next one.
pub open spec fn chain(order: Seq<usize>) -> Seq<(usize, usize)> {
    Seq::new(
        if order.len() == 0 {
            0
        } else {
            (order.len() - 1) as nat
        },
        |i: int| (order[i], order[i + 1]),
    )
}

fn link_chain(order: &Vec<usize>) -> (links: Vec<(usize, usize)>)
    ensures
        links@ == chain(order@),
{
    let mut links: Vec<(usize, usize)> = Vec::new();
    let mut i: usize = 0;
    while i < order.len()
        invariant
            i <= order@.len(),
            links@ =~= chain(order@).take(if i < order@.len() {
                i as int
            } else {
                chain(order@).len() as int
            }),
        decreases order@.len() - i,
    {
        if i != order.len() - 1 {
            links.push((order[i], order[i + 1]));
        }
        i = i + 1;
    }
    assert(links@ =~= chain(order@));
    links
}

/// A uniform topology in the making: each node in turn is given random contacts.
pub struct UniformLinks {
    pub rng: StdRng,
    /// The number of nodes.
    pub count: usize,
    /// The node whose turn it is.
    pub node: usize,
    /// How many contacts it still lacks.
    pub left: u32,
}

impl UniformLinks {
    /// There are nodes to choose from, and the turn is with one of them unless all have had it.
    pub open spec fn wf(&self) -> bool {
        &&& self.count >= 2
        &&& self.node <= self.count
        &&& self.node < self.count ==> 0 < self.left <= UNIFORM_LINKS
        &&& self.node == self.count ==> self.left == UNIFORM_LINKS
    }

    /// How many contacts were given out.
    pub open spec fn links_made(&self) -> int {
        self.node * UNIFORM_LINKS + (UNIFORM_LINKS - self.left)
    }

    /// Whether all nodes have their contacts.
    pub open spec fn is_done(&self) -> bool {
        self.node == self.count
    }

    /// Before any contact was given out.
    pub open spec fn first(seed: u64, count: usize) -> UniformLinks {
        UniformLinks { rng: rng_from_seed(seed), count, node: 0, left: UNIFORM_LINKS }
    }

    /// The link that is proposed: the node whose turn it is, and as its contact the node at the
    /// index that the generator draws, any but the last one. There is none once all nodes have
    /// their contacts.
    pub open spec fn proposal(self) -> Option<(usize, usize)> {
        if self.is_done() {
            None
        } else {
            Some((self.node, drawn(self.rng, (self.count - 1) as usize, usize::BITS).0))
        }
    }

    /// After a link was proposed.
    pub open spec fn proposed(self) -> UniformLinks {
        if self.is_done() {
            self
        } else {
            UniformLinks {
                rng: drawn(self.rng, (self.count - 1) as usize, usize::BITS).1,
                ..self
            }
        }
    }

    /// After it was taken up whether the link was accepted. One that was not is not counted.
    pub open spec fn recorded(self, accepted: bool) -> UniformLinks {
        if !accepted {
            self
        } else if self.left == 1 {
            UniformLinks { node: (self.node + 1) as usize, left: UNIFORM_LINKS, ..self }
        } else {
            UniformLinks { left: (self.left - 1) as u32, ..self }
        }
    }

    fn new(seed: u64, count: usize) -> (links: Self)
        requires
            count >= 2,
        ensures
            links == UniformLinks::first(seed, count),
            links.wf(),
            links.links_made() == 0,
    {
        UniformLinks { rng: seeded(seed), count, node: 0, left: UNIFORM_LINKS }
    }

    /// Proposes a link.
    pub fn propose(&mut self) -> (link: Option<(usize, usize)>)
        requires
            old(self).wf(),
        ensures
            final(self).wf(),
            link == old(self).proposal(),
            *final(self) == old(self).proposed(),
            link matches Some((node, contact)) ==> node < old(self).count && contact < old(
                self,
            ).count - 1,
    {
        if self.node == self.count {
            return None;
        }
        let contact: usize = draw_below(&mut self.rng, self.count - 1);
        Some((self.node, contact))
    }

    /// Takes up whether a proposed link was accepted.
    pub fn record(&mut self, accepted: bool)
        requires
            old(self).wf(),
            !old(self).is_done(),
        ensures
            final(self).wf(),
            *final(self) == old(self).recorded(accepted),
            final(self).links_made() == old(self).links_made() + (if accepted {
                1int
            } else {
                0int
            }),
    {
        if accepted {
            if self.left == 1 {
                self.node = self.node + 1;
                self.left = UNIFORM_LINKS;
            } else {
                self.left = self.left - 1;
            }
        }
    }
}

/// Every node is given the same number of contacts: once all have theirs, that many links were
/// accepted for each.
pub proof fn lemma_uniform_total(links: UniformLinks)
    requires
        links.wf(),
        links.is_done(),
    ensures
        links.links_made() == links.count * UNIFORM_LINKS,
{
}

/// How the nodes are to be linked.
pub enum TopologyPlan {
    /// The nodes are put in this order, and these links are made.
    Linear { order: Vec<usize>, links: Vec<(usize, usize)> },
    /// Links are proposed and made one by one. The seed is written to its file.
    Uniform { seed: u64, proposals: UniformLinks },
}

/// Plans the links between nodes, given the file of the seed of the topology, if there is one.
pub fn set_topology(
    topology: Topology,
    ids: &Vec<NodeId>,
    seed_file: &Option<Vec<u8>>,
) -> (plan: TopologyPlan)
    requires
        ids@.len() > 0,
        topology == Topology::Uniform ==> ids@.len() >= 2 && is_seed_file(*seed_file),
    ensures
        plan.is_for(topology, ids@, *seed_file),
{
    match topology {
        Topology::Linear => {
            let order: Vec<usize> = order_linearly(ids);
            let links: Vec<(usize, usize)> = link_chain(&order);
            TopologyPlan::Linear { order, links }
        },
        Topology::Uniform => {
            let seed: u64 = load_seed(seed_file);
            TopologyPlan::Uniform { seed, proposals: UniformLinks::new(seed, ids.len()) }
        },
    }
}

impl TopologyPlan {
    /// Whether this is how nodes are linked, where a seed is read from a file if there is one.
    pub open spec fn is_for(
        &self,
        topology: Topology,
        ids: Seq<NodeId>,
        seed_file: Option<Vec<u8>>,
    ) -> bool {
        match self {
            TopologyPlan::Linear { order, links } => {
                &&& topology == Topology::Linear
                &&& order@ == farthest_first(ids)
                &&& links@ == chain(order@)
            },
            TopologyPlan::Uniform { seed, proposals } => {
                &&& topology == Topology::Uniform
                &&& seed_file is Some ==> seed == seed_of(seed_file, 0)
                &&& proposals.wf()
                &&& proposals == UniformLinks::first(*seed, ids.len() as usize)
            },
        }
    }
}

/// The links that are proposed in so many turns, where the links that were proposed before and the
/// new one decide whether it is accepted; and where that leads.
pub open spec fn proposed_links(
    links: UniformLinks,
    accepts: spec_fn(Seq<(usize, usize)>, (usize, usize)) -> bool,
    turns: nat,
) -> (UniformLinks, Seq<(usize, usize)>)
    decreases turns,
{
    if turns == 0 {
        (links, Seq::empty())
    } else {
        let (now, made) = proposed_links(links, accepts, (turns - 1) as nat);
        match now.proposal() {
            Some(link) => (now.proposed().recorded(accepts(made, link)), made.push(link)),
            None => (now, made),
        }
    }
}

/// A snapshot repeats a uniform topology: a run that reads the seed which an earlier run with as
/// many nodes wrote to its file proposes the same links in the same order, as long as the nodes
/// accept the same ones.
pub proof fn lemma_snapshot_repeats_links(
    seed: u64,
    file: Vec<u8>,
    read: u64,
    count: usize,
    accepts: spec_fn(Seq<(usize, usize)>, (usize, usize)) -> bool,
    turns: nat,
)
    requires
        file@ == big_endian(seed as nat, 8),
        read == seed_of(Some(file), 0),
    ensures
        read == seed,
        proposed_links(UniformLinks::first(seed, count), accepts, turns) == proposed_links(
            UniformLinks::first(read, count),
            accepts,
            turns,
        ),
{
    lemma_seed_is_kept(seed, file, 0);
}

/// A snapshot repeats a topology: nodes with the same identifiers in the same order are linked in
/// the same way by a run that reads the seed which an earlier run wrote to its file. A linear
/// topology has no seed.
pub proof fn lemma_snapshot_repeats_topology(
    first: TopologyPlan,
    second: TopologyPlan,
    topology: Topology,
    ids: Seq<NodeId>,
    first_file: Option<Vec<u8>>,
    second_file: Option<Vec<u8>>,
)
    requires
        first.is_for(topology, ids, first_file),
        second.is_for(topology, ids, second_file),
        first matches TopologyPlan::Uniform { seed, .. } ==> second_file is Some
            && second_file->0@ == big_endian(seed as nat, 8),
    ensures
        match first {
            TopologyPlan::Linear { order, links } => second matches TopologyPlan::Linear {
                order: order_again,
                links: links_again,
            } && order_again@ == order@ && links_again@ == links@,
            TopologyPlan::Uniform { .. } => second == first,
        },
{
    if let TopologyPlan::Uniform { seed, .. } = first {
        lemma_seed_is_kept(seed, second_file->0, 0);
    }
}

/// A linear topology has each node once, comes closer to the last node with every link, and ends
/// with the last node if no other has its identifier.
pub proof fn lemma_linear_order(ids: Seq<NodeId>)
    requires
        0 < ids.len() <= usize::MAX,
    ensures
        farthest_first(ids).len() == ids.len(),
        farthest_first(ids).no_duplicates(),
        forall|i: int|
            0 <= i < ids.len() ==> #[trigger] farthest_first(ids)[i] < ids.len(),
        forall|i: int, j: int|
            0 <= i < j < ids.len() ==> distance(
                ids[#[trigger] farthest_first(ids)[i] as int],
                ids.last(),
            ) >= distance(ids[#[trigger] farthest_first(ids)[j] as int], ids.last()),
        (forall|i: int| 0 <= i < ids.len() - 1 ==> ids[i] != ids.last()) ==> farthest_first(
            ids,
        ).last() == ids.len() - 1,
{
    broadcast use vstd::seq_lib::group_to_multiset_ensures;

    let items = from_last(ids);
    let sorted = ranked(items);
    let nearest = payloads(sorted);
    let order = farthest_first(ids);
    let indices = payloads(items);
    lemma_ranked(items);
    lemma_ranked_payloads(items);
    indices.lemma_multiset_has_no_duplicates();
    nearest.lemma_multiset_has_no_duplicates_conv();
    assert forall|i: int| 0 <= i < sorted.len() implies (#[trigger] nearest[i]) < ids.len()
        && sorted[i].0 == distance(ids[nearest[i] as int], ids.last()) by {
        let item = sorted[i];
        assert(sorted.contains(item));
        assert(sorted.to_multiset().count(item) > 0);
        assert(items.contains(item));
    }
    assert forall|i: int| 0 <= i < ids.len() implies #[trigger] order[i] < ids.len() by {
        assert(order[i] == nearest[ids.len() - 1 - i]);
    }
    assert forall|i: int, j: int| 0 <= i < j < ids.len() implies distance(
        ids[#[trigger] order[i] as int],
        ids.last(),
    ) >= distance(ids[#[trigger] order[j] as int], ids.last()) by {
        let p = ids.len() - 1 - i;
        let q = ids.len() - 1 - j;
        assert(order[i] == nearest[p] && order[j] == nearest[q]);
        assert(sorted[q].0 <= sorted[p].0);
    }
    if forall|i: int| 0 <= i < ids.len() - 1 ==> ids[i] != ids.last() {
        let n = ids.len() - 1;
        assert(indices[n] == n);
        assert(indices.contains(n as usize));
        assert(nearest.to_multiset().count(n as usize) > 0);
        assert(nearest.contains(n as usize));
        let p = choose|p: int| 0 <= p < nearest.len() && nearest[p] == n;
        lemma_distance_zero(ids.last(), ids.last());
        assert(sorted[p].0 == 0);
        assert(sorted[0].0 <= sorted[p].0);
        let first = nearest[0];
        assert(distance(ids[first as int], ids.last()) == 0);
        lemma_distance_zero(ids[first as int], ids.last());
        assert(first == n);
        assert(order.last() == nearest[0]);
    }
}

/// How nodes are linked in a linear topology: in a chain that leaves none out. There is one link
/// fewer than there are nodes, and each leads from a node of the order to the next one, so that every
/// node but the last has a contact and every node but the first is one.
pub proof fn lemma_linear_links(
    plan: TopologyPlan,
    ids: Seq<NodeId>,
    seed_file: Option<Vec<u8>>,
)
    requires
        0 < ids.len() <= usize::MAX,
        plan.is_for(Topology::Linear, ids, seed_file),
    ensures
        plan matches TopologyPlan::Linear { order, links } && {
            &&& order@.len() == ids.len()
            &&& links@.len() == ids.len() - 1
            &&& forall|i: int|
                0 <= i < ids.len() - 1 ==> (#[trigger] links@[i]).0 == order@[i] && links@[i].1
                    == order@[i + 1]
            &&& forall|n: usize|
                n < ids.len() ==> #[trigger] order@.contains(n)
            &&& forall|i: int, j: int|
                0 <= i < j < order@.len() ==> #[trigger] order@[i] != #[trigger] order@[j]
            &&& forall|i: int, j: int|
                0 <= i < j < order@.len() ==> distance(
                    ids[#[trigger] order@[i] as int],
                    ids[ids.len() - 1],
                ) >= distance(ids[#[trigger] order@[j] as int], ids[ids.len() - 1])
        },
{
    broadcast use vstd::seq_lib::group_to_multiset_ensures;

    lemma_linear_order(ids);
    let order = farthest_first(ids);
    let items = from_last(ids);
    lemma_ranked(items);
    lemma_ranked_payloads(items);
    let nearest = payloads(ranked(items));
    assert forall|n: usize| n < ids.len() implies #[trigger] order.contains(n) by {
        assert(payloads(items)[n as int] == n);
        assert(payloads(items).contains(n));
        assert(nearest.to_multiset().count(n) > 0);
        assert(nearest.contains(n));
        let p = choose|p: int| 0 <= p < nearest.len() && nearest[p] == n;
        assert(order[nearest.len() - 1 - p] == n);
    }
}

/// How nodes are linked in a uniform topology: from the first node to the last, each is proposed
/// contacts until it has accepted 150 of them. The contact is the node whose index the generator
/// draws from all but the last, and each draw is taken from the generator that the one before left.
pub proof fn lemma_uniform_turns(links: UniformLinks, seed: u64, count: usize)
    requires
        links.wf(),
    ensures
        UniformLinks::first(seed, count).rng == rng_from_seed(seed),
        UniformLinks::first(seed, count).count == count,
        UniformLinks::first(seed, count).node == 0,
        UniformLinks::first(seed, count).left == 150,
        links.proposal() is None <==> links.node == links.count,
        links.proposal() matches Some((node, contact)) ==> {
            let draw = drawn(links.rng, (links.count - 1) as usize, usize::BITS);
            &&& node == links.node
            &&& contact == draw.0
            &&& links.proposed().rng == draw.1
        },
        links.proposal() is None ==> links.proposed() == links,
        links.proposed().count == links.count,
        links.proposed().node == links.node,
        links.proposed().left == links.left,
        links.recorded(false) == links,
        links.node < links.count ==> {
            let after = links.recorded(true);
            &&& after.rng == links.rng
            &&& after.count == links.count
            &&& after.node * 150 + (150 - after.left) == links.node * 150 + (150 - links.left) + 1
            &&& after.node <= after.count
            &&& 0 < after.left <= 150
        },
{
}

/// A uniform topology starts from the seed in its file, if there is one, with the first of all nodes
/// and 150 contacts to be given to it.
pub proof fn lemma_uniform_plan(
    plan: TopologyPlan,
    ids: Seq<NodeId>,
    seed_file: Option<Vec<u8>>,
)
    requires
        ids.len() <= usize::MAX,
        plan.is_for(Topology::Uniform, ids, seed_file),
    ensures
        plan matches TopologyPlan::Uniform { seed, proposals } && {
            &&& seed_file matches Some(bytes) ==> seed == be_value(bytes@.take(8))
            &&& proposals.rng == rng_from_seed(seed)
            &&& proposals.count == ids.len()
            &&& proposals.node == 0
            &&& proposals.left == 150
        },
{
}

} // verus!
