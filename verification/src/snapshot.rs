//! What a snapshot keeps of a network.

use vstd::prelude::*;
use crate::args::Options;
use crate::ids::NodeId;
use crate::keys::{are_server_ids, lemma_equal_keys_give_equal_ids};
use crate::seeds::big_endian;
use crate::startup::{
    in_dir, is_newest_path, is_snapshot_file, lemma_snapshot_file_is_found_again,
    lemma_snapshot_is_found_again, timecode_pattern, utc_text, CacheEntry, ServerPlan, Snapshot,
};
use crate::topology::{lemma_snapshot_repeats_topology, TopologyPlan};

verus! {

/// How the network of a run is set up.
pub ghost struct Setup {
    pub opts: Options,
    /// When the snapshot was sought.
    pub now: i64,
    /// The snapshots that there were then.
    pub entries: Seq<CacheEntry>,
    pub snapshot: Snapshot,
    pub plans: Seq<ServerPlan>,
    /// What the key files hold.
    pub keys: Seq<Vec<u8>>,
    pub ids: Seq<NodeId>,
    /// The snapshots that there were when the file of the topology's seed was sought.
    pub entries_later: Seq<CacheEntry>,
    /// Where that file is.
    pub seed_path: Seq<char>,
    /// What it held, if it was there.
    pub seed_file: Option<Vec<u8>>,
    pub links: TopologyPlan,
}

impl Setup {
    /// Whether each part of the setup is as the functions that plan it have it.
    pub open spec fn is_planned(&self) -> bool {
        &&& self.snapshot.is_for(self.opts, self.entries, self.now)
        &&& self.plans.len() == self.opts.node_count
        &&& forall|i: int|
            0 <= i < self.plans.len() ==> (#[trigger] self.plans[i]).is_for(self.opts, i)
        &&& self.keys.len() == self.plans.len()
        &&& are_server_ids(self.ids, self.keys)
        &&& is_snapshot_file(
            self.seed_path,
            self.opts,
            self.entries_later,
            "topology_seed"@,
        )
        &&& self.links.is_for(self.opts.topology, self.ids, self.seed_file)
    }

    /// The path of the key file of a node.
    pub open spec fn key_path(&self, index: int) -> Seq<char> {
        in_dir(self.snapshot.path@, self.plans[index].key_file@)
    }

    /// Whether a later setup finds in the files of this one what was written to them: the keys, and
    /// the seed of the topology if it has one.
    pub open spec fn is_read_by(&self, later: Setup) -> bool {
        &&& forall|i: int|
            0 <= i < self.keys.len() && 0 <= i < later.keys.len() && later.key_path(i)
                == self.key_path(i) ==> (#[trigger] later.keys[i])@ == self.keys[i]@
        &&& self.links matches TopologyPlan::Uniform { seed, .. } ==> (later.seed_path
            == self.seed_path ==> later.seed_file is Some && later.seed_file->0@ == big_endian(
            seed as nat,
            8,
        ))
    }
}

/// Whether two options set up networks of the same shape in the same place.
pub open spec fn same_network(first: Options, second: Options) -> bool {
    &&& first.cache_dir@ == second.cache_dir@
    &&& first.ip_listen@ == second.ip_listen@
    &&& first.port_udp == second.port_udp
    &&& first.node_count == second.node_count
    &&& first.topology == second.topology
}

/// A snapshot keeps the network: a run with the name of a snapshot that an earlier run made has
/// nodes with the same identifiers in the same order, on the same addresses and ports, and links
/// them in the same way. It makes no directory and no key.
pub proof fn lemma_snapshot_repeats_network(first: Setup, second: Setup)
    requires
        first.is_planned(),
        second.is_planned(),
        first.opts.snapshot@ == "new"@,
        utc_text(first.now, timecode_pattern()) == Some(second.opts.snapshot@),
        same_network(first.opts, second.opts),
        is_newest_path(first.snapshot.path@, first.entries_later),
        first.is_read_by(second),
    ensures
        first.snapshot.is_new,
        !second.snapshot.is_new,
        second.snapshot.path@ == first.snapshot.path@,
        second.ids == first.ids,
        second.plans.len() == first.plans.len(),
        forall|i: int|
            0 <= i < second.plans.len() ==> {
                &&& !(#[trigger] second.plans[i]).generate_key
                &&& second.key_path(i) == first.key_path(i)
                &&& second.plans[i].ip@ == first.plans[i].ip@
                &&& second.plans[i].port == first.plans[i].port
            },
        second.seed_path == first.seed_path,
        match first.links {
            TopologyPlan::Linear { order, links } => second.links matches TopologyPlan::Linear {
                order: order_again,
                links: links_again,
            } && order_again@ == order@ && links_again@ == links@,
            TopologyPlan::Uniform { .. } => second.links == first.links,
        },
{
    reveal_strlit("new");
    reveal_strlit("last");
    assert forall|i: int| 0 <= i < second.plans.len() implies {
        &&& !(#[trigger] second.plans[i]).generate_key
        &&& second.key_path(i) == first.key_path(i)
        &&& second.plans[i].ip@ == first.plans[i].ip@
        &&& second.plans[i].port == first.plans[i].port
    } by {
        lemma_snapshot_is_found_again(
            first.snapshot,
            second.snapshot,
            first.opts,
            second.opts,
            first.entries,
            second.entries,
            first.now,
            second.now,
            first.plans[i],
            second.plans[i],
            i,
        );
    }
    assert forall|i: int| 0 <= i < first.keys.len() implies (#[trigger] first.keys[i])@
        == second.keys[i]@ by {
        assert(!second.plans[i].generate_key);
        assert(second.key_path(i) == first.key_path(i));
        assert(second.keys[i]@ == first.keys[i]@);
    }
    lemma_equal_keys_give_equal_ids(first.ids, second.ids, first.keys, second.keys);
    lemma_snapshot_file_is_found_again(
        first.snapshot,
        first.opts,
        second.opts,
        first.entries,
        first.entries_later,
        second.entries_later,
        first.now,
        "topology_seed"@,
        first.seed_path,
        second.seed_path,
    );
    lemma_snapshot_repeats_topology(
        first.links,
        second.links,
        first.opts.topology,
        first.ids,
        first.seed_file,
        second.seed_file,
    );
}

} // verus!
