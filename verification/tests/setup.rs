use model_das::args::{
    BatchingStrategy, DisseminationArgs, ForwardPolicy, LookupMethod, Options, ReplicatePolicy,
    RoutingStrategy, SampleArgs, SimulationCase, TalkWire, Topology,
};
use model_das::events::MsgCountCmd;
use model_das::ids::NodeId;
use model_das::report::{Holding, Tally};
use model_das::sampling::sample_keys;
use model_das::seeds::seed_bytes;
use model_das::simulation::{counter_command, play_simulation, Event, Step};
use model_das::startup::{
    construct_and_start, decimal_text, get_snapshot_file, libp2p_port, newest, path_in,
    snapshot_dir, CacheEntry,
};
use model_das::topology::{order_linearly, set_topology, TopologyPlan};

fn id(last: u8) -> NodeId {
    let mut id = [0u8; 32];
    id[31] = last;
    id
}

fn dissemination() -> DisseminationArgs {
    DisseminationArgs {
        number_of_samples: 3,
        routing_strategy: RoutingStrategy::Recursive,
        batching_strategy: BatchingStrategy::BucketWise,
        forward_mode: ForwardPolicy::ForwardOne,
        replicate_mode: ReplicatePolicy::ReplicateOne,
        redundancy: 0,
        parallelism: 5,
    }
}

fn sampling() -> SimulationCase {
    SimulationCase::Sample(SampleArgs {
        dissemination_args: dissemination(),
        validators_number: 2,
        samples_per_validator: 2,
        lookup_method: LookupMethod::OverlayFindContent,
    })
}

fn options(snapshot: &str) -> Options {
    Options {
        node_count: 12,
        ip_listen: "127.0.0.1".to_string(),
        port_udp: 9000,
        topology: Topology::Linear,
        wire_protocol: TalkWire::Discv5,
        request_timeout: 6,
        snapshot: snapshot.to_string(),
        cache_dir: "./data".to_string(),
        simulation_case: SimulationCase::Disseminate(dissemination()),
    }
}

fn entries(modified: &[i128]) -> Vec<CacheEntry> {
    modified
        .iter()
        .enumerate()
        .map(|(i, modified)| CacheEntry {
            path: format!("./data/{i}"),
            modified: *modified,
        })
        .collect()
}

#[test]
fn snapshot_directories() {
    let made = snapshot_dir(&options("new"), &vec![], 1667907969).unwrap();
    assert_eq!(made.path, "./data/2022-11-08-11:46:09");
    assert!(made.is_new);
    let earliest = snapshot_dir(&options("new"), &vec![], 0).unwrap();
    assert_eq!(earliest.path, "./data/1970-01-01-00:00:00");
    assert!(snapshot_dir(&options("new"), &vec![], i64::MAX).is_none());
    let last = snapshot_dir(&options("last"), &entries(&[5, 9, 7]), i64::MAX).unwrap();
    assert_eq!(last.path, "./data/1");
    assert!(!last.is_new);
    let named = snapshot_dir(&options("2022-11-08-11:46:09"), &vec![], 0).unwrap();
    assert_eq!(named.path, made.path);
    assert!(!named.is_new);
}

#[test]
fn snapshot_files() {
    let file = "topology_seed".to_string();
    let found = entries(&[9, 5, 9, 1]);
    for snapshot in ["new", "last"] {
        assert_eq!(
            get_snapshot_file(&options(snapshot), &found, &file),
            "./data/2/topology_seed"
        );
    }
    let path = get_snapshot_file(&options("2022-11-08-11:46:09"), &vec![], &file);
    assert_eq!(path, "./data/2022-11-08-11:46:09/topology_seed");
    assert_eq!(
        std::path::PathBuf::from(path),
        std::path::PathBuf::from("./data").join("2022-11-08-11:46:09").join("topology_seed")
    );
}

#[test]
fn a_snapshot_is_found_again() {
    for cache_dir in ["./data", "./data/"] {
        let mut opts = options("new");
        opts.cache_dir = cache_dir.to_string();
        let made = snapshot_dir(&opts, &vec![], 1667907969).unwrap();
        assert_eq!(made.path, "./data/2022-11-08-11:46:09");
        let mut found = entries(&[5, 7]);
        found.push(CacheEntry { path: made.path.clone(), modified: 9 });
        let file = "validators_seed".to_string();
        let kept = get_snapshot_file(&opts, &found, &file);
        opts.snapshot = "2022-11-08-11:46:09".to_string();
        let again = snapshot_dir(&opts, &vec![], 0).unwrap();
        assert_eq!(again.path, made.path);
        assert!(made.is_new && !again.is_new);
        assert_eq!(get_snapshot_file(&opts, &vec![], &file), kept);
    }
}

#[test]
fn paths_are_joined() {
    let pairs = [
        ("a", "b", "a/b"),
        ("", "b", "b"),
        ("", "", ""),
        ("a", "/b", "/b"),
        ("a/", "b", "a/b"),
        ("a//", "b", "a//b"),
        ("/", "b", "/b"),
        ("a", "", "a/"),
        ("a/", "", "a/"),
        ("./a", "b/c", "./a/b/c"),
    ];
    for (dir, part, joined) in pairs {
        let path = path_in(&dir.to_string(), &part.to_string());
        assert_eq!(path, joined);
        assert_eq!(Some(path.as_str()), std::path::PathBuf::from(dir).join(part).to_str());
    }
}

#[test]
fn numbers_in_decimal_digits() {
    for n in [0, 7, 9, 10, 19, 20, 105, 9999, 1234567890, usize::MAX] {
        assert_eq!(decimal_text(n), format!("{n}"));
    }
}

#[test]
fn the_newest_entry_is_found() {
    assert_eq!(newest(&entries(&[5])), 0);
    assert_eq!(newest(&entries(&[5, 9, 7])), 1);
    assert_eq!(newest(&entries(&[9, 5, 9, 1])), 2);
    assert_eq!(newest(&entries(&[-9, -5, -7])), 1);
}

#[test]
fn servers_are_planned() {
    let plans = construct_and_start(&options("new"));
    assert_eq!(plans.len(), 12);
    assert!(plans.iter().all(|plan| plan.ip == "127.0.0.1"));
    assert_eq!(plans[0].port, 9000);
    assert_eq!(plans[11].port, 9011);
    assert_eq!(plans[0].key_file, "0.pem");
    assert_eq!(plans[11].key_file, "11.pem");
    assert!(plans.iter().all(|plan| plan.generate_key));
    assert!(plans.iter().all(|plan| plan.request_retries == 10));
    assert!(plans.iter().all(|plan| plan.request_timeout_secs == 6));
    assert!(plans.iter().all(|plan| plan.query_timeout_secs == 60));
    assert!(plans.iter().all(|plan| plan.max_nodes_per_ip.is_none()));
    let again = construct_and_start(&options("last"));
    assert!(again.iter().all(|plan| !plan.generate_key));
    for i in 0..12 {
        for j in 0..i {
            assert_ne!(plans[i].port, plans[j].port);
            assert_ne!(plans[i].key_file, plans[j].key_file);
        }
    }
}

#[test]
fn libp2p_ports() {
    assert_eq!(libp2p_port(0), 4000);
    assert_eq!(libp2p_port(61535), 65535);
}

#[test]
fn linear_topology() {
    let ids = vec![id(9), id(1), id(200), id(12), id(8)];
    assert_eq!(order_linearly(&ids), vec![2, 1, 3, 0, 4]);
    match set_topology(Topology::Linear, &ids, &None) {
        TopologyPlan::Linear { order, links } => {
            assert_eq!(order, vec![2, 1, 3, 0, 4]);
            assert_eq!(links, vec![(2, 1), (1, 3), (3, 0), (0, 4)]);
        }
        TopologyPlan::Uniform { .. } => panic!("uniform"),
    }
    match set_topology(Topology::Linear, &vec![id(1)], &None) {
        TopologyPlan::Linear { order, links } => {
            assert_eq!(order, vec![0]);
            assert!(links.is_empty());
        }
        TopologyPlan::Uniform { .. } => panic!("uniform"),
    }
}

fn proposals(seed: u64, count: usize) -> Vec<(usize, usize)> {
    let ids: Vec<NodeId> = (0..count).map(|i| id(i as u8)).collect();
    let file = Some(seed_bytes(seed));
    let mut made = vec![];
    match set_topology(Topology::Uniform, &ids, &file) {
        TopologyPlan::Uniform { seed: used, mut proposals } => {
            assert_eq!(used, seed);
            while let Some((node, contact)) = proposals.propose() {
                let accepted = node != contact;
                if accepted {
                    made.push((node, contact));
                }
                proposals.record(accepted);
            }
        }
        TopologyPlan::Linear { .. } => panic!("linear"),
    }
    made
}

#[test]
fn uniform_topology() {
    let made = proposals(42, 5);
    assert_eq!(made.len(), 5 * 150);
    for node in 0..5 {
        assert_eq!(made.iter().filter(|(n, _)| *n == node).count(), 150);
    }
    for contact in 0..4 {
        assert!(made.iter().any(|(_, c)| *c == contact));
    }
    assert!(made.iter().all(|(_, c)| *c < 4));
    assert_eq!(made, proposals(42, 5));
    assert_ne!(made, proposals(43, 5));
}

#[test]
fn a_dissemination_is_played() {
    let case = SimulationCase::Disseminate(dissemination());
    let keys = match play_simulation(&case, 4, &vec![], Event::Started) {
        Step::Disseminate(keys) => keys,
        other => panic!("{other:?}"),
    };
    assert_eq!(keys, sample_keys(3));
    let tally = Tally::new(&vec![
        Holding { node: id(1), keys: keys.clone() },
        Holding { node: id(2), keys: vec![keys[1]] },
    ]);
    match play_simulation(&case, 4, &keys, Event::Disseminated(tally)) {
        Step::Report(overview) => {
            assert_eq!(overview.keys_stored_total, 4);
            assert_eq!(overview.unique_keys_stored, 3);
            assert!(overview.is_complete);
            assert!(overview.missing.is_empty());
        }
        other => panic!("{other:?}"),
    }
    let counted = Event::Counted { is_complete: true };
    assert!(matches!(play_simulation(&case, 4, &keys, counted), Step::Finished));
}

#[test]
fn missing_samples_are_reported() {
    let case = SimulationCase::Disseminate(dissemination());
    let keys = sample_keys(3);
    let tally = Tally::new(&vec![Holding {
        node: id(1),
        keys: vec![keys[0], keys[2]],
    }]);
    match play_simulation(&case, 4, &keys, Event::Disseminated(tally)) {
        Step::Abandon(overview) => {
            assert_eq!(overview.missing, vec![keys[1]]);
            assert_eq!(overview.keys_stored_total, 2);
            assert!(!overview.is_complete);
        }
        other => panic!("{other:?}"),
    }
    let nothing = Tally::new(&vec![]);
    let step = play_simulation(&sampling(), 4, &keys, Event::Disseminated(nothing));
    assert!(matches!(step, Step::Abandon(_)));
    assert_eq!(counter_command(&step), None);
}

/// Plays a simulation in which no sample is lost, and lists the commands to the counter.
fn commands(case: &SimulationCase) -> Vec<MsgCountCmd> {
    let mut keys = vec![];
    let mut event = Event::Started;
    let mut sent = vec![];
    loop {
        let step = play_simulation(case, 4, &keys, event);
        sent.extend(counter_command(&step));
        event = match step {
            Step::Disseminate(made) => {
                keys = made;
                Event::Disseminated(Tally::new(&vec![Holding { node: id(1), keys: keys.clone() }]))
            }
            Step::Report(overview) => Event::Counted { is_complete: overview.is_complete },
            Step::Reset => {
                assert_eq!(sent, vec![MsgCountCmd::Get, MsgCountCmd::Reset]);
                Event::SeedFile(None)
            }
            Step::Sample { validators, .. } => Event::Sampled(vec![2; validators.len()]),
            Step::Outcomes(_) => Event::CountedAgain,
            Step::Finished => return sent,
            other => panic!("{other:?}"),
        };
    }
}

#[test]
fn messages_of_both_parts_are_counted_apart() {
    assert_eq!(commands(&SimulationCase::Disseminate(dissemination())), vec![MsgCountCmd::Get]);
    assert_eq!(
        commands(&sampling()),
        vec![MsgCountCmd::Get, MsgCountCmd::Reset, MsgCountCmd::Get]
    );
}

#[test]
fn no_validators_need_no_samples() {
    let case = SimulationCase::Sample(SampleArgs {
        dissemination_args: dissemination(),
        validators_number: 0,
        samples_per_validator: 99,
        lookup_method: LookupMethod::Discv5FindValue,
    });
    match play_simulation(&case, 4, &sample_keys(3), Event::SeedFile(None)) {
        Step::Sample { validators, .. } => assert!(validators.is_empty()),
        other => panic!("{other:?}"),
    }
}

#[test]
fn a_sampling_is_played() {
    let case = sampling();
    assert_eq!(case.dissemination_args(), dissemination());
    let keys = sample_keys(3);
    let counted = Event::Counted { is_complete: true };
    assert!(matches!(play_simulation(&case, 4, &keys, counted), Step::Reset));
    let nodes = |file| match play_simulation(&case, 4, &keys, Event::SeedFile(file)) {
        Step::Sample { seed, validators, parallelism, method } => {
            assert_eq!(parallelism, 5);
            assert_eq!(method, LookupMethod::OverlayFindContent);
            for validator in &validators {
                assert_eq!(validator.samples.len(), 2);
                assert_ne!(validator.samples[0], validator.samples[1]);
                for (i, key) in &validator.samples {
                    assert_eq!(*key, keys[*i]);
                }
            }
            let nodes: Vec<usize> = validators.iter().map(|v| v.node).collect();
            (seed, nodes)
        }
        other => panic!("{other:?}"),
    };
    let (seed, first) = nodes(None);
    let (again, second) = nodes(Some(seed_bytes(seed)));
    assert_eq!(seed, again);
    assert_eq!(first, second);
    assert_eq!(first.len(), 2);
    match play_simulation(&case, 4, &keys, Event::Sampled(vec![2, 1])) {
        Step::Outcomes(outcomes) => {
            assert_eq!(outcomes.len(), 2);
            assert_eq!(
                (outcomes[1].validator, outcomes[1].found, outcomes[1].of),
                (1, 1, 2)
            );
        }
        other => panic!("{other:?}"),
    }
    assert!(matches!(
        play_simulation(&case, 4, &keys, Event::CountedAgain),
        Step::Finished
    ));
}
