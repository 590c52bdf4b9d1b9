use model_das::args::LookupMethod;
use model_das::ids::NodeId;
use model_das::node::DASNode;
use model_das::sampling::{
    choose_samples, choose_validators, counts_as_found, found_here, plan_search, sample_keys,
    take_samples, Lookups, Search,
};
use model_das::seeds::{big_endian_bytes, choose_seed, load_seed, seed_bytes};

#[test]
fn numbers_in_big_endian_bytes() {
    assert_eq!(big_endian_bytes(0x0102, 4), vec![0, 0, 1, 2]);
    assert_eq!(big_endian_bytes(0x010203, 2), vec![2, 3]);
    assert_eq!(big_endian_bytes(7, 0), Vec::<u8>::new());
    assert_eq!(seed_bytes(0x0102030405060708), vec![1, 2, 3, 4, 5, 6, 7, 8]);
    assert_eq!(seed_bytes(u64::MAX), u64::MAX.to_be_bytes().to_vec());
}

#[test]
fn a_seed_is_kept() {
    for seed in [0, 1, 0xdead_beef, u64::MAX] {
        let file = Some(seed_bytes(seed));
        assert_eq!(choose_seed(&file, 99), seed);
        assert_eq!(load_seed(&file), seed);
    }
    assert_eq!(choose_seed(&None, 99), 99);
    let longer = Some(vec![0, 0, 0, 0, 0, 0, 1, 2, 3]);
    assert_eq!(choose_seed(&longer, 99), 258);
}

#[test]
fn a_seed_stays_in_its_file() {
    let file = vec![1, 2, 3, 4, 5, 6, 7, 8, 9];
    assert_eq!(seed_bytes(choose_seed(&Some(file.clone()), 0)), file[..8]);
}

#[test]
fn a_missing_seed_is_drawn() {
    let drawn: Vec<u64> = (0..4).map(|_| load_seed(&None)).collect();
    assert!(drawn.iter().any(|seed| *seed != drawn[0]));
}

#[test]
fn sample_keys_are_digests() {
    let keys = sample_keys(3);
    assert_eq!(keys.len(), 3);
    let first: NodeId = [
        1, 27, 77, 3, 221, 140, 1, 241, 4, 145, 67, 207, 156, 76, 129, 126, 75, 22, 127, 29, 27,
        131, 229, 198, 240, 241, 13, 137, 186, 30, 123, 206,
    ];
    let third: NodeId = [
        133, 159, 17, 183, 85, 105, 164, 235, 4, 150, 197, 19, 143, 212, 44, 197, 42, 238, 140,
        245, 196, 231, 207, 175, 229, 140, 146, 178, 237, 19, 142, 4,
    ];
    assert_eq!(keys[0], first);
    assert_eq!(keys[2], third);
    assert!(sample_keys(0).is_empty());
}

#[test]
fn validators_are_picked_by_the_seed() {
    let picked = choose_validators(42, 500, 20);
    assert_eq!(picked.len(), 20);
    assert!(picked.iter().all(|i| *i < 500));
    let mut sorted = picked.clone();
    sorted.sort();
    sorted.dedup();
    assert_eq!(sorted.len(), 20);
    assert_eq!(picked, choose_validators(42, 500, 20));
    assert_ne!(picked, choose_validators(43, 500, 20));
    let mut all = choose_validators(7, 5, 5);
    all.sort();
    assert_eq!(all, vec![0, 1, 2, 3, 4]);
}

#[test]
fn samples_are_picked_for_a_validator() {
    let keys = sample_keys(40);
    let samples = choose_samples(&keys, 25);
    assert_eq!(samples.len(), 25);
    for (i, key) in &samples {
        assert_eq!(*key, keys[*i]);
    }
    let mut indices: Vec<usize> = samples.iter().map(|(i, _)| *i).collect();
    indices.sort();
    indices.dedup();
    assert_eq!(indices.len(), 25);
    assert_eq!(take_samples(&keys, &vec![3, 1]), vec![(3, keys[3]), (1, keys[1])]);
}

#[test]
fn lookups_run_to_the_end() {
    let keys = sample_keys(3);
    let mut lookups = Lookups::new(take_samples(&keys, &vec![0, 1, 2]), 30);
    assert_eq!(lookups.start(), Some((2, keys[2])));
    assert_eq!(lookups.finish(Some(true)), None);
    assert_eq!(lookups.start(), Some((1, keys[1])));
    assert_eq!(lookups.finish(Some(false)), None);
    assert_eq!(lookups.start(), Some((0, keys[0])));
    assert_eq!(lookups.finish(Some(true)), Some(2));
    assert_eq!(lookups.start(), None);
}

#[test]
fn the_own_store_comes_first() {
    let keys = sample_keys(2);
    let mut node = DASNode::new(vec![], vec![]);
    node.store(&vec![keys[0]]);
    let method = LookupMethod::Discv5FindValue;
    assert!(found_here(&node, &keys[0]));
    assert!(!found_here(&node, &keys[1]));
    let here = plan_search(&node, &keys[0], method);
    let network = plan_search(&node, &keys[1], method);
    assert_eq!(here, Search::Here);
    assert_eq!(network, Search::Network(method));
    assert!(counts_as_found(here, false));
    assert!(counts_as_found(network, true));
    assert!(!counts_as_found(network, false));
}

#[test]
fn lookups_are_bounded() {
    let keys = sample_keys(2);
    let mut lookups = Lookups::new(take_samples(&keys, &vec![0, 1]), 1);
    assert_eq!(lookups.start(), Some((1, keys[1])));
    assert_eq!(lookups.start(), None);
    assert_eq!(lookups.num_waiting, 1);
    let mut none = Lookups::new(vec![], 0);
    assert_eq!(none.start(), None);
    assert_eq!(none.finish(None), Some(0));
}
