use model_das::ids::NodeId;
use model_das::report::{Holding, Tally};
use model_das::trace::{by_log_distance, nodes_by_node, Records};

fn id(last: u8) -> NodeId {
    let mut id = [0u8; 32];
    id[31] = last;
    id
}

fn tally() -> Tally {
    Tally::new(&vec![
        Holding { node: id(1), keys: vec![id(10), id(11)] },
        Holding { node: id(2), keys: vec![] },
        Holding { node: id(3), keys: vec![id(11), id(12), id(13)] },
    ])
}

#[test]
fn samples_are_tallied() {
    let tally = tally();
    assert_eq!(tally.keys_per_node.len(), 2);
    assert_eq!(tally.keys_per_node.get(&id(1)), Some(&2));
    assert_eq!(tally.keys_per_node.get(&id(2)), None);
    assert_eq!(tally.keys_per_node.get(&id(3)), Some(&3));
    assert_eq!(tally.nodes_per_key.get(&id(10)), Some(&vec![id(1)]));
    assert_eq!(tally.nodes_per_key.get(&id(11)), Some(&vec![id(1), id(3)]));
    assert_eq!(tally.nodes_per_key.get(&id(14)), None);
}

#[test]
fn overhead_by_node_and_by_key() {
    let tally = tally();
    assert_eq!(tally.keys_stored_total(), 5);
    let places: usize = (10..14u8)
        .map(|k| tally.nodes_per_key.get(&id(k)).unwrap().len())
        .sum();
    assert_eq!(places, 5);
    assert_eq!(tally.unique_keys_stored(), 4);
}

#[test]
fn both_sides_of_a_tally_agree() {
    let tally = tally();
    for node in 1..4u8 {
        let listed = (10..14u8)
            .filter(|k| tally.nodes_per_key.get(&id(*k)).unwrap().contains(&id(node)))
            .count();
        assert_eq!(listed, tally.keys_per_node.get(&id(node)).cloned().unwrap_or(0));
    }
}

#[test]
fn lists_are_proper() {
    let tally = tally();
    for i in 0..tally.nodes_per_key.len() {
        let (_, holders) = tally.nodes_per_key.entry(i);
        assert!(!holders.is_empty());
        for (j, holder) in holders.iter().enumerate() {
            assert!(!holders[..j].contains(holder));
        }
    }
}

#[test]
fn missing_samples_are_listed() {
    let keys = vec![id(14), id(10), id(13), id(15), id(14)];
    assert_eq!(tally().missing_keys(&keys), vec![id(14), id(15), id(14)]);
    assert!(tally().missing_keys(&vec![id(11)]).is_empty());
}

#[test]
fn records_are_turned_round() {
    let map = nodes_by_node(&vec![
        Records { node: id(1), known: vec![id(2), id(3)] },
        Records { node: id(2), known: vec![id(3)] },
        Records { node: id(3), known: vec![id(3), id(9)] },
    ]);
    assert_eq!(map.len(), 3);
    assert_eq!(map.get(&id(1)), Some(&vec![]));
    assert_eq!(map.get(&id(2)), Some(&vec![id(1)]));
    assert_eq!(map.get(&id(3)), Some(&vec![id(1), id(2), id(3)]));
    assert_eq!(map.get(&id(9)), None);
}

#[test]
fn nodes_are_listed_by_log_distance() {
    let nodes = vec![id(200), id(6), id(5), id(8), id(7)];
    assert_eq!(
        by_log_distance(&nodes, &id(4)),
        vec![(id(5), 1), (id(6), 2), (id(7), 2), (id(8), 4), (id(200), 8)]
    );
}
