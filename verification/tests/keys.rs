use discv5::enr::{CombinedKey, EnrBuilder};
use model_das::args::Topology;
use model_das::keys::{new_keys, server_ids};
use model_das::seeds::seed_bytes;
use model_das::topology::{set_topology, TopologyPlan};

const ORDER: &str = "fffffffffffffffffffffffffffffffebaaedce6af48a03bbfd25e8cd0364141";

fn record_id(key: &[u8]) -> [u8; 32] {
    let key = CombinedKey::secp256k1_from_bytes(&mut key.to_vec()).unwrap();
    EnrBuilder::new("v4").build(&key).unwrap().node_id().raw()
}

#[test]
fn a_key_has_the_identifier_of_its_record() {
    let key =
        hex::decode("b71c71a67e1177ad4e901695e1b4b9ee17ae16c6668d313eac2f96dbcda3f291").unwrap();
    let id = "a448f24c6d18e575453db13171562b71999873db5b286df957af199ec94617f7";
    let ids = server_ids(&vec![key.clone()]).unwrap();
    assert_eq!(hex::encode(ids[0]), id);
    assert_eq!(record_id(&key), ids[0]);
}

#[test]
fn bytes_that_are_no_key_have_no_identifier() {
    let order = hex::decode(ORDER).unwrap();
    let mut greatest = order.clone();
    greatest[31] -= 1;
    let mut least = vec![0; 32];
    least[31] = 1;
    assert_eq!(server_ids(&vec![least.clone(), greatest.clone()]).unwrap().len(), 2);
    for bytes in [vec![], vec![0; 32], vec![1; 31], vec![1; 33], order, vec![255; 32]] {
        assert!(server_ids(&vec![bytes.clone()]).is_none());
        assert!(server_ids(&vec![least.clone(), bytes, greatest.clone()]).is_none());
    }
    assert!(server_ids(&vec![]).unwrap().is_empty());
}

#[test]
fn new_keys_are_keys() {
    let keys = new_keys(4);
    let ids = server_ids(&keys).unwrap();
    assert_eq!(ids.len(), 4);
    for (key, id) in keys.iter().zip(&ids) {
        assert_eq!(record_id(key), *id);
    }
    assert_ne!(ids[0], ids[1]);
    assert!(new_keys(0).is_empty());
}

#[test]
fn equal_key_files_give_the_same_network() {
    let keys = new_keys(5);
    let first = server_ids(&keys).unwrap();
    let second = server_ids(&keys.clone()).unwrap();
    assert_eq!(first, second);
    let linear = |ids| match set_topology(Topology::Linear, ids, &None) {
        TopologyPlan::Linear { order, links } => (order, links),
        TopologyPlan::Uniform { .. } => panic!("uniform"),
    };
    assert_eq!(linear(&first), linear(&second));
    let uniform = |ids, file| match set_topology(Topology::Uniform, ids, &file) {
        TopologyPlan::Uniform { seed, mut proposals } => {
            let mut made = vec![];
            while let Some(link) = proposals.propose() {
                proposals.record(true);
                made.push(link);
            }
            (seed, made)
        }
        TopologyPlan::Linear { .. } => panic!("linear"),
    };
    let (seed, made) = uniform(&first, None);
    assert_eq!(uniform(&second, Some(seed_bytes(seed))), (seed, made));
}
