//! The secret keys of nodes, and the identifiers that come of them.

use vstd::prelude::*;
use crate::ids::{be_value, NodeId};

verus! {

/// The order of the curve secp256k1.
pub open spec fn curve_order() -> nat {
    0xfffffffffffffffffffffffffffffffebaaedce6af48a03bbfd25e8cd0364141nat
}

/// Whether bytes are a secret key of secp256k1: a number that is neither zero nor as great as the
/// order of the curve, in 32 big-endian bytes.
pub open spec fn is_secret_key(bytes: Seq<u8>) -> bool {
    bytes.len() == 32 && 0 < be_value(bytes) < curve_order()
}

/// The identifier of the node with a secret key, as `enr` derives it from the public key; nothing
/// for bytes that are no such key.
pub uninterp spec fn node_id_of_key(bytes: Seq<u8>) -> Option<NodeId>;

/// The identifier of the node with a secret key, from `enr::CombinedKey::secp256k1_from_bytes`,
/// `enr::CombinedKey::public` and `enr::NodeId::from`: the bytes decide it, and there is one exactly
/// for the secret keys of secp256k1. A record that is built with the key has this identifier.
#[verifier::external_body]
fn key_node_id(bytes: &Vec<u8>) -> (id: Option<NodeId>)
    ensures
        id == node_id_of_key(bytes@),
        id is Some == is_secret_key(bytes@),
{
    match discv5::enr::CombinedKey::secp256k1_from_bytes(&mut bytes.clone()) {
        Ok(key) => {
            let public = discv5::enr::EnrKey::public(&key);
            Some(discv5::enr::NodeId::from(public).raw())
        },
        Err(_) => None,
    }
}

/// A new secret key, from `enr::CombinedKey::generate_secp256k1` and `enr::CombinedKey::encode`.
/// Which one is left to chance.
#[verifier::external_body]
fn random_key() -> (bytes: Vec<u8>)
    ensures
        is_secret_key(bytes@),
{
    discv5::enr::CombinedKey::generate_secp256k1().encode()
}

/// Makes secret keys for the nodes of a new snapshot.
pub fn new_keys(count: usize) -> (keys: Vec<Vec<u8>>)
    ensures
        keys@.len() == count,
        forall|i: int| 0 <= i < keys@.len() ==> is_secret_key(#[trigger] keys@[i]@),
{
    let mut keys: Vec<Vec<u8>> = Vec::new();
    let mut i: usize = 0;
    while i < count
        invariant
            i <= count,
            keys@.len() == i,
            forall|j: int| 0 <= j < keys@.len() ==> is_secret_key(#[trigger] keys@[j]@),
        decreases count - i,
    {
        keys.push(random_key());
        i = i + 1;
    }
    keys
}

/// Whether `ids` are the identifiers of the nodes with these secret keys, in the same order.
pub open spec fn are_server_ids(ids: Seq<NodeId>, keys: Seq<Vec<u8>>) -> bool {
    &&& ids.len() == keys.len()
    &&& forall|i: int|
        0 <= i < keys.len() ==> node_id_of_key((#[trigger] keys[i])@) == Some(ids[i])
}

/// The identifiers of the nodes with these secret keys. There are none if any of them is no secret
/// key, and then no node can be started.
pub fn server_ids(keys: &Vec<Vec<u8>>) -> (ids: Option<Vec<NodeId>>)
    ensures
        ids is None <==> exists|i: int| 0 <= i < keys@.len() && !is_secret_key(#[trigger] keys@[i]@),
        ids is None <==> exists|i: int|
            0 <= i < keys@.len() && node_id_of_key(#[trigger] keys@[i]@) is None,
        ids matches Some(list) ==> are_server_ids(list@, keys@),
{
    let mut ids: Vec<NodeId> = Vec::new();
    let mut i: usize = 0;
    while i < keys.len()
        invariant
            i <= keys@.len(),
            ids@.len() == i,
            forall|j: int| 0 <= j < i ==> is_secret_key(#[trigger] keys@[j]@),
            forall|j: int| 0 <= j < i ==> node_id_of_key(#[trigger] keys@[j]@) == Some(ids@[j]),
        decreases keys@.len() - i,
    {
        match key_node_id(&keys[i]) {
            Some(id) => ids.push(id),
            None => {
                assert(!is_secret_key(keys@[i as int]@));
                return None;
            },
        }
        i = i + 1;
    }
    Some(ids)
}

/// Equal keys give equal identifiers, in the same order.
pub proof fn lemma_equal_keys_give_equal_ids(
    first: Seq<NodeId>,
    second: Seq<NodeId>,
    first_keys: Seq<Vec<u8>>,
    second_keys: Seq<Vec<u8>>,
)
    requires
        are_server_ids(first, first_keys),
        are_server_ids(second, second_keys),
        first_keys.len() == second_keys.len(),
        forall|i: int| 0 <= i < first_keys.len() ==> (#[trigger] first_keys[i])@ == second_keys[i]@,
    ensures
        second == first,
{
    assert forall|i: int| 0 <= i < first.len() implies second[i] == #[trigger] first[i] by {
        assert(first_keys[i]@ == second_keys[i]@);
    }
    assert(second =~= first);
}

} // verus!
