//! Node identifiers, the XOR metric over them, and the k-bucket a contact falls into.

use vstd::prelude::*;
use vstd::arithmetic::power2::pow2;
use vstd::arithmetic::power2::{
    lemma2_to64, lemma_pow2_adds, lemma_pow2_pos, lemma_pow2_strictly_increases, lemma_pow2_unfold,
};

verus! {

/// A node identifier. Sample keys live in the same keyspace and have the same type.
pub type NodeId = [u8; 32];

/// The number of k-buckets in a routing table: one for each bit of an identifier.
pub const NUM_BUCKETS: usize = 256;

/// The number that `bytes` spell in big-endian order.
pub open spec fn be_value(bytes: Seq<u8>) -> nat
    decreases bytes.len(),
{
    if bytes.len() == 0 {
        0
    } else {
        be_value(bytes.drop_last()) * 256 + bytes.last() as nat
    }
}

/// The bytewise exclusive or of two identifiers.
pub open spec fn xor_bytes(a: Seq<u8>, b: Seq<u8>) -> Seq<u8> {
    Seq::new(a.len(), |i: int| a[i] ^ b[i])
}

/// The XOR distance: the exclusive or of the two identifiers, read as an integer.
pub open spec fn distance(a: NodeId, b: NodeId) -> nat {
    be_value(xor_bytes(a@, b@))
}

/// The largest exponent of two that is at most `n`.
pub open spec fn floor_log2(n: nat) -> nat
    decreases n,
{
    if n <= 1 {
        0
    } else {
        1 + floor_log2(n / 2)
    }
}

/// The index of the k-bucket of `a` that `b` belongs to, for two different identifiers.
pub open spec fn bucket_index(a: NodeId, b: NodeId) -> nat {
    floor_log2(distance(a, b))
}

/// Whether two identifiers are the same.
pub fn same_id(a: &NodeId, b: &NodeId) -> (same: bool)
    ensures
        same == (*a == *b),
{
    let mut i: usize = 0;
    while i < 32
        invariant
            i <= 32,
            forall|j: int| 0 <= j < i ==> a@[j] == b@[j],
        decreases 32 - i,
    {
        if a[i] != b[i] {
            return false;
        }
        i = i + 1;
    }
    assert(*a =~= *b);
    true
}

/// The XOR distance between two identifiers, as big-endian bytes.
pub fn xor_distance(a: &NodeId, b: &NodeId) -> (d: NodeId)
    ensures
        d@ == xor_bytes(a@, b@),
        be_value(d@) == distance(*a, *b),
{
    let mut d: [u8; 32] = [0; 32];
    let mut i: usize = 0;
    while i < 32
        invariant
            i <= 32,
            forall|j: int| 0 <= j < i ==> d@[j] == a@[j] ^ b@[j],
        decreases 32 - i,
    {
        d[i] = a[i] ^ b[i];
        i = i + 1;
    }
    assert(d@ =~= xor_bytes(a@, b@));
    d
}

/// The log-2 distance of two identifiers, from `discv5::Key::log2_distance`: nothing for equal
/// identifiers, otherwise one more than the exponent of the highest power of two in their XOR
/// distance. A `Key` made from a node identifier hashes to the identifier itself.
#[verifier::external_body]
pub(crate) fn log2_distance(a: &NodeId, b: &NodeId) -> (log: Option<u64>)
    ensures
        log == (if distance(*a, *b) == 0 {
            None::<u64>
        } else {
            Some((floor_log2(distance(*a, *b)) + 1) as u64)
        }),
{
    let here = discv5::Key::from(discv5::enr::NodeId::new(a));
    here.log2_distance(&discv5::Key::from(discv5::enr::NodeId::new(b)))
}

/// The index of the k-bucket of `a` that `b` belongs to.
pub fn bucket_of(a: &NodeId, b: &NodeId) -> (index: usize)
    requires
        *a != *b,
    ensures
        index == bucket_index(*a, *b),
        index < NUM_BUCKETS,
{
    proof {
        lemma_distance_zero(*a, *b);
        lemma_bucket_index_bound(*a, *b);
    }
    match log2_distance(a, b) {
        Some(log) => (log - 1) as usize,
        None => 0,
    }
}

/// Whether an identifier is on a list.
pub(crate) fn lists_id(ids: &Vec<NodeId>, id: &NodeId) -> (found: bool)
    ensures
        found == ids@.contains(*id),
{
    let mut i: usize = 0;
    while i < ids.len()
        invariant
            i <= ids@.len(),
            forall|j: int| 0 <= j < i ==> ids@[j] != *id,
        decreases ids@.len() - i,
    {
        if same_id(&ids[i], id) {
            return true;
        }
        i = i + 1;
    }
    false
}

/// Bytes spell a number that they are enough to hold.
pub proof fn lemma_be_value_bound(s: Seq<u8>)
    ensures
        be_value(s) < pow2(8 * s.len()),
    decreases s.len(),
{
    if s.len() == 0 {
        lemma2_to64();
    } else {
        lemma_be_value_bound(s.drop_last());
        lemma_pow2_adds(8, (8 * (s.len() - 1)) as nat);
        lemma2_to64();
        assert(8 * s.len() == 8 + 8 * (s.len() - 1));
    }
}

/// Byte strings of one length that spell the same number are the same.
pub proof fn lemma_be_value_injective(s: Seq<u8>, t: Seq<u8>)
    requires
        s.len() == t.len(),
        be_value(s) == be_value(t),
    ensures
        s == t,
    decreases s.len(),
{
    if s.len() == 0 {
        assert(s =~= t);
    } else {
        lemma_be_value_injective(s.drop_last(), t.drop_last());
        assert(s =~= s.drop_last().push(s.last()));
        assert(t =~= t.drop_last().push(t.last()));
    }
}

proof fn lemma_be_value_zero(s: Seq<u8>)
    requires
        forall|i: int| 0 <= i < s.len() ==> s[i] == 0,
    ensures
        be_value(s) == 0,
    decreases s.len(),
{
    if s.len() > 0 {
        lemma_be_value_zero(s.drop_last());
    }
}

/// Two identifiers are at distance zero exactly when they are the same.
pub proof fn lemma_distance_zero(a: NodeId, b: NodeId)
    ensures
        distance(a, b) == 0 <==> a == b,
{
    let x = xor_bytes(a@, b@);
    if a == b {
        assert forall|i: int| 0 <= i < x.len() implies x[i] == 0 by {
            let p = a@[i];
            assert(p ^ p == 0) by (bit_vector);
        }
        lemma_be_value_zero(x);
    }
    if distance(a, b) == 0 {
        let z = Seq::new(x.len(), |i: int| 0u8);
        lemma_be_value_zero(z);
        lemma_be_value_injective(x, z);
        assert forall|i: int| 0 <= i < 32 implies a[i] == b[i] by {
            let p = a@[i];
            let q = b@[i];
            assert(x[i] == z[i]);
            assert(p ^ q == 0 ==> p == q) by (bit_vector);
        }
        assert(a =~= b);
    }
}

/// The distance does not depend on the order of its arguments.
pub proof fn lemma_distance_symmetric(a: NodeId, b: NodeId)
    ensures
        distance(a, b) == distance(b, a),
{
    assert(xor_bytes(a@, b@) =~= xor_bytes(b@, a@)) by {
        assert forall|i: int| 0 <= i < 32 implies #[trigger] a@[i] ^ b@[i] == b@[i] ^ a@[i] by {
            let p = a@[i];
            let q = b@[i];
            assert(p ^ q == q ^ p) by (bit_vector);
        }
    }
}

/// No two identifiers are at the same distance from a third.
pub proof fn lemma_distance_unidirectional(a: NodeId, b: NodeId, key: NodeId)
    requires
        distance(a, key) == distance(b, key),
    ensures
        a == b,
{
    let x = xor_bytes(a@, key@);
    let y = xor_bytes(b@, key@);
    lemma_be_value_injective(x, y);
    assert forall|i: int| 0 <= i < 32 implies a[i] == b[i] by {
        let p = a@[i];
        let q = b@[i];
        let k = key@[i];
        assert(x[i] == y[i]);
        assert(p ^ k == q ^ k ==> p == q) by (bit_vector);
    }
    assert(a =~= b);
}

proof fn lemma_be_value_xor_sum(s: Seq<u8>, t: Seq<u8>)
    requires
        s.len() == t.len(),
    ensures
        be_value(xor_bytes(s, t)) <= be_value(s) + be_value(t),
    decreases s.len(),
{
    if s.len() > 0 {
        lemma_be_value_xor_sum(s.drop_last(), t.drop_last());
        assert(xor_bytes(s, t).drop_last() =~= xor_bytes(s.drop_last(), t.drop_last()));
        let p = s.last();
        let q = t.last();
        assert(p ^ q <= p + q) by (bit_vector);
    }
}

/// The triangle inequality of the XOR metric.
pub proof fn lemma_distance_triangle(a: NodeId, b: NodeId, c: NodeId)
    ensures
        distance(a, c) <= distance(a, b) + distance(b, c),
{
    let ab = xor_bytes(a@, b@);
    let bc = xor_bytes(b@, c@);
    lemma_be_value_xor_sum(ab, bc);
    assert(xor_bytes(a@, c@) =~= xor_bytes(ab, bc)) by {
        assert forall|i: int| 0 <= i < 32 implies #[trigger] xor_bytes(a@, c@)[i] == xor_bytes(
            ab,
            bc,
        )[i] by {
            let p = a@[i];
            let q = b@[i];
            let r = c@[i];
            assert(p ^ r == (p ^ q) ^ (q ^ r)) by (bit_vector);
        }
    }
}

/// `floor_log2` is the exponent of the binary interval that holds a positive number.
pub proof fn lemma_floor_log2(n: nat)
    requires
        n > 0,
    ensures
        pow2(floor_log2(n)) <= n < pow2(floor_log2(n) + 1),
    decreases n,
{
    lemma2_to64();
    if n > 1 {
        lemma_floor_log2(n / 2);
        lemma_pow2_unfold(floor_log2(n));
        lemma_pow2_unfold(floor_log2(n) + 1);
    }
}

/// The bucket index of two different identifiers is below the number of buckets.
pub proof fn lemma_bucket_index_bound(a: NodeId, b: NodeId)
    requires
        a != b,
    ensures
        bucket_index(a, b) < 256,
{
    lemma_distance_zero(a, b);
    let n = distance(a, b);
    lemma_floor_log2(n);
    lemma_be_value_bound(xor_bytes(a@, b@));
    if floor_log2(n) >= 256 {
        if floor_log2(n) > 256 {
            lemma_pow2_strictly_increases(256, floor_log2(n));
        }
    }
}

proof fn lemma_shared_top_bit(s: Seq<u8>, t: Seq<u8>, i: nat)
    requires
        s.len() == t.len(),
        pow2(i) <= be_value(s) < pow2(i + 1),
        pow2(i) <= be_value(t) < pow2(i + 1),
    ensures
        be_value(xor_bytes(s, t)) < pow2(i),
    decreases s.len(),
{
    lemma2_to64();
    if s.len() == 0 {
        lemma_pow2_pos(i);
    } else {
        let hs = s.drop_last();
        let ht = t.drop_last();
        assert(xor_bytes(s, t).drop_last() =~= xor_bytes(hs, ht));
        let p = s.last();
        let q = t.last();
        if i >= 8 {
            let j = (i - 8) as nat;
            lemma_pow2_adds(8, j);
            lemma_pow2_adds(8, j + 1);
            lemma_shared_top_bit(hs, ht, j);
        } else {
            if i < 7 {
                lemma_pow2_strictly_increases(i + 1, 8);
            }
            assert(be_value(hs) == 0 && be_value(ht) == 0);
            lemma_be_value_injective(hs, ht);
            let x = xor_bytes(hs, ht);
            assert forall|k: int| 0 <= k < x.len() implies x[k] == 0 by {
                let b = hs[k];
                assert(b ^ b == 0) by (bit_vector);
            }
            lemma_be_value_zero(x);
            assert(128 <= p && 128 <= q ==> p ^ q < 128) by (bit_vector);
            assert(64 <= p < 128 && 64 <= q < 128 ==> p ^ q < 64) by (bit_vector);
            assert(32 <= p < 64 && 32 <= q < 64 ==> p ^ q < 32) by (bit_vector);
            assert(16 <= p < 32 && 16 <= q < 32 ==> p ^ q < 16) by (bit_vector);
            assert(8 <= p < 16 && 8 <= q < 16 ==> p ^ q < 8) by (bit_vector);
            assert(4 <= p < 8 && 4 <= q < 8 ==> p ^ q < 4) by (bit_vector);
            assert(2 <= p < 4 && 2 <= q < 4 ==> p ^ q < 2) by (bit_vector);
            assert(p == 1 && q == 1 ==> p ^ q == 0) by (bit_vector);
        }
    }
}

/// Routing makes progress: a contact in the same k-bucket as a key is strictly closer to the key
/// than the node that owns the bucket.
pub proof fn lemma_same_bucket_is_closer(local: NodeId, contact: NodeId, key: NodeId)
    requires
        contact != local,
        key != local,
        bucket_index(local, contact) == bucket_index(local, key),
    ensures
        distance(contact, key) < distance(local, key),
{
    let i = bucket_index(local, key);
    lemma_distance_zero(local, contact);
    lemma_distance_zero(local, key);
    lemma_floor_log2(distance(local, contact));
    lemma_floor_log2(distance(local, key));
    let to_contact = xor_bytes(local@, contact@);
    let to_key = xor_bytes(local@, key@);
    lemma_shared_top_bit(to_contact, to_key, i);
    assert(xor_bytes(contact@, key@) =~= xor_bytes(to_contact, to_key)) by {
        assert forall|j: int| 0 <= j < 32 implies #[trigger] xor_bytes(contact@, key@)[j]
            == xor_bytes(to_contact, to_key)[j] by {
            let p = local@[j];
            let q = contact@[j];
            let r = key@[j];
            assert(q ^ r == (p ^ q) ^ (p ^ r)) by (bit_vector);
        }
    }
}

/// Bytes spell a number in big-endian order: those in front count for as many powers of two as there
/// are bits behind them, and a single byte is its own value.
pub proof fn lemma_be_value_concat(front: Seq<u8>, back: Seq<u8>, byte: u8)
    ensures
        be_value(front + back) == be_value(front) * pow2(8 * back.len()) + be_value(back),
        be_value(seq![byte]) == byte,
        be_value(Seq::<u8>::empty()) == 0,
    decreases back.len(),
{
    lemma2_to64();
    assert(seq![byte].drop_last() =~= Seq::<u8>::empty());
    assert(be_value(Seq::<u8>::empty()) == 0);
    if back.len() == 0 {
        assert(front + back =~= front);
        assert(pow2(8 * back.len()) == 1);
        assert(be_value(front) * 1 == be_value(front));
    } else {
        let rest = back.drop_last();
        lemma_be_value_concat(front, rest, byte);
        assert((front + back).drop_last() =~= front + rest);
        lemma_pow2_adds(8, 8 * rest.len());
        assert(8 * back.len() == 8 + 8 * rest.len());
        let high = be_value(front);
        let power = pow2(8 * rest.len());
        assert((high * power + be_value(rest)) * 256 == high * (256 * power) + be_value(rest) * 256)
            by (nonlinear_arith);
    }
}

/// The distance of two identifiers is the number that the exclusive or of their bytes spells.
pub proof fn lemma_distance_is_exact(a: NodeId, b: NodeId, d: NodeId)
    ensures
        (forall|i: int| 0 <= i < 32 ==> #[trigger] d@[i] == a@[i] ^ b@[i]) ==> distance(a, b)
            == be_value(d@),
        xor_bytes(a@, b@).len() == 32,
        forall|i: int| 0 <= i < 32 ==> #[trigger] xor_bytes(a@, b@)[i] == a@[i] ^ b@[i],
{
    if forall|i: int| 0 <= i < 32 ==> #[trigger] d@[i] == a@[i] ^ b@[i] {
        assert(d@ =~= xor_bytes(a@, b@));
    }
}

/// A contact belongs into the k-bucket whose index is the highest bit of its distance.
pub proof fn lemma_bucket_is_highest_bit(a: NodeId, b: NodeId)
    requires
        a != b,
    ensures
        pow2(bucket_index(a, b)) <= distance(a, b) < pow2(bucket_index(a, b) + 1),
{
    lemma_distance_zero(a, b);
    lemma_floor_log2(distance(a, b));
}

} // verus!
