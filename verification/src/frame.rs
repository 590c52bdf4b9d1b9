//! The message that carries keys from node to node under recursive routing.

use vstd::prelude::*;
use crate::ids::NodeId;

verus! {

/// The size of the buffer that a message is written to and read through, and so the number of
/// bytes of a message that count.
pub const BUFFER_SIZE: usize = 8192;

/// The size of a request identifier.
pub const ID_SIZE: usize = 8;

/// The size of a key.
pub const KEY_SIZE: usize = 32;

/// The number of keys that fit behind the identifier.
pub const MAX_KEYS: usize = 255;

/// The bytes of keys, one after the other.
pub open spec fn joined(keys: Seq<NodeId>) -> Seq<u8>
    decreases keys.len(),
{
    if keys.len() == 0 {
        Seq::empty()
    } else {
        joined(keys.drop_last()) + keys.last()@
    }
}

/// The keys of a request that its message has room for.
pub open spec fn fitting(keys: Seq<NodeId>) -> Seq<NodeId> {
    if keys.len() <= MAX_KEYS {
        keys
    } else {
        keys.take(MAX_KEYS as int)
    }
}

/// The message for a request: its identifier and the keys that there is room for.
pub open spec fn frame(id: Seq<u8>, keys: Seq<NodeId>) -> Seq<u8> {
    id + joined(fitting(keys))
}

/// The identifier that a message starts with; bytes that are missing are zero.
pub open spec fn frame_id(message: Seq<u8>) -> Seq<u8> {
    Seq::new(
        ID_SIZE as nat,
        |i: int|
            if i < message.len() {
                message[i]
            } else {
                0u8
            },
    )
}

/// The number of whole keys behind the identifier of a message.
pub open spec fn frame_key_count(message: Seq<u8>) -> int {
    let end = if message.len() < BUFFER_SIZE {
        message.len() as int
    } else {
        BUFFER_SIZE as int
    };
    if end < ID_SIZE {
        0
    } else {
        (end - ID_SIZE) / KEY_SIZE as int
    }
}

/// Whether `keys` are the whole keys behind the identifier of a message.
pub open spec fn are_frame_keys(keys: Seq<NodeId>, message: Seq<u8>) -> bool {
    &&& keys.len() == frame_key_count(message)
    &&& forall|k: int|
        0 <= k < keys.len() ==> (#[trigger] keys[k])@ == message.subrange(
            ID_SIZE + KEY_SIZE * k,
            ID_SIZE + KEY_SIZE * k + KEY_SIZE,
        )
}

/// The whole keys behind the identifier of a message.
pub open spec fn frame_keys(message: Seq<u8>) -> Seq<NodeId> {
    Seq::new(
        frame_key_count(message) as nat,
        |k: int|
            choose|key: NodeId|
                #[trigger]
                key@ == message.subrange(
                    ID_SIZE + KEY_SIZE * k,
                    ID_SIZE + KEY_SIZE * k + KEY_SIZE,
                ),
    )
}

proof fn lemma_frame_keys(keys: Seq<NodeId>, message: Seq<u8>)
    requires
        are_frame_keys(keys, message),
    ensures
        keys == frame_keys(message),
{
    assert forall|k: int| 0 <= k < keys.len() implies keys[k] == frame_keys(message)[k] by {
        let bytes = message.subrange(ID_SIZE + KEY_SIZE * k, ID_SIZE + KEY_SIZE * k + KEY_SIZE);
        assert(keys[k]@ == bytes);
        let key = choose|key: NodeId| #[trigger] key@ == bytes;
        assert(key@ == bytes);
        assert forall|i: int| 0 <= i < 32 implies key[i] == keys[k][i] by {
            assert(key@[i] == bytes[i]);
            assert(keys[k]@[i] == bytes[i]);
        }
        assert(key =~= keys[k]);
        assert(frame_keys(message)[k] == key);
    }
    assert(keys =~= frame_keys(message));
}

/// Writes the message for a request.
pub fn encode_frame(id: &[u8; 8], keys: &Vec<NodeId>) -> (message: Vec<u8>)
    ensures
        message@ == frame(id@, keys@),
{
    let mut message: Vec<u8> = Vec::new();
    let mut i: usize = 0;
    while i < ID_SIZE
        invariant
            i <= ID_SIZE,
            message@ =~= id@.take(i as int),
        decreases ID_SIZE - i,
    {
        message.push(id[i]);
        i = i + 1;
    }
    let count: usize = if keys.len() < MAX_KEYS {
        keys.len()
    } else {
        MAX_KEYS
    };
    let mut k: usize = 0;
    assert(message@ =~= id@ + joined(keys@.take(0)));
    while k < count
        invariant
            k <= count,
            count <= keys@.len(),
            message@ == id@ + joined(keys@.take(k as int)),
        decreases count - k,
    {
        let key: NodeId = keys[k];
        let ghost before = message@;
        let mut j: usize = 0;
        while j < KEY_SIZE
            invariant
                j <= KEY_SIZE,
                message@ =~= before + key@.take(j as int),
            decreases KEY_SIZE - j,
        {
            message.push(key[j]);
            j = j + 1;
        }
        assert(keys@.take(k + 1).drop_last() =~= keys@.take(k as int));
        assert(message@ =~= id@ + joined(keys@.take(k + 1)));
        k = k + 1;
    }
    assert(keys@.take(k as int) =~= fitting(keys@));
    message
}

/// Reads the identifier and the keys of a request from its message.
pub fn decode_frame(message: &Vec<u8>) -> (request: ([u8; 8], Vec<NodeId>))
    ensures
        request.0@ == frame_id(message@),
        are_frame_keys(request.1@, message@),
        request.1@ == frame_keys(message@),
{
    let mut id: [u8; 8] = [0; 8];
    let mut i: usize = 0;
    while i < ID_SIZE
        invariant
            i <= ID_SIZE,
            forall|j: int| 0 <= j < i ==> id@[j] == frame_id(message@)[j],
        decreases ID_SIZE - i,
    {
        id[i] = if i < message.len() {
            message[i]
        } else {
            0
        };
        i = i + 1;
    }
    assert(id@ =~= frame_id(message@));
    let end: usize = if message.len() < BUFFER_SIZE {
        message.len()
    } else {
        BUFFER_SIZE
    };
    let count: usize = if end < ID_SIZE {
        0
    } else {
        (end - ID_SIZE) / KEY_SIZE
    };
    let mut keys: Vec<NodeId> = Vec::new();
    while keys.len() < count
        invariant
            keys@.len() <= count,
            end <= message@.len(),
            end <= BUFFER_SIZE,
            count > 0 ==> ID_SIZE + KEY_SIZE * count <= end,
            forall|k: int|
                0 <= k < keys@.len() ==> (#[trigger] keys@[k])@ == message@.subrange(
                    ID_SIZE + KEY_SIZE * k,
                    ID_SIZE + KEY_SIZE * k + KEY_SIZE,
                ),
        decreases count - keys@.len(),
    {
        let start: usize = ID_SIZE + KEY_SIZE * keys.len();
        let mut key: NodeId = [0; 32];
        let mut j: usize = 0;
        while j < KEY_SIZE
            invariant
                j <= KEY_SIZE,
                start + KEY_SIZE <= message.len(),
                forall|p: int| 0 <= p < j ==> key@[p] == message@[start + p],
            decreases KEY_SIZE - j,
        {
            key[j] = message[start + j];
            j = j + 1;
        }
        assert(key@ =~= message@.subrange(start as int, start + KEY_SIZE));
        keys.push(key);
    }
    proof {
        lemma_frame_keys(keys@, message@);
    }
    (id, keys)
}

pub(crate) proof fn lemma_joined(keys: Seq<NodeId>)
    ensures
        joined(keys).len() == KEY_SIZE * keys.len(),
        forall|k: int|
            0 <= k < keys.len() ==> joined(keys).subrange(KEY_SIZE * k, KEY_SIZE * k + KEY_SIZE)
                == (#[trigger] keys[k])@,
    decreases keys.len(),
{
    if keys.len() > 0 {
        let front = keys.drop_last();
        lemma_joined(front);
        assert forall|k: int| 0 <= k < keys.len() implies joined(keys).subrange(
            KEY_SIZE * k,
            KEY_SIZE * k + KEY_SIZE,
        ) == (#[trigger] keys[k])@ by {
            if k < front.len() {
                assert(front[k] == keys[k]);
                assert(joined(keys).subrange(KEY_SIZE * k, KEY_SIZE * k + KEY_SIZE) =~= joined(
                    front,
                ).subrange(KEY_SIZE * k, KEY_SIZE * k + KEY_SIZE));
            } else {
                assert(joined(keys).subrange(KEY_SIZE * k, KEY_SIZE * k + KEY_SIZE) =~= keys[k]@);
            }
        }
    }
}

/// What is written is what is read: from the message for a request, its identifier and the keys
/// that the message had room for come back, and no others.
pub proof fn lemma_frame_round_trip(id: Seq<u8>, keys: Seq<NodeId>)
    requires
        id.len() == ID_SIZE,
    ensures
        frame_id(frame(id, keys)) == id,
        are_frame_keys(fitting(keys), frame(id, keys)),
        frame_keys(frame(id, keys)) == fitting(keys),
        keys.len() <= MAX_KEYS ==> fitting(keys) == keys,
{
    let sent = fitting(keys);
    let message = frame(id, keys);
    lemma_joined(sent);
    assert(frame_id(message) =~= id);
    assert(message.len() == ID_SIZE + KEY_SIZE * sent.len());
    assert(frame_key_count(message) == sent.len());
    assert forall|k: int| 0 <= k < sent.len() implies (#[trigger] sent[k])@ == message.subrange(
        ID_SIZE + KEY_SIZE * k,
        ID_SIZE + KEY_SIZE * k + KEY_SIZE,
    ) by {
        assert(message.subrange(ID_SIZE + KEY_SIZE * k, ID_SIZE + KEY_SIZE * k + KEY_SIZE)
            =~= joined(sent).subrange(KEY_SIZE * k, KEY_SIZE * k + KEY_SIZE));
    }
    lemma_frame_keys(sent, message);
}

/// How the message for a request is laid out: its identifier, then the 32 bytes of each key, one key
/// after the other in their order. Keys past the 255th are left out.
pub proof fn lemma_frame_layout(id: Seq<u8>, keys: Seq<NodeId>)
    ensures
        ({
            let message = frame(id, keys);
            let sent: int = if keys.len() < 255 {
                keys.len() as int
            } else {
                255
            };
            &&& message.len() == id.len() + 32 * sent
            &&& message.take(id.len() as int) == id
            &&& forall|k: int, j: int|
                0 <= k < sent && 0 <= j < 32 ==> message[id.len() + 32 * k + j]
                    == #[trigger] keys[k]@[j]
        }),
{
    let message = frame(id, keys);
    let sent = fitting(keys);
    lemma_joined(sent);
    assert(message.take(id.len() as int) =~= id);
    assert forall|k: int, j: int| 0 <= k < sent.len() && 0 <= j < 32 implies message[id.len() + 32
        * k + j] == #[trigger] keys[k]@[j] by {
        assert(sent[k] == keys[k]);
        assert(joined(sent).subrange(KEY_SIZE * k, KEY_SIZE * k + KEY_SIZE) == sent[k]@);
        assert(joined(sent).subrange(KEY_SIZE * k, KEY_SIZE * k + KEY_SIZE)[j] == sent[k]@[j]);
    }
}

/// What is read from any message: the identifier is its first eight bytes, or as many as there are
/// and zeros; the keys are the whole ones behind it, in their order, as far as 8192 bytes go.
pub proof fn lemma_frame_reading(keys: Seq<NodeId>, message: Seq<u8>)
    requires
        are_frame_keys(keys, message),
    ensures
        frame_id(message).len() == 8,
        forall|i: int|
            0 <= i < 8 ==> #[trigger] frame_id(message)[i] == (if i < message.len() {
                message[i]
            } else {
                0u8
            }),
        frame_keys(message) == keys,
        ({
            let end: int = if message.len() < 8192 {
                message.len() as int
            } else {
                8192
            };
            &&& end < 40 ==> keys.len() == 0
            &&& end >= 8 ==> 8 + 32 * keys.len() <= end < 8 + 32 * (keys.len() + 1)
            &&& forall|k: int, j: int|
                0 <= k < keys.len() && 0 <= j < 32 ==> #[trigger] keys[k]@[j] == message[8 + 32 * k
                    + j]
        }),
{
    lemma_frame_keys(keys, message);
    assert forall|k: int, j: int| 0 <= k < keys.len() && 0 <= j < 32 implies #[trigger] keys[k]@[j]
        == message[8 + 32 * k + j] by {
        let bytes = message.subrange(ID_SIZE + KEY_SIZE * k, ID_SIZE + KEY_SIZE * k + KEY_SIZE);
        assert(keys[k]@ == bytes);
        assert(bytes[j] == message[8 + 32 * k + j]);
    }
}

} // verus!
