use model_das::frame::{decode_frame, encode_frame};
use model_das::ids::NodeId;

fn keys(count: usize) -> Vec<NodeId> {
    (0..count)
        .map(|i| {
            let mut key = [9u8; 32];
            key[0] = (i / 256) as u8;
            key[1] = (i % 256) as u8;
            key
        })
        .collect()
}

#[test]
fn frame_layout() {
    let message = encode_frame(b"abcdefgh", &keys(2));
    assert_eq!(message.len(), 72);
    assert_eq!(&message[..8], b"abcdefgh");
    assert_eq!(&message[8..40], &keys(2)[0][..]);
    assert_eq!(&message[40..], &keys(2)[1][..]);
}

#[test]
fn frames_are_read_back() {
    for count in [0, 1, 2, 100, 255] {
        let (id, read) = decode_frame(&encode_frame(b"abcdefgh", &keys(count)));
        assert_eq!(&id, b"abcdefgh");
        assert_eq!(read, keys(count));
    }
}

#[test]
fn frames_have_room_for_255_keys() {
    let message = encode_frame(b"abcdefgh", &keys(300));
    assert_eq!(message.len(), 8168);
    let (id, read) = decode_frame(&message);
    assert_eq!(&id, b"abcdefgh");
    assert_eq!(read, keys(255));
}

#[test]
fn short_messages_are_padded() {
    assert_eq!(decode_frame(&vec![]), ([0; 8], vec![]));
    assert_eq!(decode_frame(&vec![1, 2]), ([1, 2, 0, 0, 0, 0, 0, 0], vec![]));
    let mut cut = encode_frame(b"abcdefgh", &keys(2));
    cut.pop();
    assert_eq!(decode_frame(&cut), (*b"abcdefgh", keys(1)));
}

#[test]
fn long_messages_are_cut() {
    let mut message = b"abcdefgh".to_vec();
    for key in keys(300) {
        message.extend(key);
    }
    let (_, read) = decode_frame(&message);
    assert_eq!(read, keys(255));
}
