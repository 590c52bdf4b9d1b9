use model_das::ids::{bucket_of, same_id, xor_distance, NodeId};

fn id(last: u8) -> NodeId {
    let mut id = [0u8; 32];
    id[31] = last;
    id
}

#[test]
fn distance_of_identical_ids_is_zero() {
    let a = [7u8; 32];
    assert!(same_id(&a, &a));
    assert_eq!(xor_distance(&a, &a), [0u8; 32]);
    assert!(!same_id(&a, &id(7)));
}

#[test]
fn distance_is_the_exclusive_or() {
    assert_eq!(xor_distance(&id(0b1100), &id(0b1010)), id(0b0110));
    assert_eq!(xor_distance(&id(0b1010), &id(0b1100)), id(0b0110));
}

#[test]
fn distance_meets_the_triangle_inequality() {
    for a in 0..16u8 {
        for b in 0..16u8 {
            for c in 0..16u8 {
                let ab = xor_distance(&id(a), &id(b))[31] as u32;
                let bc = xor_distance(&id(b), &id(c))[31] as u32;
                let ac = xor_distance(&id(a), &id(c))[31] as u32;
                assert!(ac <= ab + bc);
            }
        }
    }
}

#[test]
fn one_point_lies_at_each_distance() {
    let mut seen = vec![];
    for b in 0..=255u8 {
        seen.push(xor_distance(&id(77), &id(b))[31]);
    }
    seen.sort();
    assert_eq!(seen, (0..=255u8).collect::<Vec<_>>());
}

#[test]
fn bucket_of_extreme_bits() {
    let zero = [0u8; 32];
    let mut top = [0u8; 32];
    top[0] = 0x80;
    let mut low = [0u8; 32];
    low[31] = 1;
    assert_eq!(bucket_of(&zero, &top), 255);
    assert_eq!(bucket_of(&zero, &low), 0);
    assert_eq!(bucket_of(&id(128), &id(131)), 1);
    assert_eq!(bucket_of(&id(131), &id(128)), 1);
}

#[test]
fn contacts_in_the_bucket_of_a_key_are_closer() {
    for local in 0..32u8 {
        for contact in 0..32u8 {
            for key in 0..32u8 {
                if contact == local || key == local {
                    continue;
                }
                if bucket_of(&id(local), &id(contact)) == bucket_of(&id(local), &id(key)) {
                    assert!(
                        xor_distance(&id(contact), &id(key)) < xor_distance(&id(local), &id(key))
                    );
                }
            }
        }
    }
}
