use message_protocol::{CodecError, MessageItem, MessagePayload, MessageVec, MsgType};

fn item(n: u128, t: MsgType, v: Vec<u8>) -> MessageItem {
    MessageItem { n, t, v }
}

fn varr(n: u128, t: MsgType, v: Vec<Vec<u8>>) -> MessageVec {
    MessageVec { n, t, v }
}

#[test]
fn empty_container_encodes_to_two_zero_bytes() {
    let c = MessagePayload::new();
    assert_eq!(c.encode(), vec![0u8, 0u8]);
}

#[test]
fn empty_container_decodes_from_two_zero_bytes() {
    let c = MessagePayload::decode(&[0u8, 0u8]).unwrap();
    assert!(c.items.is_none());
    assert!(c.vecs.is_none());
    assert_eq!(c, MessagePayload::new());
}

#[test]
fn add_item_initializes_then_appends() {
    let mut c = MessagePayload::new();
    assert!(c.items.is_none());
    assert!(c.add_item(item(5, MsgType::InkU8, vec![9])));
    assert_eq!(c.items.as_ref().unwrap().len(), 1);
    assert!(c.add_item(item(6, MsgType::InkU8, vec![10])));
    assert_eq!(c.items.as_ref().unwrap().len(), 2);
}

#[test]
fn duplicate_item_is_rejected_and_container_unchanged() {
    let mut c = MessagePayload::new();
    assert!(c.add_item(item(5, MsgType::InkU32, vec![1, 2, 3, 4])));
    assert!(!c.add_item(item(5, MsgType::InkString, vec![7])));
    assert_eq!(c.items.as_ref().unwrap().len(), 1);
    assert_eq!(c.get_item(5).unwrap().v, vec![1, 2, 3, 4]);
}

#[test]
fn duplicate_vec_is_rejected_and_container_unchanged() {
    let mut c = MessagePayload::new();
    assert!(c.add_vec(varr(5, MsgType::InkU8, vec![vec![1], vec![2]])));
    assert!(!c.add_vec(varr(5, MsgType::InkString, vec![])));
    assert_eq!(c.vecs.as_ref().unwrap().len(), 1);
    assert_eq!(c.get_vec(5).unwrap().v, vec![vec![1], vec![2]]);
}

#[test]
fn item_and_vec_namespaces_are_independent() {
    let mut c = MessagePayload::new();
    assert!(c.add_item(item(42, MsgType::InkU16, vec![1, 0])));
    assert!(c.add_vec(varr(42, MsgType::InkU16, vec![vec![2, 0]])));
    assert!(c.get_item(42).is_some());
    assert!(c.get_vec(42).is_some());
    assert_eq!(c.get_item(42).unwrap().v, vec![1, 0]);
    assert_eq!(c.get_vec(42).unwrap().v, vec![vec![2, 0]]);
}

#[test]
fn insertion_order_is_preserved() {
    let mut c = MessagePayload::new();
    assert!(c.add_item(item(1, MsgType::UserData, vec![8, 8])));
    assert!(c.add_item(item(2, MsgType::InkString, vec![])));
    assert!(c.add_item(item(3, MsgType::InkI64, vec![45])));
    let ids: Vec<u128> = c.items.as_ref().unwrap().iter().map(|it| it.n).collect();
    assert_eq!(ids, vec![1, 2, 3]);
}

#[test]
fn get_item_returns_first_match_or_none() {
    let mut c = MessagePayload::new();
    assert!(c.get_item(1).is_none());
    assert!(c.add_item(item(1, MsgType::InkU32, vec![0, 0, 0, 7])));
    let got = c.get_item(1).unwrap();
    assert_eq!(got.n, 1);
    assert_eq!(got.v, vec![0, 0, 0, 7]);
    assert!(c.get_item(2).is_none());
}

#[test]
fn example_scenario_duplicate_keeps_original() {
    let mut c = MessagePayload::new();
    assert!(c.add_item(item(1, MsgType::InkU32, vec![0, 0, 0, 7])));
    let got = c.get_item(1).unwrap();
    assert_eq!(got.n, 1);
    assert_eq!(got.t, MsgType::InkU32);
    assert_eq!(got.v, vec![0, 0, 0, 7]);
    assert!(!c.add_item(item(1, MsgType::InkString, vec![])));
    assert_eq!(c.get_item(1).unwrap().v, vec![0, 0, 0, 7]);
}

#[test]
fn round_trip_full_container() {
    let mut c = MessagePayload::new();
    assert!(c.add_item(item(1, MsgType::InkU32, vec![0, 0, 0, 7])));
    assert!(c.add_item(item(2, MsgType::InkString, vec![4, 104, 105])));
    assert!(c.add_vec(varr(1, MsgType::InkU8, vec![vec![1], vec![2], vec![3]])));
    let bytes = c.encode();
    let d = MessagePayload::decode(&bytes).unwrap();
    assert_eq!(d, c);
    let items = d.items.as_ref().unwrap();
    assert_eq!(items.len(), 2);
    assert_eq!(items[0].n, 1);
    assert_eq!(items[0].t, MsgType::InkU32);
    assert_eq!(items[0].v, vec![0, 0, 0, 7]);
    assert_eq!(items[1].n, 2);
    assert_eq!(items[1].t, MsgType::InkString);
    assert_eq!(items[1].v, vec![4, 104, 105]);
    let vecs = d.vecs.as_ref().unwrap();
    assert_eq!(vecs.len(), 1);
    assert_eq!(vecs[0].n, 1);
    assert_eq!(vecs[0].t, MsgType::InkU8);
    assert_eq!(vecs[0].v, vec![vec![1], vec![2], vec![3]]);
}

#[test]
fn round_trip_items_only() {
    let mut c = MessagePayload::new();
    assert!(c.add_item(item(u128::MAX, MsgType::InkU128, vec![255; 40])));
    let bytes = c.encode();
    let d = MessagePayload::decode(&bytes).unwrap();
    assert_eq!(d, c);
    assert!(d.vecs.is_none());
    assert_eq!(d.items.as_ref().unwrap()[0].n, u128::MAX);
    assert_eq!(d.items.as_ref().unwrap()[0].v, vec![255; 40]);
}

#[test]
fn records_compare_by_identifier_alone() {
    let a = item(9, MsgType::InkU8, vec![1]);
    let b = item(9, MsgType::InkString, vec![2, 3]);
    let c = item(10, MsgType::InkU8, vec![1]);
    assert_eq!(a, b);
    assert_ne!(a, c);
    let va = varr(9, MsgType::InkU8, vec![vec![1]]);
    let vb = varr(9, MsgType::InkI8, vec![]);
    assert_eq!(va, vb);
}

#[test]
fn invalid_tag_byte_rejected() {
    // A Value Record whose tag byte is 255: identifier, bad tag, empty buffer.
    let mut bytes = vec![0u8; 16];
    bytes.push(255);
    bytes.push(0);
    assert_eq!(
        MessageItem::decode(&bytes),
        Err(CodecError::InvalidDiscriminant)
    );
}

#[test]
fn invalid_tag_byte_rejected_inside_payload() {
    let mut c = MessagePayload::new();
    assert!(c.add_item(item(1, MsgType::UserData, vec![5])));
    let mut bytes = c.encode();
    // The tag byte sits after the presence byte, the one-record count and
    // the 16 identifier bytes.
    assert_eq!(bytes[18], 11);
    bytes[18] = 255;
    assert_eq!(
        MessagePayload::decode(&bytes),
        Err(CodecError::InvalidDiscriminant)
    );
}

#[test]
fn truncated_input_rejected() {
    assert_eq!(MessagePayload::decode(&[]), Err(CodecError::TruncatedInput));
    assert_eq!(
        MessagePayload::decode(&[0u8]),
        Err(CodecError::TruncatedInput)
    );
    assert_eq!(
        MessagePayload::decode(&[1u8]),
        Err(CodecError::TruncatedInput)
    );
    let mut c = MessagePayload::new();
    assert!(c.add_item(item(1, MsgType::InkU32, vec![0, 0, 0, 7])));
    let bytes = c.encode();
    for cut in 1..bytes.len() {
        assert_eq!(
            MessagePayload::decode(&bytes[..bytes.len() - cut]),
            Err(CodecError::TruncatedInput)
        );
    }
}

#[test]
fn oversized_length_prefix_rejected() {
    // A compact prefix in the widest mode announcing more than four value
    // bytes declares a length beyond the 32-bit domain.
    let mut bytes = vec![0u8; 16];
    bytes.push(0);
    bytes.push(0b111);
    assert_eq!(
        MessageItem::decode(&bytes),
        Err(CodecError::LengthOverflow)
    );
}

#[test]
fn bad_presence_byte_rejected() {
    assert_eq!(
        MessagePayload::decode(&[2u8, 0u8]),
        Err(CodecError::InvalidDiscriminant)
    );
    assert_eq!(
        MessagePayload::decode(&[0u8, 3u8]),
        Err(CodecError::InvalidDiscriminant)
    );
}

#[test]
fn trailing_bytes_are_ignored() {
    let mut c = MessagePayload::new();
    assert!(c.add_item(item(7, MsgType::InkI16, vec![1, 2])));
    let mut bytes = c.encode();
    bytes.extend_from_slice(&[9, 9, 9]);
    let d = MessagePayload::decode(&bytes).unwrap();
    assert_eq!(d, c);
}

#[test]
fn decode_does_not_recheck_uniqueness() {
    // Two records under one identifier, hand-assembled: the decode path
    // trusts the byte stream.
    let mut c1 = MessagePayload::new();
    assert!(c1.add_item(item(1, MsgType::InkU8, vec![1])));
    let enc = c1.encode();
    // Strip the two presence/count bytes and the trailing absent-vecs byte.
    let one = &enc[2..enc.len() - 1];
    let mut bytes = vec![1u8, 8u8];
    bytes.extend_from_slice(one);
    bytes.extend_from_slice(one);
    bytes.push(0);
    let d = MessagePayload::decode(&bytes).unwrap();
    assert_eq!(d.items.as_ref().unwrap().len(), 2);
    assert_eq!(d.items.as_ref().unwrap()[0].n, 1);
    assert_eq!(d.items.as_ref().unwrap()[1].n, 1);
}

#[test]
fn tag_discriminants_follow_declaration_order() {
    let tags = [
        MsgType::InkString,
        MsgType::InkU8,
        MsgType::InkU16,
        MsgType::InkU32,
        MsgType::InkU64,
        MsgType::InkU128,
        MsgType::InkI8,
        MsgType::InkI16,
        MsgType::InkI32,
        MsgType::InkI64,
        MsgType::InkI128,
        MsgType::UserData,
    ];
    for (i, t) in tags.iter().enumerate() {
        let it = item(0, *t, vec![]);
        let bytes = it.encode();
        assert_eq!(bytes[16], i as u8);
        let back = MessageItem::decode(&bytes).unwrap();
        assert_eq!(back.t, *t);
    }
}

#[test]
fn value_record_round_trips_alone() {
    let it = item(77, MsgType::UserData, vec![1, 2, 3, 4, 5]);
    let bytes = it.encode();
    assert_eq!(bytes.len(), 16 + 1 + 1 + 5);
    let back = MessageItem::decode(&bytes).unwrap();
    assert_eq!(back.n, 77);
    assert_eq!(back.t, MsgType::UserData);
    assert_eq!(back.v, vec![1, 2, 3, 4, 5]);
}

#[test]
fn array_record_round_trips_alone() {
    let mv = varr(3, MsgType::InkI128, vec![vec![9; 70], vec![], vec![1]]);
    let bytes = mv.encode();
    let back = MessageVec::decode(&bytes).unwrap();
    assert_eq!(back.n, 3);
    assert_eq!(back.t, MsgType::InkI128);
    assert_eq!(back.v, vec![vec![9; 70], vec![], vec![1]]);
}

#[test]
fn compact_length_prefix_boundaries() {
    // One-byte mode up to 63, two-byte mode up to 16383, then four bytes.
    let it63 = item(0, MsgType::UserData, vec![7; 63]);
    let enc63 = it63.encode();
    assert_eq!(enc63[17], 63 << 2);
    assert_eq!(enc63.len(), 17 + 1 + 63);
    assert_eq!(MessageItem::decode(&enc63).unwrap().v, vec![7; 63]);

    let it64 = item(0, MsgType::UserData, vec![7; 64]);
    let enc64 = it64.encode();
    assert_eq!(&enc64[17..19], &[0b0000_0001, 0b0000_0001]);
    assert_eq!(enc64.len(), 17 + 2 + 64);
    assert_eq!(MessageItem::decode(&enc64).unwrap().v, vec![7; 64]);

    let it16384 = item(0, MsgType::UserData, vec![7; 16384]);
    let enc16384 = it16384.encode();
    assert_eq!(&enc16384[17..21], &[0b0000_0010, 0, 1, 0]);
    assert_eq!(enc16384.len(), 17 + 4 + 16384);
    assert_eq!(MessageItem::decode(&enc16384).unwrap().v.len(), 16384);
}

#[test]
fn wider_compact_modes_than_needed_are_accepted() {
    // The value 5 in two-byte mode: (5 << 2) | 1, little-endian.
    let mut bytes = vec![0u8; 16];
    bytes.push(0);
    bytes.extend_from_slice(&[0b0001_0101, 0]);
    bytes.extend_from_slice(&[9, 8, 7, 6, 5]);
    let back = MessageItem::decode(&bytes).unwrap();
    assert_eq!(back.v, vec![9, 8, 7, 6, 5]);
}
