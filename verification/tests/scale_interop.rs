//! The wire format must match the SCALE codec byte for byte: a record is
//! laid out like the tuple of its fields, and a payload like the pair of
//! its optional collections.

use message_protocol::{MessageItem, MessagePayload, MessageVec, MsgType};
use parity_scale_codec::{Compact, Decode, Encode};

type ItemTuple = (u128, u8, Vec<u8>);
type VecTuple = (u128, u8, Vec<Vec<u8>>);
type PayloadTuple = (Option<Vec<ItemTuple>>, Option<Vec<VecTuple>>);

#[test]
fn compact_length_prefix_matches_scale() {
    for len in [0usize, 1, 5, 63, 64, 200, 16383, 16384, 70000] {
        let it = MessageItem {
            n: 0,
            t: MsgType::InkString,
            v: vec![7; len],
        };
        let ours = it.encode();
        assert_eq!(
            &ours[17..ours.len() - len],
            Compact(len as u32).encode().as_slice(),
            "prefix differs for length {len}"
        );
    }
}

#[test]
fn identifier_matches_scale_u128() {
    let it = MessageItem {
        n: 0x0123_4567_89ab_cdef_0011_2233_4455_6677,
        t: MsgType::InkString,
        v: vec![],
    };
    let ours = it.encode();
    assert_eq!(
        &ours[..16],
        0x0123_4567_89ab_cdef_0011_2233_4455_6677u128.encode().as_slice()
    );
}

#[test]
fn value_record_matches_scale_tuple() {
    let it = MessageItem {
        n: 1,
        t: MsgType::InkU32,
        v: vec![0, 0, 0, 7],
    };
    let scale: ItemTuple = (1, 3, vec![0, 0, 0, 7]);
    assert_eq!(it.encode(), scale.encode());
}

#[test]
fn array_record_matches_scale_tuple() {
    let mv = MessageVec {
        n: 9,
        t: MsgType::InkU16,
        v: vec![vec![1, 0], vec![2, 0], vec![]],
    };
    let scale: VecTuple = (9, 2, vec![vec![1, 0], vec![2, 0], vec![]]);
    assert_eq!(mv.encode(), scale.encode());
}

#[test]
fn payload_matches_scale_pair_of_options() {
    let mut c = MessagePayload::new();
    assert!(c.add_item(MessageItem {
        n: 1,
        t: MsgType::InkU32,
        v: vec![0, 0, 0, 7],
    }));
    assert!(c.add_item(MessageItem {
        n: 2,
        t: MsgType::UserData,
        v: vec![42; 100],
    }));
    assert!(c.add_vec(MessageVec {
        n: 1,
        t: MsgType::InkU8,
        v: vec![vec![1], vec![2]],
    }));
    let scale: PayloadTuple = (
        Some(vec![(1, 3, vec![0, 0, 0, 7]), (2, 11, vec![42; 100])]),
        Some(vec![(1, 1, vec![vec![1], vec![2]])]),
    );
    assert_eq!(c.encode(), scale.encode());
}

#[test]
fn empty_payload_matches_scale() {
    let scale: PayloadTuple = (None, None);
    assert_eq!(MessagePayload::new().encode(), scale.encode());
}

#[test]
fn scale_decodes_what_this_codec_encodes() {
    let mut c = MessagePayload::new();
    assert!(c.add_item(MessageItem {
        n: 77,
        t: MsgType::InkI8,
        v: vec![200],
    }));
    assert!(c.add_vec(MessageVec {
        n: 78,
        t: MsgType::InkString,
        v: vec![vec![12, 104, 105]],
    }));
    let bytes = c.encode();
    let decoded = PayloadTuple::decode(&mut bytes.as_slice()).unwrap();
    assert_eq!(decoded.0, Some(vec![(77u128, 6u8, vec![200u8])]));
    assert_eq!(decoded.1, Some(vec![(78u128, 0u8, vec![vec![12u8, 104, 105]])]));
}

#[test]
fn this_codec_decodes_what_scale_encodes() {
    let scale: PayloadTuple = (
        None,
        Some(vec![(5, 4, vec![vec![2, 49, 55]]), (6, 10, vec![])]),
    );
    let bytes = scale.encode();
    let c = MessagePayload::decode(&bytes).unwrap();
    assert!(c.items.is_none());
    let vecs = c.vecs.as_ref().unwrap();
    assert_eq!(vecs.len(), 2);
    assert_eq!(vecs[0].n, 5);
    assert_eq!(vecs[0].t, MsgType::InkU64);
    assert_eq!(vecs[0].v, vec![vec![2, 49, 55]]);
    assert_eq!(vecs[1].n, 6);
    assert_eq!(vecs[1].t, MsgType::InkI128);
    assert_eq!(vecs[1].v, Vec::<Vec<u8>>::new());
}
