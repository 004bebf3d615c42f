//! The wire codec: exact byte layouts, round trips, and framing faults.

use zusi_protocol::codec::{decode, Decoder, FramingError};
use zusi_protocol::node::{Attribute, Node};

#[test]
fn empty_node_round_trip() {
    let n = Node {
        id: 0x1234,
        attributes: vec![],
        children: vec![],
    };
    let bytes = n.encode();
    assert_eq!(
        bytes,
        vec![0x00, 0x00, 0x00, 0x00, 0x34, 0x12, 0xFF, 0xFF, 0xFF, 0xFF]
    );
    let back = decode(&bytes).unwrap();
    assert_eq!(back.id, 0x1234);
    assert_eq!(back.attributes.len(), 0);
    assert_eq!(back.children.len(), 0);
}

#[test]
fn single_attribute_layout_and_lookup() {
    let n = Node {
        id: 0x0001,
        attributes: vec![Attribute::from_u16(0x0042, 0x0001)],
        children: vec![],
    };
    let bytes = n.encode();
    assert_eq!(
        bytes,
        vec![
            0x00, 0x00, 0x00, 0x00, // start of node
            0x01, 0x00, // node id
            0x04, 0x00, 0x00, 0x00, // attribute length
            0x42, 0x00, // attribute id
            0x01, 0x00, // attribute value
            0xFF, 0xFF, 0xFF, 0xFF, // end of node
        ]
    );
    let back = decode(&bytes).unwrap();
    assert_eq!(back.find_attribute(&[0x0001, 0x0042]).unwrap().as_u16().unwrap(), 1);
}

#[test]
fn nested_tree_round_trip() {
    let n = Node {
        id: 0x0001,
        attributes: vec![
            Attribute::from_u16(0x0042, 1),
            Attribute::from_str(0x0043, "hello"),
        ],
        children: vec![
            Node {
                id: 0x0002,
                attributes: vec![],
                children: vec![Node {
                    id: 0x0003,
                    attributes: vec![Attribute::from_bytes(0x0044, &[])],
                    children: vec![],
                }],
            },
            Node {
                id: 0x0002,
                attributes: vec![Attribute::from_u8(0x0045, 9)],
                children: vec![],
            },
        ],
    };
    let back = decode(&n.encode()).unwrap();
    assert_eq!(back.id, 0x0001);
    assert_eq!(back.attributes.len(), 2);
    assert_eq!(back.attributes[0].id, 0x0042);
    assert_eq!(back.attributes[0].value, vec![1, 0]);
    assert_eq!(back.attributes[1].value, b"hello".to_vec());
    assert_eq!(back.children.len(), 2);
    assert_eq!(back.children[0].children[0].id, 0x0003);
    assert_eq!(back.children[0].children[0].attributes[0].id, 0x0044);
    assert_eq!(back.children[0].children[0].attributes[0].value, Vec::<u8>::new());
    assert_eq!(back.children[1].attributes[0].as_u8().unwrap(), 9);
}

#[test]
fn stream_must_open_with_start_marker() {
    let bytes = [0x01, 0x00, 0x00, 0x00, 0x34, 0x12, 0xFF, 0xFF, 0xFF, 0xFF];
    assert!(matches!(decode(&bytes), Err(FramingError::BadStartMarker)));
}

#[test]
fn attribute_length_one_is_rejected() {
    let bytes = [
        0x00, 0x00, 0x00, 0x00, 0x34, 0x12, // node with id
        0x01, 0x00, 0x00, 0x00, // attribute length 1
        0xFF, 0xFF, 0xFF, 0xFF,
    ];
    assert!(matches!(decode(&bytes), Err(FramingError::BadAttributeLength)));
}

#[test]
fn eof_before_end_marker_is_rejected() {
    let bytes = [0x00, 0x00, 0x00, 0x00, 0x34, 0x12];
    assert!(matches!(decode(&bytes), Err(FramingError::Truncated)));
    let empty: [u8; 0] = [];
    assert!(matches!(decode(&empty), Err(FramingError::Truncated)));
}

#[test]
fn trailing_bytes_are_rejected() {
    let bytes = [
        0x00, 0x00, 0x00, 0x00, 0x34, 0x12, 0xFF, 0xFF, 0xFF, 0xFF, // complete message
        0x00, // one byte too many
    ];
    assert!(matches!(decode(&bytes), Err(FramingError::TrailingData)));
}

#[test]
fn incremental_decoder_matches_whole_slice_decode() {
    let n = Node {
        id: 0x0005,
        attributes: vec![Attribute::from_u32(0x0001, 0xCAFEBABE)],
        children: vec![Node {
            id: 0x0006,
            attributes: vec![],
            children: vec![],
        }],
    };
    let bytes = n.encode();
    let mut d = Decoder::new();
    let mut pos = 0;
    loop {
        let need = d.needed();
        if need == 0 {
            break;
        }
        d.feed(&bytes[pos..pos + need]);
        pos += need;
    }
    assert_eq!(pos, bytes.len());
    let back = d.into_result().unwrap();
    assert_eq!(back.id, 0x0005);
    assert_eq!(back.attributes[0].value, vec![0xBE, 0xBA, 0xFE, 0xCA]);
    assert_eq!(back.children[0].id, 0x0006);
}

#[test]
fn attribute_record_encodes_alone() {
    let a = Attribute::from_u16(0x0042, 0x0001);
    assert!(a.is_well_formed());
    assert_eq!(a.encode(), vec![0x04, 0x00, 0x00, 0x00, 0x42, 0x00, 0x01, 0x00]);
}

#[test]
fn well_formedness_check_accepts_small_trees() {
    let n = Node {
        id: 0x0001,
        attributes: vec![Attribute::from_u8(0x0001, 1)],
        children: vec![Node {
            id: 0x0002,
            attributes: vec![],
            children: vec![],
        }],
    };
    assert!(n.is_well_formed());
}
