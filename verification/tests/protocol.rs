//! The HELLO and NEEDED_DATA exchanges: request shapes and reply judgment.

use zusi_protocol::node::{Attribute, Node};
use zusi_protocol::protocol::{
    check_hello_response, check_needed_data_response, hello_request, needed_data_request,
    ProtocolError,
};

fn hello_reply(acceptance: &[u8]) -> Node {
    Node {
        id: 0x0001,
        attributes: vec![],
        children: vec![Node {
            id: 0x0002,
            attributes: vec![Attribute::from_bytes(0x0003, acceptance)],
            children: vec![],
        }],
    }
}

#[test]
fn hello_request_shape() {
    let r = hello_request("client", "1.0");
    assert_eq!(r.id, 0x0001);
    assert_eq!(r.attributes.len(), 0);
    assert_eq!(r.children.len(), 1);
    let hello = &r.children[0];
    assert_eq!(hello.id, 0x0001);
    assert_eq!(hello.children.len(), 0);
    assert_eq!(hello.attributes.len(), 4);
    assert_eq!(hello.attributes[0].id, 0x0001);
    assert_eq!(hello.attributes[0].value, vec![0x02, 0x00]);
    assert_eq!(hello.attributes[1].id, 0x0002);
    assert_eq!(hello.attributes[1].value, vec![0x02, 0x00]);
    assert_eq!(hello.attributes[2].id, 0x0003);
    assert_eq!(hello.attributes[2].value, b"client".to_vec());
    assert_eq!(hello.attributes[3].id, 0x0004);
    assert_eq!(hello.attributes[3].value, b"1.0".to_vec());
}

#[test]
fn hello_acceptance() {
    assert_eq!(check_hello_response(&hello_reply(&[0x00])), Ok(()));
    assert_eq!(
        check_hello_response(&hello_reply(&[0x01])),
        Err(ProtocolError::Rejected)
    );
    let mut bad_root = hello_reply(&[0x00]);
    bad_root.id = 0x0099;
    assert_eq!(
        check_hello_response(&bad_root),
        Err(ProtocolError::InvalidRootId)
    );
}

#[test]
fn hello_reply_shape_faults() {
    let two_children = Node {
        id: 0x0001,
        attributes: vec![],
        children: vec![
            Node { id: 0x0002, attributes: vec![], children: vec![] },
            Node { id: 0x0002, attributes: vec![], children: vec![] },
        ],
    };
    assert_eq!(
        check_hello_response(&two_children),
        Err(ProtocolError::NotExactlyOneChild)
    );

    let wrong_command = Node {
        id: 0x0001,
        attributes: vec![],
        children: vec![Node { id: 0x0004, attributes: vec![], children: vec![] }],
    };
    assert_eq!(
        check_hello_response(&wrong_command),
        Err(ProtocolError::InvalidCommandId)
    );

    let no_acceptance = Node {
        id: 0x0001,
        attributes: vec![],
        children: vec![Node {
            id: 0x0002,
            attributes: vec![Attribute::from_u8(0x0007, 0)],
            children: vec![],
        }],
    };
    assert_eq!(
        check_hello_response(&no_acceptance),
        Err(ProtocolError::MissingAcceptance)
    );

    assert_eq!(
        check_hello_response(&hello_reply(&[])),
        Err(ProtocolError::MissingAcceptance)
    );
}

#[test]
fn first_acceptance_attribute_wins() {
    let reply = Node {
        id: 0x0001,
        attributes: vec![],
        children: vec![Node {
            id: 0x0002,
            attributes: vec![
                Attribute::from_u8(0x0001, 0xFF),
                Attribute::from_u8(0x0003, 0x00),
                Attribute::from_u8(0x0003, 0x01),
            ],
            children: vec![],
        }],
    };
    assert_eq!(check_hello_response(&reply), Ok(()));
}

#[test]
fn needed_data_request_shape() {
    let r = needed_data_request(&[0x0001, 0x001B], &[], true);
    assert_eq!(r.id, 0x0002);
    assert_eq!(r.attributes.len(), 0);
    assert_eq!(r.children.len(), 1);
    let command = &r.children[0];
    assert_eq!(command.id, 0x0003);
    assert_eq!(command.attributes.len(), 0);
    assert_eq!(command.children.len(), 2);

    let cab = &command.children[0];
    assert_eq!(cab.id, 0x000A);
    assert_eq!(cab.children.len(), 0);
    assert_eq!(cab.attributes.len(), 2);
    assert_eq!(cab.attributes[0].id, 0x0001);
    assert_eq!(cab.attributes[0].value, vec![0x01, 0x00]);
    assert_eq!(cab.attributes[1].id, 0x0001);
    assert_eq!(cab.attributes[1].value, vec![0x1B, 0x00]);

    let cab_op = &command.children[1];
    assert_eq!(cab_op.id, 0x000B);
    assert_eq!(cab_op.attributes.len(), 0);
    assert_eq!(cab_op.children.len(), 0);
}

#[test]
fn needed_data_sections_keep_fixed_order_and_drop_empty_groups() {
    let all = needed_data_request(&[0x0007], &[0x0008, 0x0009], true);
    let sections = &all.children[0].children;
    assert_eq!(sections.len(), 3);
    assert_eq!(sections[0].id, 0x000A);
    assert_eq!(sections[1].id, 0x000B);
    assert_eq!(sections[2].id, 0x000C);
    assert_eq!(sections[2].attributes.len(), 2);
    assert_eq!(sections[2].attributes[0].value, vec![0x08, 0x00]);
    assert_eq!(sections[2].attributes[1].value, vec![0x09, 0x00]);

    let none = needed_data_request(&[], &[], false);
    assert_eq!(none.children[0].children.len(), 0);
}

#[test]
fn needed_data_acceptance() {
    let reply = |acceptance: Vec<u8>| Node {
        id: 0x0002,
        attributes: vec![],
        children: vec![Node {
            id: 0x0004,
            attributes: vec![Attribute::from_bytes(0x0001, &acceptance)],
            children: vec![],
        }],
    };
    assert_eq!(check_needed_data_response(&reply(vec![0x00])), Ok(()));
    assert_eq!(
        check_needed_data_response(&reply(vec![0x02])),
        Err(ProtocolError::Rejected)
    );
    let mut bad_root = reply(vec![0x00]);
    bad_root.id = 0x0001;
    assert_eq!(
        check_needed_data_response(&bad_root),
        Err(ProtocolError::InvalidRootId)
    );
    let wrong_command = Node {
        id: 0x0002,
        attributes: vec![],
        children: vec![Node { id: 0x0002, attributes: vec![], children: vec![] }],
    };
    assert_eq!(
        check_needed_data_response(&wrong_command),
        Err(ProtocolError::InvalidCommandId)
    );
}

#[test]
fn hello_request_survives_the_wire() {
    let request = hello_request("client", "1.0");
    assert!(request.is_well_formed());
    let back = zusi_protocol::codec::decode(&request.encode()).unwrap();
    assert_eq!(back.children[0].attributes[2].to_str().unwrap(), "client");
    assert_eq!(back.children[0].attributes[3].to_str().unwrap(), "1.0");
    assert_eq!(check_hello_response(&back), Err(ProtocolError::InvalidCommandId));
}
