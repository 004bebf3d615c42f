//! Path lookup on small trees.

use zusi_protocol::node::{Attribute, Node};

#[test]
fn test_find_node() {
    let a1 = Attribute::from_u16(0x0042, 0x0001);
    let a2 = Attribute::from_u16(0x0042, 0x0002);

    let n = Node {
        id: 0x0001,
        attributes: vec![a1],
        children: vec![Node {
            id: 0x0002,
            attributes: vec![a2],
            children: vec![],
        }],
    };

    assert_eq!(n.find_node(&[0x0001, 0x0002]).unwrap().id, 0x0002);
    assert_eq!(n.find_node_excl(&[0x0002]).unwrap().id, 0x0002);

    assert!(n.find_node_excl(&[0x0001, 0x0002]).is_none());
    assert!(n.find_node(&[0x0002]).is_none());

    assert_eq!(n.find_node(&[0x0001]).unwrap().id, 0x0001);
    assert_eq!(n.find_node_excl(&[]).unwrap().id, 0x0001);

    assert!(n.find_node_excl(&[0x0001]).is_none());

    assert!(n.find_node(&[0x0001, 0x0002, 0x0042]).is_none());
    assert!(n.find_node_excl(&[0x0002, 0x0042]).is_none());
    assert!(n.find_node(&[0x0002, 0x0042]).is_none());
    assert!(n.find_node_excl(&[0x0001, 0x0002, 0x0042]).is_none());
}

#[test]
fn test_find_node_cond() {
    let a1 = Attribute::from_u16(0x0042, 0x0001);
    let a2 = Attribute::from_u16(0x0042, 0x0002);

    let n = Node {
        id: 0x0001,
        attributes: vec![],
        children: vec![
            Node {
                id: 0x0002,
                attributes: vec![],
                children: vec![],
            },
            Node {
                id: 0x0002,
                attributes: vec![a1, a2],
                children: vec![],
            },
        ],
    };

    assert!(
        n.find_node_cond(&[0x0001, 0x0002], |n: &Node| n.attributes.len() > 0)
            .unwrap()
            .attributes
            .len()
            > 0
    );
    assert!(
        n.find_node_excl_cond(&[0x0002], |n: &Node| n.attributes.len() > 0)
            .unwrap()
            .attributes
            .len()
            > 0
    );
}

#[test]
fn test_find_attribute() {
    let a1 = Attribute::from_u16(0x0042, 0x0001);
    let a2 = Attribute::from_u16(0x0042, 0x0002);
    let a3 = Attribute::from_u16(0x0042, 0x0003);
    let a4 = Attribute::from_u16(0x0042, 0x0004);

    let n = Node {
        id: 0x0001,
        attributes: vec![a1, a2],
        children: vec![Node {
            id: 0x0001,
            attributes: vec![a3, a4],
            children: vec![],
        }],
    };

    assert!(n.find_attribute(&[0x0001, 0x0042]).unwrap().as_u16().unwrap() == 0x0001);
    assert!(n.find_attribute_excl(&[0x0042]).unwrap().as_u16().unwrap() == 0x0001);

    assert!(n.find_attribute(&[0x0001, 0x0001, 0x0042]).unwrap().as_u16().unwrap() == 0x0003);
    assert!(n.find_attribute_excl(&[0x0001, 0x0042]).unwrap().as_u16().unwrap() == 0x0003);

    assert!(n.find_attribute(&[0x0001, 0x0001]).is_none());
    assert!(n.find_attribute_excl(&[0x0001]).is_none());
    assert!(n.find_attribute(&[0x0001, 0x0024]).is_none());
    assert!(n.find_attribute_excl(&[0x0024]).is_none());
}

// Depth-first, left-to-right: among siblings matching the same id, the
// earlier one wins.
#[test]
fn first_match_prefers_earlier_sibling() {
    let n = Node {
        id: 0x0001,
        attributes: vec![],
        children: vec![
            Node {
                id: 0x0002,
                attributes: vec![Attribute::from_u8(0x0010, 0xAA)],
                children: vec![],
            },
            Node {
                id: 0x0002,
                attributes: vec![Attribute::from_u8(0x0010, 0xBB)],
                children: vec![],
            },
        ],
    };
    let hit = n.find_node_excl(&[0x0002]).unwrap();
    assert_eq!(hit.attributes[0].as_u8().unwrap(), 0xAA);
    let attr = n.find_attribute(&[0x0001, 0x0002, 0x0010]).unwrap();
    assert_eq!(attr.as_u8().unwrap(), 0xAA);
}

// A lookup descends through duplicate ids: the first child may miss while a
// later sibling hits.
#[test]
fn later_sibling_hit_after_earlier_miss() {
    let n = Node {
        id: 0x0001,
        attributes: vec![],
        children: vec![
            Node {
                id: 0x0002,
                attributes: vec![],
                children: vec![],
            },
            Node {
                id: 0x0002,
                attributes: vec![],
                children: vec![Node {
                    id: 0x0003,
                    attributes: vec![Attribute::from_u8(0x0020, 7)],
                    children: vec![],
                }],
            },
        ],
    };
    let hit = n.find_node_excl(&[0x0002, 0x0003]).unwrap();
    assert_eq!(hit.id, 0x0003);
    assert_eq!(hit.attributes.len(), 1);
    assert_eq!(n.find_attribute_excl(&[0x0002, 0x0003, 0x0020]).unwrap().as_u8().unwrap(), 7);
}

// The predicate decides at the final path position for deep paths too: the
// first candidate it accepts wins, and one it rejects is skipped.
#[test]
fn predicate_decides_on_deep_paths() {
    let n = Node {
        id: 0x0001,
        attributes: vec![],
        children: vec![Node {
            id: 0x0002,
            attributes: vec![],
            children: vec![
                Node {
                    id: 0x0003,
                    attributes: vec![],
                    children: vec![],
                },
                Node {
                    id: 0x0003,
                    attributes: vec![Attribute::from_u8(0x0030, 5)],
                    children: vec![],
                },
            ],
        }],
    };
    let hit = n
        .find_node_cond(&[0x0001, 0x0002, 0x0003], |m: &Node| m.attributes.len() > 0)
        .unwrap();
    assert_eq!(hit.attributes.len(), 1);
    assert_eq!(hit.attributes[0].as_u8().unwrap(), 5);
    assert!(n
        .find_node_excl_cond(&[0x0002, 0x0003], |m: &Node| m.attributes.len() > 3)
        .is_none());
    let first = n
        .find_node_excl_cond(&[0x0002, 0x0003], |m: &Node| m.attributes.len() == 0)
        .unwrap();
    assert_eq!(first.attributes.len(), 0);
}
