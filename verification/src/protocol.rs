//! The two protocol exchanges: HELLO / ACK_HELLO and NEEDED_DATA /
//! ACK_NEEDED_DATA.  The library builds the request trees and judges the
//! reply trees; the caller moves the bytes over its stream.

use vstd::prelude::*;

verus! {

use vstd::bytes::spec_u16_to_le_bytes;
use vstd::utf8::encode_utf8;
use crate::node::{Attribute, AttributeModel, Node, NodeModel, attrs_model, lemma_nodes_model};

/// Root container id for connection establishment.
pub const CONNECT_ROOT_ID: u16 = 0x0001;

/// Root container id for the client-application channel.
pub const APPLICATION_ROOT_ID: u16 = 0x0002;

/// Command id of the HELLO request.
pub const CMD_HELLO: u16 = 0x0001;

/// Command id of the ACK_HELLO reply.
pub const CMD_ACK_HELLO: u16 = 0x0002;

/// Command id of the NEEDED_DATA request.
pub const CMD_NEEDED_DATA: u16 = 0x0003;

/// Command id of the ACK_NEEDED_DATA reply.
pub const CMD_ACK_NEEDED_DATA: u16 = 0x0004;

/// Section id for cab displays.
pub const SECTION_CAB_DISPLAYS: u16 = 0x000A;

/// Section id for cab operation.
pub const SECTION_CAB_OPERATION: u16 = 0x000B;

/// Section id for program data.
pub const SECTION_PROGRAM_DATA: u16 = 0x000C;

/// Attribute id carrying the acceptance byte in an ACK_HELLO reply.
pub const HELLO_ACK_ATTR_ID: u16 = 0x0003;

/// Attribute id carrying the acceptance byte in an ACK_NEEDED_DATA reply.
pub const NEEDED_DATA_ACK_ATTR_ID: u16 = 0x0001;

/// Protocol version announced in HELLO.
pub const PROTOCOL_VERSION: u16 = 0x0002;

/// Client type announced in HELLO.
pub const CLIENT_TYPE: u16 = 0x0002;

/// A reply tree that does not fit the expected exchange, or a well-formed
/// refusal.
#[derive(Debug, Clone, Copy, PartialEq, Eq, Structural)]
pub enum ProtocolError {
    /// The reply's root node id is not the one of this exchange.
    InvalidRootId,
    /// The reply's root does not have exactly one child.
    NotExactlyOneChild,
    /// The reply's command id is not the expected acknowledgement.
    InvalidCommandId,
    /// The acknowledgement carries no acceptance byte.
    MissingAcceptance,
    /// The peer answered with a non-zero acceptance byte.
    Rejected,
}

// ---------------------------------------------------------------------------
// Request trees.
// ---------------------------------------------------------------------------

/// The HELLO request tree for a client name and version.
pub open spec fn spec_hello_request(name: Seq<char>, version: Seq<char>) -> NodeModel {
    NodeModel {
        id: CONNECT_ROOT_ID,
        attributes: Seq::empty(),
        children: seq![
            NodeModel {
                id: CMD_HELLO,
                attributes: seq![
                    AttributeModel { id: 0x0001, value: spec_u16_to_le_bytes(PROTOCOL_VERSION) },
                    AttributeModel { id: 0x0002, value: spec_u16_to_le_bytes(CLIENT_TYPE) },
                    AttributeModel { id: 0x0003, value: encode_utf8(name) },
                    AttributeModel { id: 0x0004, value: encode_utf8(version) },
                ],
                children: Seq::empty(),
            },
        ],
    }
}

/// Builds the HELLO request tree.
pub fn hello_request(client_name: &str, client_version: &str) -> (r: Node)
    ensures
        r@ == spec_hello_request(client_name@, client_version@),
{
    let mut attrs: Vec<Attribute> = Vec::new();
    attrs.push(Attribute::from_u16(0x0001, PROTOCOL_VERSION));
    attrs.push(Attribute::from_u16(0x0002, CLIENT_TYPE));
    attrs.push(Attribute::from_str(0x0003, client_name));
    attrs.push(Attribute::from_str(0x0004, client_version));
    let hello = Node { id: CMD_HELLO, attributes: attrs, children: Vec::new() };
    let mut children: Vec<Node> = Vec::new();
    children.push(hello);
    let r = Node { id: CONNECT_ROOT_ID, attributes: Vec::new(), children };
    proof {
        lemma_nodes_model(r.children@);
        let spec_child = spec_hello_request(client_name@, client_version@).children[0];
        assert(r@.children[0] =~~= spec_child) by {
            assert(attrs_model(r.children@[0].attributes@) =~~= spec_child.attributes);
            assert(crate::node::nodes_model(r.children@[0].children@) =~~= spec_child.children) by {
                lemma_nodes_model(r.children@[0].children@);
            }
        }
        assert(r@ =~~= spec_hello_request(client_name@, client_version@));
    }
    r
}

/// One attribute per listed id, each carrying the id as a two-byte
/// little-endian value under the given attribute tag.
pub open spec fn spec_u16_attr_list(ids: Seq<u16>, attr_id: u16) -> Seq<AttributeModel> {
    Seq::new(
        ids.len(),
        |i: int| AttributeModel { id: attr_id, value: spec_u16_to_le_bytes(ids[i]) },
    )
}

/// The section nodes of a NEEDED_DATA request, in their fixed order, with
/// empty groups left out.
pub open spec fn spec_needed_data_sections(
    cab: Seq<u16>,
    prog: Seq<u16>,
    cab_operation: bool,
) -> Seq<NodeModel> {
    (if cab.len() > 0 {
        seq![
            NodeModel {
                id: SECTION_CAB_DISPLAYS,
                attributes: spec_u16_attr_list(cab, 0x0001),
                children: Seq::empty(),
            },
        ]
    } else {
        Seq::empty()
    }) + (if cab_operation {
        seq![
            NodeModel {
                id: SECTION_CAB_OPERATION,
                attributes: Seq::empty(),
                children: Seq::empty(),
            },
        ]
    } else {
        Seq::empty()
    }) + (if prog.len() > 0 {
        seq![
            NodeModel {
                id: SECTION_PROGRAM_DATA,
                attributes: spec_u16_attr_list(prog, 0x0001),
                children: Seq::empty(),
            },
        ]
    } else {
        Seq::empty()
    })
}

/// The NEEDED_DATA request tree.
pub open spec fn spec_needed_data_request(
    cab: Seq<u16>,
    prog: Seq<u16>,
    cab_operation: bool,
) -> NodeModel {
    NodeModel {
        id: APPLICATION_ROOT_ID,
        attributes: Seq::empty(),
        children: seq![
            NodeModel {
                id: CMD_NEEDED_DATA,
                attributes: Seq::empty(),
                children: spec_needed_data_sections(cab, prog, cab_operation),
            },
        ],
    }
}

/// One attribute per id, as two-byte little-endian values under tag 0x0001.
fn u16_attr_list(ids: &[u16]) -> (r: Vec<Attribute>)
    ensures
        attrs_model(r@) == spec_u16_attr_list(ids@, 0x0001),
{
    let mut r: Vec<Attribute> = Vec::new();
    let mut i: usize = 0;
    while i < ids.len()
        invariant
            0 <= i <= ids@.len(),
            r@.len() == i,
            forall|j: int|
                0 <= j < i ==> r@[j]@ == (AttributeModel {
                    id: 0x0001u16,
                    value: spec_u16_to_le_bytes(ids@[j]),
                }),
        decreases ids@.len() - i,
    {
        r.push(Attribute::from_u16(0x0001, ids[i]));
        i += 1;
    }
    proof {
        assert(attrs_model(r@) =~= spec_u16_attr_list(ids@, 0x0001));
    }
    r
}

/// Builds the NEEDED_DATA request tree for the given subscriptions.
pub fn needed_data_request(
    cab_display_ids: &[u16],
    program_data_ids: &[u16],
    cab_operation: bool,
) -> (r: Node)
    ensures
        r@ == spec_needed_data_request(cab_display_ids@, program_data_ids@, cab_operation),
{
    let mut sections: Vec<Node> = Vec::new();
    if cab_display_ids.len() > 0 {
        sections.push(
            Node {
                id: SECTION_CAB_DISPLAYS,
                attributes: u16_attr_list(cab_display_ids),
                children: Vec::new(),
            },
        );
    }
    if cab_operation {
        sections.push(
            Node { id: SECTION_CAB_OPERATION, attributes: Vec::new(), children: Vec::new() },
        );
    }
    if program_data_ids.len() > 0 {
        sections.push(
            Node {
                id: SECTION_PROGRAM_DATA,
                attributes: u16_attr_list(program_data_ids),
                children: Vec::new(),
            },
        );
    }
    let ghost smodels = spec_needed_data_sections(
        cab_display_ids@,
        program_data_ids@,
        cab_operation,
    );
    proof {
        lemma_nodes_model(sections@);
        assert(crate::node::nodes_model(sections@) =~~= smodels);
    }
    let command = Node { id: CMD_NEEDED_DATA, attributes: Vec::new(), children: sections };
    let mut children: Vec<Node> = Vec::new();
    children.push(command);
    let r = Node { id: APPLICATION_ROOT_ID, attributes: Vec::new(), children };
    proof {
        lemma_nodes_model(r.children@);
        let spec_r = spec_needed_data_request(cab_display_ids@, program_data_ids@, cab_operation);
        assert(r@.children[0] =~~= spec_r.children[0]) by {
            assert(attrs_model(r.children@[0].attributes@) =~~= spec_r.children[0].attributes);
            assert(crate::node::nodes_model(r.children@[0].children@) =~~= spec_r.children[0].children);
        }
        assert(r@ =~~= spec_r);
    }
    r
}

// ---------------------------------------------------------------------------
// Reply validation.
// ---------------------------------------------------------------------------

/// The first attribute of the list carrying the given id, if any.
pub open spec fn spec_first_attr_with_id(attrs: Seq<AttributeModel>, id: u16) -> Option<
    AttributeModel,
>
    decreases attrs,
{
    if attrs.len() == 0 {
        Option::None
    } else if attrs.first().id == id {
        Option::Some(attrs.first())
    } else {
        spec_first_attr_with_id(attrs.drop_first(), id)
    }
}

/// Scanning may start after any id-free prefix.
proof fn lemma_first_attr_skip(attrs: Seq<AttributeModel>, id: u16, i: int)
    requires
        0 <= i <= attrs.len(),
        spec_first_attr_with_id(attrs.take(i), id) is None,
    ensures
        spec_first_attr_with_id(attrs, id) == spec_first_attr_with_id(attrs.skip(i), id),
    decreases i,
{
    if i == 0 {
        assert(attrs.skip(0) =~= attrs);
    } else {
        assert(attrs.take(i).first() == attrs.first());
        assert(attrs.first().id != id);
        let rest = attrs.drop_first();
        assert(attrs.take(i).drop_first() =~= rest.take(i - 1));
        assert(attrs.skip(i) =~= rest.skip(i - 1));
        lemma_first_attr_skip(rest, id, i - 1);
    }
}

/// How a reply tree is judged: the root id and single-child shape must
/// match the exchange, the child must carry the expected acknowledgement
/// id, and the first attribute under the acknowledgement attribute id
/// decides by its first byte — zero accepts, anything else rejects.  An
/// acceptance attribute without a first byte counts as missing.
pub open spec fn spec_check_ack(
    root: NodeModel,
    expected_root: u16,
    expected_cmd: u16,
    ack_attr: u16,
) -> Result<(), ProtocolError> {
    if root.id != expected_root {
        Err(ProtocolError::InvalidRootId)
    } else if root.children.len() != 1 {
        Err(ProtocolError::NotExactlyOneChild)
    } else {
        let cmd = root.children[0];
        if cmd.id != expected_cmd {
            Err(ProtocolError::InvalidCommandId)
        } else {
            match spec_first_attr_with_id(cmd.attributes, ack_attr) {
                Option::None => Err(ProtocolError::MissingAcceptance),
                Option::Some(a) => if a.value.len() == 0 {
                    Err(ProtocolError::MissingAcceptance)
                } else if a.value[0] == 0 {
                    Ok(())
                } else {
                    Err(ProtocolError::Rejected)
                },
            }
        }
    }
}

/// Judges a reply tree against the expected exchange shape.
#[verifier::loop_isolation(false)]
pub fn check_ack(reply: &Node, expected_root: u16, expected_cmd: u16, ack_attr: u16) -> (r: Result<
    (),
    ProtocolError,
>)
    ensures
        r == spec_check_ack(reply@, expected_root, expected_cmd, ack_attr),
{
    proof {
        lemma_nodes_model(reply.children@);
    }
    if reply.id != expected_root {
        return Err(ProtocolError::InvalidRootId);
    }
    if reply.children.len() != 1 {
        return Err(ProtocolError::NotExactlyOneChild);
    }
    let cmd = &reply.children[0];
    proof {
        assert(reply@.children[0] == cmd@);
    }
    if cmd.id != expected_cmd {
        return Err(ProtocolError::InvalidCommandId);
    }
    let ghost amodels = attrs_model(cmd.attributes@);
    let mut i: usize = 0;
    proof {
        assert(amodels.take(0) =~= Seq::<AttributeModel>::empty());
    }
    while i < cmd.attributes.len()
        invariant
            0 <= i <= cmd.attributes@.len(),
            amodels == attrs_model(cmd.attributes@),
            amodels == cmd@.attributes,
            spec_first_attr_with_id(amodels.take(i as int), ack_attr) is None,
        decreases cmd.attributes@.len() - i,
    {
        let a = &cmd.attributes[i];
        proof {
            assert(amodels[i as int] == a@);
        }
        if a.id == ack_attr {
            proof {
                lemma_first_attr_skip(amodels, ack_attr, i as int);
                assert(amodels.skip(i as int).first() == a@);
                assert(spec_first_attr_with_id(amodels, ack_attr) == Option::Some(a@));
            }
            if a.value.len() == 0 {
                return Err(ProtocolError::MissingAcceptance);
            }
            if a.value[0] == 0 {
                return Ok(());
            } else {
                return Err(ProtocolError::Rejected);
            }
        }
        proof {
            assert(amodels.take(i + 1).take(i as int) =~= amodels.take(i as int));
            lemma_first_attr_skip(amodels.take(i + 1), ack_attr, i as int);
            assert(amodels.take(i + 1).skip(i as int) =~= seq![amodels[i as int]]);
            assert(spec_first_attr_with_id(seq![amodels[i as int]], ack_attr) is None) by {
                reveal_with_fuel(spec_first_attr_with_id, 2);
                assert(seq![amodels[i as int]].drop_first() =~= Seq::<AttributeModel>::empty());
            }
        }
        i += 1;
    }
    proof {
        assert(amodels.take(i as int) =~= amodels);
    }
    Err(ProtocolError::MissingAcceptance)
}

/// Judges an ACK_HELLO reply.
pub fn check_hello_response(reply: &Node) -> (r: Result<(), ProtocolError>)
    ensures
        r == spec_check_ack(reply@, CONNECT_ROOT_ID, CMD_ACK_HELLO, HELLO_ACK_ATTR_ID),
{
    check_ack(reply, CONNECT_ROOT_ID, CMD_ACK_HELLO, HELLO_ACK_ATTR_ID)
}

/// Judges an ACK_NEEDED_DATA reply.
pub fn check_needed_data_response(reply: &Node) -> (r: Result<(), ProtocolError>)
    ensures
        r == spec_check_ack(
            reply@,
            APPLICATION_ROOT_ID,
            CMD_ACK_NEEDED_DATA,
            NEEDED_DATA_ACK_ATTR_ID,
        ),
{
    check_ack(reply, APPLICATION_ROOT_ID, CMD_ACK_NEEDED_DATA, NEEDED_DATA_ACK_ATTR_ID)
}

} // verus!
