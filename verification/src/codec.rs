//! The wire codec: every record opens with a 32-bit little-endian length
//! field whose value distinguishes three kinds — `0x00000000` starts a node,
//! `0xFFFFFFFF` ends one, and any other value `L >= 2` carries an attribute
//! of `L` payload bytes (a 16-bit id followed by `L - 2` value bytes).  A
//! node body is its 16-bit id followed by its records; a whole message is a
//! single outermost start/end pair.

use vstd::prelude::*;

verus! {

use vstd::bytes::{spec_u16_from_le_bytes, spec_u16_to_le_bytes, spec_u32_from_le_bytes,
    spec_u32_to_le_bytes};
use vstd::bytes::{u16_from_le_bytes, u16_to_le_bytes, u32_from_le_bytes, u32_to_le_bytes};
use vstd::slice::{slice_subrange, slice_to_vec};
use crate::node::{Attribute, AttributeModel, Node, NodeModel, attr_wf, attrs_model, node_model,
    node_wf, nodes_model, lemma_nodes_model};

/// Length-field value that starts a node record.
pub const START_MARKER: u32 = 0x0000_0000;

/// Length-field value that ends a node record.
pub const END_MARKER: u32 = 0xFFFF_FFFF;

/// A structural fault in an incoming byte stream.
#[derive(Debug, Clone, Copy, PartialEq, Eq, Structural)]
pub enum FramingError {
    /// The stream ended before the outermost node was closed.
    Truncated,
    /// The stream did not open with the start-of-node marker.
    BadStartMarker,
    /// An attribute record announced fewer bytes than its id needs.
    BadAttributeLength,
    /// Bytes remained after the outermost node was closed.
    TrailingData,
}

// ---------------------------------------------------------------------------
// The encoding, as a mathematical function on tree models.
// ---------------------------------------------------------------------------

/// The wire form of one attribute: length field, id, payload.
pub open spec fn encoded_attr(a: AttributeModel) -> Seq<u8> {
    spec_u32_to_le_bytes((a.value.len() + 2) as u32) + spec_u16_to_le_bytes(a.id) + a.value
}

/// The wire form of a list of attributes, in order.
pub open spec fn encoded_attrs(s: Seq<AttributeModel>) -> Seq<u8>
    decreases s,
{
    if s.len() == 0 {
        Seq::empty()
    } else {
        encoded_attr(s.first()) + encoded_attrs(s.drop_first())
    }
}

/// The wire form of one node: start marker, id, attributes, children, end
/// marker.
pub open spec fn encoded_node(n: NodeModel) -> Seq<u8>
    decreases n,
{
    spec_u32_to_le_bytes(START_MARKER) + spec_u16_to_le_bytes(n.id) + encoded_attrs(n.attributes)
        + encoded_nodes(n.children) + spec_u32_to_le_bytes(END_MARKER)
}

/// The wire form of a list of sibling nodes, in order.
pub open spec fn encoded_nodes(s: Seq<NodeModel>) -> Seq<u8>
    decreases s,
{
    if s.len() == 0 {
        Seq::empty()
    } else {
        encoded_node(s.first()) + encoded_nodes(s.drop_first())
    }
}

/// The encoding of a list splits at any point into the encodings of the
/// prefix and of the suffix.
pub proof fn lemma_encoded_attrs_split(s: Seq<AttributeModel>, k: int)
    requires
        0 <= k <= s.len(),
    ensures
        encoded_attrs(s) == encoded_attrs(s.take(k)) + encoded_attrs(s.skip(k)),
    decreases k,
{
    if k == 0 {
        assert(s.take(0) =~= Seq::<AttributeModel>::empty());
        assert(s.skip(0) =~= s);
        assert(encoded_attrs(s) =~= encoded_attrs(s.take(0)) + encoded_attrs(s.skip(0)));
    } else {
        let rest = s.drop_first();
        lemma_encoded_attrs_split(rest, k - 1);
        assert(s.take(k).first() == s.first());
        assert(s.take(k).drop_first() =~= rest.take(k - 1));
        assert(s.skip(k) =~= rest.skip(k - 1));
        assert(encoded_attrs(s) =~= encoded_attrs(s.take(k)) + encoded_attrs(s.skip(k)));
    }
}

/// The same split for sibling-node encodings.
pub proof fn lemma_encoded_nodes_split(s: Seq<NodeModel>, k: int)
    requires
        0 <= k <= s.len(),
    ensures
        encoded_nodes(s) == encoded_nodes(s.take(k)) + encoded_nodes(s.skip(k)),
    decreases k,
{
    if k == 0 {
        assert(s.take(0) =~= Seq::<NodeModel>::empty());
        assert(s.skip(0) =~= s);
        assert(encoded_nodes(s) =~= encoded_nodes(s.take(0)) + encoded_nodes(s.skip(0)));
    } else {
        let rest = s.drop_first();
        lemma_encoded_nodes_split(rest, k - 1);
        assert(s.take(k).first() == s.first());
        assert(s.take(k).drop_first() =~= rest.take(k - 1));
        assert(s.skip(k) =~= rest.skip(k - 1));
        assert(encoded_nodes(s) =~= encoded_nodes(s.take(k)) + encoded_nodes(s.skip(k)));
    }
}

/// The encoding of a one-element list is the element's encoding.
pub proof fn lemma_encoded_attrs_one(a: AttributeModel)
    ensures
        encoded_attrs(seq![a]) == encoded_attr(a),
{
    reveal_with_fuel(encoded_attrs, 2);
    assert(seq![a].drop_first() =~= Seq::<AttributeModel>::empty());
    assert(encoded_attrs(seq![a]) =~= encoded_attr(a));
}

/// The encoding of a one-element sibling list is the node's encoding.
pub proof fn lemma_encoded_nodes_one(n: NodeModel)
    ensures
        encoded_nodes(seq![n]) == encoded_node(n),
{
    reveal_with_fuel(encoded_nodes, 2);
    assert(seq![n].drop_first() =~= Seq::<NodeModel>::empty());
    assert(encoded_nodes(seq![n]) =~= encoded_node(n));
}

// ---------------------------------------------------------------------------
// The exec encoder.
// ---------------------------------------------------------------------------

/// Appends all of `b` to `out`.
fn push_bytes(out: &mut Vec<u8>, b: &[u8])
    ensures
        final(out)@ == old(out)@ + b@,
{
    let mut i: usize = 0;
    proof {
        assert(out@ =~= old(out)@ + b@.take(0));
    }
    while i < b.len()
        invariant
            0 <= i <= b@.len(),
            out@ == old(out)@ + b@.take(i as int),
        decreases b@.len() - i,
    {
        out.push(b[i]);
        proof {
            assert(old(out)@ + b@.take(i + 1) =~= (old(out)@ + b@.take(i as int)).push(
                b@[i as int],
            ));
        }
        i += 1;
    }
    proof {
        assert(b@.take(b@.len() as int) =~= b@);
    }
}

impl Node {
    /// Appends the wire form of this tree to `out`.
    pub fn encode_into(&self, out: &mut Vec<u8>)
        requires
            node_wf(self@),
        ensures
            final(out)@ == old(out)@ + encoded_node(self@),
        decreases *self,
    {
        let start = u32_to_le_bytes(START_MARKER);
        push_bytes(out, start.as_slice());
        let idb = u16_to_le_bytes(self.id);
        push_bytes(out, idb.as_slice());
        let ghost head = old(out)@ + spec_u32_to_le_bytes(START_MARKER) + spec_u16_to_le_bytes(
            self.id,
        );
        let ghost amodels = attrs_model(self.attributes@);
        let mut i: usize = 0;
        proof {
            assert(amodels.take(0) =~= Seq::<AttributeModel>::empty());
            assert(out@ =~= head + encoded_attrs(amodels.take(0)));
        }
        while i < self.attributes.len()
            invariant
                node_wf(self@),
                0 <= i <= self.attributes@.len(),
                amodels == attrs_model(self.attributes@),
                amodels == self@.attributes,
                head == old(out)@ + spec_u32_to_le_bytes(START_MARKER) + spec_u16_to_le_bytes(
                    self.id,
                ),
                out@ == head + encoded_attrs(amodels.take(i as int)),
            decreases self.attributes@.len() - i,
        {
            let a = &self.attributes[i];
            proof {
                assert(amodels[i as int] == a@);
                assert(crate::node::attr_wf(self@.attributes[i as int]));
            }
            let len_field: u32 = (a.value.len() as u32) + 2;
            let lenb = u32_to_le_bytes(len_field);
            push_bytes(out, lenb.as_slice());
            let aidb = u16_to_le_bytes(a.id);
            push_bytes(out, aidb.as_slice());
            push_bytes(out, a.value.as_slice());
            proof {
                lemma_encoded_attrs_split(amodels.take(i + 1), i as int);
                assert(amodels.take(i + 1).take(i as int) =~= amodels.take(i as int));
                assert(amodels.take(i + 1).skip(i as int) =~= seq![amodels[i as int]]);
                lemma_encoded_attrs_one(amodels[i as int]);
                assert(encoded_attr(a@) =~= spec_u32_to_le_bytes(len_field)
                    + spec_u16_to_le_bytes(a.id) + a.value@);
                assert(out@ =~= head + encoded_attrs(amodels.take(i + 1)));
            }
            i += 1;
        }
        proof {
            assert(amodels.take(amodels.len() as int) =~= amodels);
        }
        let ghost head2 = head + encoded_attrs(amodels);
        let ghost cmodels = nodes_model(self.children@);
        let mut j: usize = 0;
        proof {
            lemma_nodes_model(self.children@);
            assert(cmodels.take(0) =~= Seq::<NodeModel>::empty());
            assert(out@ =~= head2 + encoded_nodes(cmodels.take(0)));
        }
        while j < self.children.len()
            invariant
                node_wf(self@),
                0 <= j <= self.children@.len(),
                cmodels == nodes_model(self.children@),
                cmodels == self@.children,
                head2 == old(out)@ + spec_u32_to_le_bytes(START_MARKER) + spec_u16_to_le_bytes(
                    self.id,
                ) + encoded_attrs(self@.attributes),
                out@ == head2 + encoded_nodes(cmodels.take(j as int)),
            decreases self.children@.len() - j,
        {
            let c = &self.children[j];
            proof {
                lemma_nodes_model(self.children@);
                assert(cmodels[j as int] == c@);
                assert(node_wf(self@.children[j as int]));
            }
            c.encode_into(out);
            proof {
                lemma_encoded_nodes_split(cmodels.take(j + 1), j as int);
                assert(cmodels.take(j + 1).take(j as int) =~= cmodels.take(j as int));
                assert(cmodels.take(j + 1).skip(j as int) =~= seq![cmodels[j as int]]);
                lemma_encoded_nodes_one(cmodels[j as int]);
                assert(out@ =~= head2 + encoded_nodes(cmodels.take(j + 1)));
            }
            j += 1;
        }
        proof {
            assert(cmodels.take(cmodels.len() as int) =~= cmodels);
        }
        let endb = u32_to_le_bytes(END_MARKER);
        push_bytes(out, endb.as_slice());
        proof {
            assert(out@ =~= old(out)@ + encoded_node(self@));
        }
    }

    /// The wire form of this tree as a fresh byte vector.
    pub fn encode(&self) -> (r: Vec<u8>)
        requires
            node_wf(self@),
        ensures
            r@ == encoded_node(self@),
    {
        let mut out: Vec<u8> = Vec::new();
        self.encode_into(&mut out);
        proof {
            assert(Seq::<u8>::empty() + encoded_node(self@) =~= encoded_node(self@));
        }
        out
    }

    /// Whether every attribute payload in this tree fits the wire framing,
    /// so that the tree can be encoded.
    pub fn is_well_formed(&self) -> (b: bool)
        ensures
            b == node_wf(self@),
        decreases *self,
    {
        let mut i: usize = 0;
        while i < self.attributes.len()
            invariant
                0 <= i <= self.attributes@.len(),
                forall|k: int|
                    0 <= k < i ==> crate::node::attr_wf(#[trigger] self@.attributes[k]),
            decreases self.attributes@.len() - i,
        {
            if self.attributes[i].value.len() > crate::node::MAX_ATTRIBUTE_VALUE_LEN {
                proof {
                    assert(!crate::node::attr_wf(self@.attributes[i as int]));
                }
                return false;
            }
            i += 1;
        }
        let mut j: usize = 0;
        while j < self.children.len()
            invariant
                0 <= j <= self.children@.len(),
                forall|k: int| 0 <= k < self@.attributes.len() ==> crate::node::attr_wf(
                    #[trigger] self@.attributes[k],
                ),
                forall|k: int| 0 <= k < j ==> node_wf(#[trigger] self@.children[k]),
            decreases self.children@.len() - j,
        {
            proof {
                lemma_nodes_model(self.children@);
            }
            if !self.children[j].is_well_formed() {
                proof {
                    assert(!node_wf(self@.children[j as int]));
                }
                return false;
            }
            j += 1;
        }
        proof {
            lemma_nodes_model(self.children@);
        }
        true
    }
}

impl Attribute {
    /// Whether the payload fits the wire framing, so that the attribute can
    /// be encoded.
    pub fn is_well_formed(&self) -> (b: bool)
        ensures
            b == attr_wf(self@),
    {
        self.value.len() <= crate::node::MAX_ATTRIBUTE_VALUE_LEN
    }

    /// The wire form of this attribute record alone: length field, id,
    /// payload.
    pub fn encode(&self) -> (r: Vec<u8>)
        requires
            attr_wf(self@),
        ensures
            r@ == encoded_attr(self@),
    {
        let mut out: Vec<u8> = Vec::new();
        let lenb = u32_to_le_bytes((self.value.len() as u32) + 2);
        push_bytes(&mut out, lenb.as_slice());
        let idb = u16_to_le_bytes(self.id);
        push_bytes(&mut out, idb.as_slice());
        push_bytes(&mut out, self.value.as_slice());
        proof {
            assert(out@ =~= encoded_attr(self@));
        }
        out
    }
}

// ---------------------------------------------------------------------------
// The decoding machine, as a mathematical step function, and the exec
// decoder that implements it.
// ---------------------------------------------------------------------------

/// What the parsing machine is waiting for.
pub enum MachineMode {
    /// The next four bytes are a length field.
    WantLen,
    /// The next two bytes are the id of a just-opened node.
    WantId,
    /// The next `total` bytes are an attribute record body.
    WantAttr { total: u32 },
    /// The outermost node has been closed.
    Complete { root: NodeModel },
    /// The stream is structurally invalid.
    Failed { error: FramingError },
}

/// The parsing machine: a mode and the stack of open nodes, outermost
/// first.
#[verifier::ext_equal]
pub struct MachineState {
    pub mode: MachineMode,
    pub stack: Seq<NodeModel>,
}

/// The machine before any byte has been consumed.
pub open spec fn machine_init() -> MachineState {
    MachineState { mode: MachineMode::WantLen, stack: Seq::empty() }
}

/// How many bytes the machine consumes in its next step; zero once it has
/// completed or failed.
pub open spec fn needed_bytes(m: MachineMode) -> nat {
    match m {
        MachineMode::WantLen => 4,
        MachineMode::WantId => 2,
        MachineMode::WantAttr { total } => total as nat,
        MachineMode::Complete { .. } => 0,
        MachineMode::Failed { .. } => 0,
    }
}

/// One machine step on a chunk of exactly `needed_bytes` bytes.
pub open spec fn machine_step(s: MachineState, chunk: Seq<u8>) -> MachineState
    recommends
        chunk.len() == needed_bytes(s.mode),
{
    match s.mode {
        MachineMode::WantLen => {
            let len = spec_u32_from_le_bytes(chunk);
            if s.stack.len() == 0 {
                if len == START_MARKER {
                    MachineState { mode: MachineMode::WantId, stack: s.stack }
                } else {
                    MachineState {
                        mode: MachineMode::Failed { error: FramingError::BadStartMarker },
                        stack: s.stack,
                    }
                }
            } else if len == START_MARKER {
                MachineState { mode: MachineMode::WantId, stack: s.stack }
            } else if len == END_MARKER {
                let child = s.stack.last();
                if s.stack.len() == 1 {
                    MachineState {
                        mode: MachineMode::Complete { root: child },
                        stack: s.stack.drop_last(),
                    }
                } else {
                    let parent = s.stack[s.stack.len() - 2];
                    MachineState {
                        mode: MachineMode::WantLen,
                        stack: s.stack.drop_last().drop_last().push(
                            NodeModel {
                                id: parent.id,
                                attributes: parent.attributes,
                                children: parent.children.push(child),
                            },
                        ),
                    }
                }
            } else if len == 1 {
                MachineState {
                    mode: MachineMode::Failed { error: FramingError::BadAttributeLength },
                    stack: s.stack,
                }
            } else {
                MachineState { mode: MachineMode::WantAttr { total: len }, stack: s.stack }
            }
        },
        MachineMode::WantId => MachineState {
            mode: MachineMode::WantLen,
            stack: s.stack.push(
                NodeModel {
                    id: spec_u16_from_le_bytes(chunk),
                    attributes: Seq::empty(),
                    children: Seq::empty(),
                },
            ),
        },
        MachineMode::WantAttr { total } => {
            if s.stack.len() == 0 || chunk.len() < 2 {
                MachineState {
                    mode: MachineMode::Failed { error: FramingError::BadAttributeLength },
                    stack: s.stack,
                }
            } else {
                let attr = AttributeModel {
                    id: spec_u16_from_le_bytes(chunk.take(2)),
                    value: chunk.skip(2),
                };
                let top = s.stack.last();
                MachineState {
                    mode: MachineMode::WantLen,
                    stack: s.stack.drop_last().push(
                        NodeModel {
                            id: top.id,
                            attributes: top.attributes.push(attr),
                            children: top.children,
                        },
                    ),
                }
            }
        },
        MachineMode::Complete { .. } => s,
        MachineMode::Failed { .. } => s,
    }
}

/// Runs the machine over `bytes` from `pos` until it completes, fails, or
/// runs out of input; a completed machine must also have consumed the whole
/// input.
pub open spec fn run_machine(bytes: Seq<u8>, pos: int, s: MachineState) -> Result<
    NodeModel,
    FramingError,
>
    decreases bytes.len() - pos,
{
    let n = needed_bytes(s.mode) as int;
    if n == 0 {
        match s.mode {
            MachineMode::Complete { root } => if pos == bytes.len() {
                Ok(root)
            } else {
                Err(FramingError::TrailingData)
            },
            MachineMode::Failed { error } => Err(error),
            _ => Err(FramingError::Truncated),
        }
    } else if pos + n > bytes.len() {
        Err(FramingError::Truncated)
    } else {
        run_machine(bytes, pos + n, machine_step(s, bytes.subrange(pos, pos + n)))
    }
}

/// What decoding a complete byte message yields.
pub open spec fn spec_decode(bytes: Seq<u8>) -> Result<NodeModel, FramingError> {
    run_machine(bytes, 0, machine_init())
}

/// What the decoder is waiting for; mirrors [`MachineMode`] with an
/// executable tree.
pub enum DecoderMode {
    WantLen,
    WantId,
    WantAttr { total: u32 },
    Complete { root: Node },
    Failed { error: FramingError },
}

/// The model of a decoder mode.
pub open spec fn mode_model(m: DecoderMode) -> MachineMode {
    match m {
        DecoderMode::WantLen => MachineMode::WantLen,
        DecoderMode::WantId => MachineMode::WantId,
        DecoderMode::WantAttr { total } => MachineMode::WantAttr { total },
        DecoderMode::Complete { root } => MachineMode::Complete { root: node_model(root) },
        DecoderMode::Failed { error } => MachineMode::Failed { error },
    }
}

/// An incremental decoder: ask [`Decoder::needed`] how many bytes come
/// next, hand exactly that many to [`Decoder::feed`], and take the tree
/// with [`Decoder::into_result`] once no more bytes are needed.
pub struct Decoder {
    stack: Vec<Node>,
    mode: DecoderMode,
}

impl View for Decoder {
    type V = MachineState;

    closed spec fn view(&self) -> MachineState {
        MachineState { mode: mode_model(self.mode), stack: nodes_model(self.stack@) }
    }
}

impl Decoder {
    /// A decoder that has consumed nothing.
    pub fn new() -> (r: Decoder)
        ensures
            r@ == machine_init(),
    {
        let r = Decoder { stack: Vec::new(), mode: DecoderMode::WantLen };
        proof {
            assert(r@.stack =~= machine_init().stack);
            assert(r@ =~= machine_init());
        }
        r
    }

    /// How many bytes the decoder consumes next; zero once it has completed
    /// or failed.
    pub fn needed(&self) -> (n: usize)
        ensures
            n == needed_bytes(self@.mode),
    {
        match self.mode {
            DecoderMode::WantLen => 4,
            DecoderMode::WantId => 2,
            DecoderMode::WantAttr { total } => total as usize,
            DecoderMode::Complete { .. } => 0,
            DecoderMode::Failed { .. } => 0,
        }
    }

    /// Consumes the next chunk, which must hold exactly the needed bytes.
    pub fn feed(&mut self, chunk: &[u8])
        requires
            needed_bytes(old(self)@.mode) > 0,
            chunk@.len() == needed_bytes(old(self)@.mode),
        ensures
            final(self)@ == machine_step(old(self)@, chunk@),
    {
        let ghost pre = self@;
        match self.mode {
            DecoderMode::WantLen => {
                let len = u32_from_le_bytes(chunk);
                if self.stack.len() == 0 {
                    proof {
                        lemma_nodes_model(self.stack@);
                    }
                    if len == START_MARKER {
                        self.mode = DecoderMode::WantId;
                    } else {
                        self.mode = DecoderMode::Failed { error: FramingError::BadStartMarker };
                    }
                    proof {
                        assert(self@ =~~= machine_step(pre, chunk@));
                    }
                } else if len == START_MARKER {
                    proof {
                        lemma_nodes_model(self.stack@);
                    }
                    self.mode = DecoderMode::WantId;
                    proof {
                        assert(self@ =~~= machine_step(pre, chunk@));
                    }
                } else if len == END_MARKER {
                    let ghost s0 = self.stack@;
                    proof {
                        lemma_nodes_model(s0);
                    }
                    let child = self.stack.pop().unwrap();
                    if self.stack.len() == 0 {
                        self.mode = DecoderMode::Complete { root: child };
                        proof {
                            lemma_nodes_model(self.stack@);
                            assert(nodes_model(s0).last() == node_model(child));
                            assert(self@.stack =~= pre.stack.drop_last());
                            assert(self@ =~~= machine_step(pre, chunk@));
                        }
                    } else {
                        let mut parent = self.stack.pop().unwrap();
                        let ghost pc = parent.children@;
                        parent.children.push(child);
                        proof {
                            lemma_nodes_model(pc);
                            lemma_nodes_model(pc.push(child));
                            assert(nodes_model(pc.push(child)) =~= nodes_model(pc).push(
                                node_model(child),
                            ));
                        }
                        self.stack.push(parent);
                        proof {
                            lemma_nodes_model(s0);
                            lemma_nodes_model(self.stack@);
                            assert(self.stack@ =~= s0.drop_last().drop_last().push(parent));
                            let spec_stack = pre.stack.drop_last().drop_last().push(
                                NodeModel {
                                    id: pre.stack[pre.stack.len() - 2].id,
                                    attributes: pre.stack[pre.stack.len() - 2].attributes,
                                    children: pre.stack[pre.stack.len() - 2].children.push(
                                        pre.stack.last(),
                                    ),
                                },
                            );
                            assert(nodes_model(s0)[s0.len() - 2] == node_model(s0[s0.len() - 2]));
                            assert(node_model(parent) =~= spec_stack.last());
                            assert(self@.stack =~= spec_stack);
                            assert(self@ =~~= machine_step(pre, chunk@));
                        }
                    }
                } else if len == 1 {
                    self.mode = DecoderMode::Failed { error: FramingError::BadAttributeLength };
                    proof {
                        assert(self@ =~~= machine_step(pre, chunk@));
                    }
                } else {
                    self.mode = DecoderMode::WantAttr { total: len };
                    proof {
                        assert(self@ =~~= machine_step(pre, chunk@));
                    }
                }
            },
            DecoderMode::WantId => {
                let id = u16_from_le_bytes(chunk);
                let ghost s0 = self.stack@;
                self.stack.push(Node { id, attributes: Vec::new(), children: Vec::new() });
                self.mode = DecoderMode::WantLen;
                proof {
                    lemma_nodes_model(s0);
                    lemma_nodes_model(self.stack@);
                    assert(node_model(self.stack@.last()) =~= NodeModel {
                        id: spec_u16_from_le_bytes(chunk@),
                        attributes: Seq::empty(),
                        children: Seq::empty(),
                    });
                    assert(self@.stack =~= pre.stack.push(
                        NodeModel {
                            id: spec_u16_from_le_bytes(chunk@),
                            attributes: Seq::empty(),
                            children: Seq::empty(),
                        },
                    ));
                    assert(self@ =~~= machine_step(pre, chunk@));
                }
            },
            DecoderMode::WantAttr { total } => {
                proof {
                    lemma_nodes_model(self.stack@);
                }
                if self.stack.len() == 0 || chunk.len() < 2 {
                    self.mode = DecoderMode::Failed { error: FramingError::BadAttributeLength };
                    proof {
                        assert(self@ =~~= machine_step(pre, chunk@));
                    }
                } else {
                    let a_id = u16_from_le_bytes(slice_subrange(chunk, 0, 2));
                    let val = slice_to_vec(slice_subrange(chunk, 2, chunk.len()));
                    let ghost s0 = self.stack@;
                    proof {
                        lemma_nodes_model(s0);
                    }
                    let mut top = self.stack.pop().unwrap();
                    let ghost ta = top.attributes@;
                    top.attributes.push(Attribute { id: a_id, value: val });
                    proof {
                        assert(attrs_model(top.attributes@) =~= attrs_model(ta).push(
                            AttributeModel {
                                id: spec_u16_from_le_bytes(chunk@.take(2)),
                                value: chunk@.skip(2),
                            },
                        )) by {
                            assert(chunk@.subrange(0, 2) =~= chunk@.take(2));
                            assert(chunk@.subrange(2, chunk@.len() as int) =~= chunk@.skip(2));
                        }
                    }
                    self.stack.push(top);
                    self.mode = DecoderMode::WantLen;
                    proof {
                        lemma_nodes_model(self.stack@);
                        let spec_top = pre.stack.last();
                        let spec_new = NodeModel {
                            id: spec_top.id,
                            attributes: spec_top.attributes.push(
                                AttributeModel {
                                    id: spec_u16_from_le_bytes(chunk@.take(2)),
                                    value: chunk@.skip(2),
                                },
                            ),
                            children: spec_top.children,
                        };
                        assert(nodes_model(s0).last() == node_model(s0.last()));
                        assert(node_model(top) =~= spec_new);
                        assert(self@.stack =~= pre.stack.drop_last().push(spec_new));
                        assert(self@ =~~= machine_step(pre, chunk@));
                    }
                }
            },
            DecoderMode::Complete { .. } => {
            },
            DecoderMode::Failed { .. } => {
            },
        }
    }

    /// The decoded tree, or the fault, once no more bytes are needed.
    pub fn into_result(self) -> (r: Result<Node, FramingError>)
        requires
            needed_bytes(self@.mode) == 0,
        ensures
            (self@.mode matches MachineMode::Complete { root } ==> r matches Ok(n) && n@ == root),
            (self@.mode matches MachineMode::Failed { error } ==> r == Err::<Node, FramingError>(
                error,
            )),
            !(self@.mode matches MachineMode::Complete { .. }) && !(
            self@.mode matches MachineMode::Failed { .. }) ==> r == Err::<Node, FramingError>(
                FramingError::Truncated,
            ),
    {
        match self.mode {
            DecoderMode::Complete { root } => Ok(root),
            DecoderMode::Failed { error } => Err(error),
            _ => Err(FramingError::Truncated),
        }
    }
}

// ---------------------------------------------------------------------------
// The round-trip law: the machine, run over the encoding of a well-formed
// tree, reproduces the tree.
// ---------------------------------------------------------------------------

/// A window into a window: taking a subrange of a subrange reads the same
/// bytes as reading the outer sequence directly.
proof fn lemma_subrange_of_subrange(bytes: Seq<u8>, pos: int, len: int, x: int, y: int)
    requires
        0 <= pos,
        pos + len <= bytes.len(),
        0 <= x <= y <= len,
    ensures
        bytes.subrange(pos + x, pos + y) == bytes.subrange(pos, pos + len).subrange(x, y),
{
    assert(bytes.subrange(pos + x, pos + y) =~= bytes.subrange(pos, pos + len).subrange(x, y));
}

/// Consuming one encoded attribute from a waiting machine appends it to the
/// attributes of the topmost open node.
proof fn lemma_machine_runs_attr(bytes: Seq<u8>, pos: int, s: MachineState, a: AttributeModel)
    requires
        s.mode is WantLen,
        s.stack.len() >= 1,
        crate::node::attr_wf(a),
        0 <= pos,
        pos + encoded_attr(a).len() <= bytes.len(),
        bytes.subrange(pos, pos + encoded_attr(a).len()) == encoded_attr(a),
    ensures
        ({
            let top = s.stack.last();
            run_machine(bytes, pos, s) == run_machine(
                bytes,
                pos + encoded_attr(a).len(),
                MachineState {
                    mode: MachineMode::WantLen,
                    stack: s.stack.drop_last().push(
                        NodeModel {
                            id: top.id,
                            attributes: top.attributes.push(a),
                            children: top.children,
                        },
                    ),
                },
            )
        }),
{
    vstd::bytes::lemma_auto_spec_u32_to_from_le_bytes();
    vstd::bytes::lemma_auto_spec_u16_to_from_le_bytes();
    let enc = encoded_attr(a);
    let lf: u32 = (a.value.len() + 2) as u32;
    assert(2 <= lf <= 0xFFFF_FFFE);
    assert(enc.len() == 4 + 2 + a.value.len());
    let chunk1 = bytes.subrange(pos, pos + 4);
    lemma_subrange_of_subrange(bytes, pos, enc.len() as int, 0, 4);
    assert(chunk1 =~= spec_u32_to_le_bytes(lf));
    assert(spec_u32_from_le_bytes(chunk1) == lf);
    let s1 = machine_step(s, chunk1);
    assert(s1.mode == (MachineMode::WantAttr { total: lf }));
    assert(run_machine(bytes, pos, s) == run_machine(bytes, pos + 4, s1));
    let chunk2 = bytes.subrange(pos + 4, pos + enc.len());
    lemma_subrange_of_subrange(bytes, pos, enc.len() as int, 4, enc.len() as int);
    assert(chunk2 =~= spec_u16_to_le_bytes(a.id) + a.value);
    assert(chunk2.take(2) =~= spec_u16_to_le_bytes(a.id));
    assert(chunk2.skip(2) =~= a.value);
    let s2 = machine_step(s1, chunk2);
    let top = s.stack.last();
    assert(s2 =~~= MachineState {
        mode: MachineMode::WantLen,
        stack: s.stack.drop_last().push(
            NodeModel { id: top.id, attributes: top.attributes.push(a), children: top.children },
        ),
    });
    assert(run_machine(bytes, pos + 4, s1) == run_machine(bytes, pos + enc.len(), s2));
}

/// Consuming an encoded attribute list appends it, in order, to the
/// attributes of the topmost open node.
proof fn lemma_machine_runs_attrs(bytes: Seq<u8>, pos: int, s: MachineState, attrs: Seq<
    AttributeModel,
>)
    requires
        s.mode is WantLen,
        s.stack.len() >= 1,
        forall|i: int| 0 <= i < attrs.len() ==> crate::node::attr_wf(#[trigger] attrs[i]),
        0 <= pos,
        pos + encoded_attrs(attrs).len() <= bytes.len(),
        bytes.subrange(pos, pos + encoded_attrs(attrs).len()) == encoded_attrs(attrs),
    ensures
        ({
            let top = s.stack.last();
            run_machine(bytes, pos, s) == run_machine(
                bytes,
                pos + encoded_attrs(attrs).len(),
                MachineState {
                    mode: MachineMode::WantLen,
                    stack: s.stack.drop_last().push(
                        NodeModel {
                            id: top.id,
                            attributes: top.attributes + attrs,
                            children: top.children,
                        },
                    ),
                },
            )
        }),
    decreases attrs.len(),
{
    let top = s.stack.last();
    if attrs.len() == 0 {
        assert(s.stack.drop_last().push(
            NodeModel {
                id: top.id,
                attributes: top.attributes + attrs,
                children: top.children,
            },
        ) =~~= s.stack);
    } else {
        let a0 = attrs.first();
        let rest = attrs.drop_first();
        let e0 = encoded_attr(a0);
        let erest = encoded_attrs(rest);
        assert(encoded_attrs(attrs) == e0 + erest);
        lemma_subrange_of_subrange(bytes, pos, encoded_attrs(attrs).len() as int, 0, e0.len() as int);
        assert(bytes.subrange(pos, pos + e0.len()) =~= e0);
        lemma_machine_runs_attr(bytes, pos, s, a0);
        let s1 = MachineState {
            mode: MachineMode::WantLen,
            stack: s.stack.drop_last().push(
                NodeModel {
                    id: top.id,
                    attributes: top.attributes.push(a0),
                    children: top.children,
                },
            ),
        };
        lemma_subrange_of_subrange(
            bytes,
            pos,
            encoded_attrs(attrs).len() as int,
            e0.len() as int,
            encoded_attrs(attrs).len() as int,
        );
        assert(bytes.subrange(pos + e0.len(), pos + encoded_attrs(attrs).len()) =~= erest);
        lemma_machine_runs_attrs(bytes, pos + e0.len(), s1, rest);
        assert(s1.stack.last() == NodeModel {
            id: top.id,
            attributes: top.attributes.push(a0),
            children: top.children,
        });
        assert(s1.stack.drop_last() =~= s.stack.drop_last());
        assert(s1.stack.drop_last().push(
            NodeModel {
                id: top.id,
                attributes: top.attributes.push(a0) + rest,
                children: top.children,
            },
        ) =~~= s.stack.drop_last().push(
            NodeModel {
                id: top.id,
                attributes: top.attributes + attrs,
                children: top.children,
            },
        )) by {
            assert(top.attributes.push(a0) + rest =~= top.attributes + attrs);
        }
    }
}

/// Consuming one encoded subtree appends it to the children of the topmost
/// open node.
proof fn lemma_machine_runs_node(bytes: Seq<u8>, pos: int, s: MachineState, v: NodeModel)
    requires
        s.mode is WantLen,
        s.stack.len() >= 1,
        node_wf(v),
        0 <= pos,
        pos + encoded_node(v).len() <= bytes.len(),
        bytes.subrange(pos, pos + encoded_node(v).len()) == encoded_node(v),
    ensures
        ({
            let top = s.stack.last();
            run_machine(bytes, pos, s) == run_machine(
                bytes,
                pos + encoded_node(v).len(),
                MachineState {
                    mode: MachineMode::WantLen,
                    stack: s.stack.drop_last().push(
                        NodeModel {
                            id: top.id,
                            attributes: top.attributes,
                            children: top.children.push(v),
                        },
                    ),
                },
            )
        }),
    decreases v,
{
    vstd::bytes::lemma_auto_spec_u32_to_from_le_bytes();
    vstd::bytes::lemma_auto_spec_u16_to_from_le_bytes();
    let enc = encoded_node(v);
    let ea = encoded_attrs(v.attributes);
    let ec = encoded_nodes(v.children);
    assert(enc.len() == 4 + 2 + ea.len() + ec.len() + 4);
    // start marker
    let chunk1 = bytes.subrange(pos, pos + 4);
    lemma_subrange_of_subrange(bytes, pos, enc.len() as int, 0, 4);
    assert(chunk1 =~= spec_u32_to_le_bytes(START_MARKER));
    let s1 = machine_step(s, chunk1);
    assert(s1 == MachineState { mode: MachineMode::WantId, stack: s.stack });
    assert(run_machine(bytes, pos, s) == run_machine(bytes, pos + 4, s1));
    // node id
    let chunk2 = bytes.subrange(pos + 4, pos + 6);
    lemma_subrange_of_subrange(bytes, pos, enc.len() as int, 4, 6);
    assert(chunk2 =~= spec_u16_to_le_bytes(v.id));
    let shell = NodeModel { id: v.id, attributes: Seq::empty(), children: Seq::empty() };
    let s2 = machine_step(s1, chunk2);
    assert(s2 =~~= MachineState { mode: MachineMode::WantLen, stack: s.stack.push(shell) });
    assert(run_machine(bytes, pos + 4, s1) == run_machine(bytes, pos + 6, s2));
    // attributes
    let s2n = MachineState { mode: MachineMode::WantLen, stack: s.stack.push(shell) };
    lemma_subrange_of_subrange(bytes, pos, enc.len() as int, 6, 6 + ea.len() as int);
    assert(bytes.subrange(pos + 6, pos + 6 + ea.len() as int) =~= ea);
    lemma_machine_runs_attrs(bytes, pos + 6, s2n, v.attributes);
    let shell_a = NodeModel {
        id: v.id,
        attributes: Seq::<AttributeModel>::empty() + v.attributes,
        children: Seq::empty(),
    };
    let s3 = MachineState {
        mode: MachineMode::WantLen,
        stack: s.stack.push(shell).drop_last().push(shell_a),
    };
    assert(s.stack.push(shell).drop_last() =~= s.stack);
    // children
    lemma_subrange_of_subrange(
        bytes,
        pos,
        enc.len() as int,
        6 + ea.len() as int,
        6 + ea.len() as int + ec.len() as int,
    );
    assert(bytes.subrange(pos + 6 + ea.len() as int, pos + 6 + ea.len() as int + ec.len() as int)
        =~= ec);
    let s3n = MachineState { mode: MachineMode::WantLen, stack: s.stack.push(shell_a) };
    assert(s3 =~~= s3n);
    lemma_machine_runs_children(bytes, pos + 6 + ea.len(), s3n, v.children);
    let shell_c = NodeModel {
        id: v.id,
        attributes: Seq::<AttributeModel>::empty() + v.attributes,
        children: Seq::<NodeModel>::empty() + v.children,
    };
    let s4 = MachineState {
        mode: MachineMode::WantLen,
        stack: s.stack.push(shell_a).drop_last().push(shell_c),
    };
    assert(s.stack.push(shell_a).drop_last() =~= s.stack);
    let s4n = MachineState { mode: MachineMode::WantLen, stack: s.stack.push(shell_c) };
    assert(s4 =~~= s4n);
    // end marker
    let endpos: int = pos + 6 + ea.len() as int + ec.len() as int;
    let chunk5 = bytes.subrange(endpos, endpos + 4);
    lemma_subrange_of_subrange(
        bytes,
        pos,
        enc.len() as int,
        6 + ea.len() as int + ec.len() as int,
        enc.len() as int,
    );
    assert(chunk5 =~= spec_u32_to_le_bytes(END_MARKER));
    let s5 = machine_step(s4n, chunk5);
    assert(run_machine(bytes, endpos, s4n) == run_machine(bytes, endpos + 4, s5));
    let top = s.stack.last();
    assert(s4n.stack.len() >= 2);
    assert(s4n.stack.last() == shell_c);
    assert(s4n.stack[s4n.stack.len() - 2] == top);
    assert(s5 =~~= MachineState {
        mode: MachineMode::WantLen,
        stack: s.stack.drop_last().push(
            NodeModel {
                id: top.id,
                attributes: top.attributes,
                children: top.children.push(v),
            },
        ),
    }) by {
        assert(s4n.stack.drop_last().drop_last() =~= s.stack.drop_last());
        assert(shell_c =~~= v);
    }
}

/// Consuming an encoded sibling list appends it, in order, to the children
/// of the topmost open node.
proof fn lemma_machine_runs_children(bytes: Seq<u8>, pos: int, s: MachineState, cs: Seq<NodeModel>)
    requires
        s.mode is WantLen,
        s.stack.len() >= 1,
        forall|i: int| 0 <= i < cs.len() ==> node_wf(#[trigger] cs[i]),
        0 <= pos,
        pos + encoded_nodes(cs).len() <= bytes.len(),
        bytes.subrange(pos, pos + encoded_nodes(cs).len()) == encoded_nodes(cs),
    ensures
        ({
            let top = s.stack.last();
            run_machine(bytes, pos, s) == run_machine(
                bytes,
                pos + encoded_nodes(cs).len(),
                MachineState {
                    mode: MachineMode::WantLen,
                    stack: s.stack.drop_last().push(
                        NodeModel {
                            id: top.id,
                            attributes: top.attributes,
                            children: top.children + cs,
                        },
                    ),
                },
            )
        }),
    decreases cs,
{
    let top = s.stack.last();
    if cs.len() == 0 {
        assert(s.stack.drop_last().push(
            NodeModel { id: top.id, attributes: top.attributes, children: top.children + cs },
        ) =~~= s.stack);
    } else {
        let c0 = cs.first();
        let rest = cs.drop_first();
        let e0 = encoded_node(c0);
        let erest = encoded_nodes(rest);
        assert(encoded_nodes(cs) == e0 + erest);
        lemma_subrange_of_subrange(bytes, pos, encoded_nodes(cs).len() as int, 0, e0.len() as int);
        assert(bytes.subrange(pos, pos + e0.len()) =~= e0);
        lemma_machine_runs_node(bytes, pos, s, c0);
        let s1 = MachineState {
            mode: MachineMode::WantLen,
            stack: s.stack.drop_last().push(
                NodeModel {
                    id: top.id,
                    attributes: top.attributes,
                    children: top.children.push(c0),
                },
            ),
        };
        lemma_subrange_of_subrange(
            bytes,
            pos,
            encoded_nodes(cs).len() as int,
            e0.len() as int,
            encoded_nodes(cs).len() as int,
        );
        assert(bytes.subrange(pos + e0.len(), pos + encoded_nodes(cs).len()) =~= erest);
        lemma_machine_runs_children(bytes, pos + e0.len(), s1, rest);
        assert(s1.stack.drop_last() =~= s.stack.drop_last());
        assert(s1.stack.drop_last().push(
            NodeModel {
                id: top.id,
                attributes: top.attributes,
                children: top.children.push(c0) + rest,
            },
        ) =~~= s.stack.drop_last().push(
            NodeModel {
                id: top.id,
                attributes: top.attributes,
                children: top.children + cs,
            },
        )) by {
            assert(top.children.push(c0) + rest =~= top.children + cs);
        }
    }
}

/// Round trip: decoding the encoding of a well-formed tree yields exactly
/// the tree back.
pub proof fn lemma_decode_encode_round_trip(v: NodeModel)
    requires
        node_wf(v),
    ensures
        spec_decode(encoded_node(v)) == Ok::<NodeModel, FramingError>(v),
{
    vstd::bytes::lemma_auto_spec_u32_to_from_le_bytes();
    vstd::bytes::lemma_auto_spec_u16_to_from_le_bytes();
    let bytes = encoded_node(v);
    let ea = encoded_attrs(v.attributes);
    let ec = encoded_nodes(v.children);
    assert(bytes.len() == 4 + 2 + ea.len() + ec.len() + 4);
    let s0 = machine_init();
    // start marker
    let chunk1 = bytes.subrange(0, 4);
    assert(chunk1 =~= spec_u32_to_le_bytes(START_MARKER));
    let s1 = machine_step(s0, chunk1);
    assert(s1 == MachineState { mode: MachineMode::WantId, stack: s0.stack });
    assert(run_machine(bytes, 0, s0) == run_machine(bytes, 4, s1));
    // root id
    let chunk2 = bytes.subrange(4, 6);
    assert(chunk2 =~= spec_u16_to_le_bytes(v.id));
    let shell = NodeModel { id: v.id, attributes: Seq::empty(), children: Seq::empty() };
    let s2 = machine_step(s1, chunk2);
    let s2n = MachineState { mode: MachineMode::WantLen, stack: seq![shell] };
    assert(s2 =~~= s2n);
    assert(run_machine(bytes, 4, s1) == run_machine(bytes, 6, s2));
    // attributes
    lemma_subrange_of_subrange(bytes, 0, bytes.len() as int, 6, 6 + ea.len() as int);
    assert(bytes.subrange(0, bytes.len() as int) =~= bytes);
    assert(bytes.subrange(6, 6 + ea.len() as int) =~= ea);
    lemma_machine_runs_attrs(bytes, 6, s2n, v.attributes);
    let shell_a = NodeModel {
        id: v.id,
        attributes: Seq::<AttributeModel>::empty() + v.attributes,
        children: Seq::empty(),
    };
    let s3n = MachineState { mode: MachineMode::WantLen, stack: seq![shell_a] };
    assert(s2n.stack.drop_last().push(shell_a) =~= seq![shell_a]);
    // children
    let cpos: int = 6 + ea.len() as int;
    assert(bytes.subrange(cpos, cpos + ec.len()) =~= ec);
    lemma_machine_runs_children(bytes, cpos, s3n, v.children);
    let shell_c = NodeModel {
        id: v.id,
        attributes: Seq::<AttributeModel>::empty() + v.attributes,
        children: Seq::<NodeModel>::empty() + v.children,
    };
    let s4n = MachineState { mode: MachineMode::WantLen, stack: seq![shell_c] };
    assert(s3n.stack.drop_last().push(shell_c) =~= seq![shell_c]);
    // end marker
    let endpos: int = cpos + ec.len() as int;
    let chunk5 = bytes.subrange(endpos, endpos + 4);
    assert(chunk5 =~= spec_u32_to_le_bytes(END_MARKER));
    let s5 = machine_step(s4n, chunk5);
    assert(run_machine(bytes, endpos, s4n) == run_machine(bytes, endpos + 4, s5));
    assert(s5.mode matches MachineMode::Complete { root } && root =~~= v);
    assert(endpos + 4 == bytes.len());
    assert(run_machine(bytes, endpos + 4, s5) == Ok::<NodeModel, FramingError>(v));
}

/// Every node on the machine's stack, and a completed root, stays
/// well-formed: an attribute read from the wire fits the framing again.
proof fn lemma_run_machine_wf(bytes: Seq<u8>, pos: int, s: MachineState)
    requires
        0 <= pos,
        forall|i: int| 0 <= i < s.stack.len() ==> node_wf(#[trigger] s.stack[i]),
        (s.mode matches MachineMode::Complete { root } ==> node_wf(root)),
        (s.mode matches MachineMode::WantAttr { total } ==> total <= 0xFFFF_FFFEu32),
    ensures
        (run_machine(bytes, pos, s) matches Ok(root) ==> node_wf(root)),
    decreases bytes.len() - pos,
{
    let n = needed_bytes(s.mode) as int;
    if n == 0 || pos + n > bytes.len() {
    } else {
        let chunk = bytes.subrange(pos, pos + n);
        let s2 = machine_step(s, chunk);
        match s.mode {
            MachineMode::WantLen => {
                let len = spec_u32_from_le_bytes(chunk);
                if s.stack.len() > 0 && len == END_MARKER && s.stack.len() > 1 {
                    let child = s.stack.last();
                    let parent = s.stack[s.stack.len() - 2];
                    let merged = NodeModel {
                        id: parent.id,
                        attributes: parent.attributes,
                        children: parent.children.push(child),
                    };
                    assert(node_wf(merged)) by {
                        assert(forall|i: int|
                            0 <= i < parent.children.len() ==> merged.children[i]
                                == parent.children[i]);
                        assert(merged.children.last() == child);
                    }
                }
            },
            MachineMode::WantId => {
                let shell = NodeModel {
                    id: spec_u16_from_le_bytes(chunk),
                    attributes: Seq::empty(),
                    children: Seq::empty(),
                };
                assert(node_wf(shell));
            },
            MachineMode::WantAttr { total } => {
                if s.stack.len() > 0 && chunk.len() >= 2 {
                    let attr = AttributeModel {
                        id: spec_u16_from_le_bytes(chunk.take(2)),
                        value: chunk.skip(2),
                    };
                    let top = s.stack.last();
                    let grown = NodeModel {
                        id: top.id,
                        attributes: top.attributes.push(attr),
                        children: top.children,
                    };
                    assert(attr_wf(attr));
                    assert(node_wf(grown)) by {
                        assert(forall|i: int|
                            0 <= i < top.attributes.len() ==> grown.attributes[i]
                                == top.attributes[i]);
                        assert(grown.attributes.last() == attr);
                    }
                }
            },
            _ => {
            },
        }
        lemma_run_machine_wf(bytes, pos + n, s2);
    }
}

/// Any tree that decodes from a byte stream is well-formed, so it can be
/// encoded again.
pub proof fn lemma_decoded_tree_wf(bytes: Seq<u8>)
    ensures
        (spec_decode(bytes) matches Ok(root) ==> node_wf(root)),
{
    lemma_run_machine_wf(bytes, 0, machine_init());
}

/// The model of a decode outcome.
pub open spec fn decode_result_model(r: Result<Node, FramingError>) -> Result<
    NodeModel,
    FramingError,
> {
    match r {
        Ok(n) => Ok(node_model(n)),
        Err(e) => Err(e),
    }
}

/// Decodes one complete message; the whole slice must be exactly one
/// message.
pub fn decode(bytes: &[u8]) -> (r: Result<Node, FramingError>)
    ensures
        decode_result_model(r) == spec_decode(bytes@),
        (r matches Ok(n) ==> node_wf(n@)),
{
    proof {
        lemma_decoded_tree_wf(bytes@);
    }
    let mut d = Decoder::new();
    let mut pos: usize = 0;
    loop
        invariant
            pos <= bytes@.len(),
            run_machine(bytes@, pos as int, d@) == spec_decode(bytes@),
        decreases bytes@.len() - pos,
    {
        let n = d.needed();
        if n == 0 {
            match d.into_result() {
                Ok(root) => {
                    if pos == bytes.len() {
                        proof {
                            lemma_decoded_tree_wf(bytes@);
                        }
                        return Ok(root);
                    } else {
                        return Err(FramingError::TrailingData);
                    }
                },
                Err(e) => {
                    return Err(e);
                },
            }
        }
        if n > bytes.len() - pos {
            return Err(FramingError::Truncated);
        }
        let chunk = slice_subrange(bytes, pos, pos + n);
        let ghost pre = d@;
        d.feed(chunk);
        proof {
            assert(run_machine(bytes@, pos as int, pre) == run_machine(
                bytes@,
                pos + n,
                machine_step(pre, bytes@.subrange(pos as int, pos + n)),
            ));
            assert(chunk@ == bytes@.subrange(pos as int, pos + n));
        }
        pos = pos + n;
    }
}

} // verus!
