//! The in-memory tree model: attributes (16-bit tag plus opaque bytes) and
//! nodes (16-bit tag, ordered attributes, ordered children), with typed
//! constructors and accessors for the little-endian payload encodings.

use vstd::prelude::*;

verus! {

use vstd::bytes::{spec_u16_to_le_bytes, spec_u32_to_le_bytes, spec_u16_from_le_bytes};
use vstd::bytes::{u16_to_le_bytes, u32_to_le_bytes, u16_from_le_bytes};
use vstd::slice::{slice_to_vec, slice_subrange};
use vstd::string::StrSliceExecFns;
use vstd::utf8::{encode_utf8, decode_utf8, valid_utf8};

/// Greatest attribute payload length the framing can carry: the length field
/// holds `value.len() + 2` and must stay below the `0xFFFFFFFF` end marker.
pub const MAX_ATTRIBUTE_VALUE_LEN: usize = 0xFFFF_FFFC;

/// An attribute: a 16-bit tag and an opaque byte payload.
#[derive(Debug)]
pub struct Attribute {
    pub id: u16,
    pub value: Vec<u8>,
}

/// A node: a 16-bit tag, an ordered list of attributes, and an ordered list
/// of child nodes.
#[derive(Debug)]
pub struct Node {
    pub id: u16,
    pub attributes: Vec<Attribute>,
    pub children: Vec<Node>,
}

/// Mathematical model of an attribute.
#[verifier::ext_equal]
pub struct AttributeModel {
    pub id: u16,
    pub value: Seq<u8>,
}

/// Mathematical model of a node.
#[verifier::ext_equal]
pub struct NodeModel {
    pub id: u16,
    pub attributes: Seq<AttributeModel>,
    pub children: Seq<NodeModel>,
}

impl View for Attribute {
    type V = AttributeModel;

    open spec fn view(&self) -> AttributeModel {
        AttributeModel { id: self.id, value: self.value@ }
    }
}

/// The model of a sequence of attributes, element by element.
pub open spec fn attrs_model(s: Seq<Attribute>) -> Seq<AttributeModel> {
    Seq::new(s.len(), |i: int| s[i]@)
}

/// The model of a node, recursively over its children.
pub open spec fn node_model(n: Node) -> NodeModel
    decreases n,
{
    NodeModel {
        id: n.id,
        attributes: attrs_model(n.attributes@),
        children: nodes_model(n.children@),
    }
}

/// The model of a sequence of nodes, element by element.
pub open spec fn nodes_model(s: Seq<Node>) -> Seq<NodeModel>
    decreases s,
{
    if s.len() == 0 {
        Seq::empty()
    } else {
        seq![node_model(s.first())] + nodes_model(s.drop_first())
    }
}

impl View for Node {
    type V = NodeModel;

    open spec fn view(&self) -> NodeModel {
        node_model(*self)
    }
}

/// `nodes_model` maps the sequence element by element.
pub proof fn lemma_nodes_model(s: Seq<Node>)
    ensures
        nodes_model(s).len() == s.len(),
        forall|i: int| 0 <= i < s.len() ==> nodes_model(s)[i] == node_model(s[i]),
    decreases s,
{
    if s.len() > 0 {
        lemma_nodes_model(s.drop_first());
    }
}

/// An attribute payload fits the wire framing.
pub open spec fn attr_wf(a: AttributeModel) -> bool {
    a.value.len() <= MAX_ATTRIBUTE_VALUE_LEN
}

/// Every attribute payload in the tree fits the wire framing.
pub open spec fn node_wf(n: NodeModel) -> bool
    decreases n,
{
    &&& (forall|i: int| 0 <= i < n.attributes.len() ==> attr_wf(#[trigger] n.attributes[i]))
    &&& (forall|i: int| 0 <= i < n.children.len() ==> node_wf(#[trigger] n.children[i]))
}

/// Errors from the typed attribute accessors.
#[derive(Debug, Clone, Copy, PartialEq, Eq, Structural)]
pub enum DecodeError {
    /// The payload is shorter than the requested width.
    TooShort,
    /// The payload is not valid UTF-8.
    InvalidUtf8,
}

impl Attribute {
    /// An attribute whose payload is the given bytes, verbatim.
    pub fn from_bytes(id: u16, val: &[u8]) -> (r: Attribute)
        ensures
            r@ == (AttributeModel { id, value: val@ }),
    {
        Attribute { id, value: slice_to_vec(val) }
    }

    /// An attribute whose payload is the single byte `val`.
    pub fn from_u8(id: u16, val: u8) -> (r: Attribute)
        ensures
            r@.id == id,
            r@.value =~= seq![val],
    {
        let mut value: Vec<u8> = Vec::new();
        value.push(val);
        Attribute { id, value }
    }

    /// An attribute whose payload is `val` as two little-endian bytes.
    pub fn from_u16(id: u16, val: u16) -> (r: Attribute)
        ensures
            r@.id == id,
            r@.value == spec_u16_to_le_bytes(val),
    {
        Attribute { id, value: u16_to_le_bytes(val) }
    }

    /// An attribute whose payload is `val` as four little-endian bytes.
    pub fn from_u32(id: u16, val: u32) -> (r: Attribute)
        ensures
            r@.id == id,
            r@.value == spec_u32_to_le_bytes(val),
    {
        Attribute { id, value: u32_to_le_bytes(val) }
    }

    /// An attribute whose payload is `val` in two's-complement little-endian.
    pub fn from_i16(id: u16, val: i16) -> (r: Attribute)
        ensures
            r@.id == id,
            r@.value == spec_u16_to_le_bytes(val as u16),
    {
        Attribute { id, value: u16_to_le_bytes(val as u16) }
    }

    /// An attribute whose payload is the UTF-8 bytes of `val`, with no
    /// terminator and no length prefix.
    pub fn from_str(id: u16, val: &str) -> (r: Attribute)
        ensures
            r@.id == id,
            r@.value == encode_utf8(val@),
    {
        Attribute { id, value: val.as_bytes_vec() }
    }

    /// The first payload byte; fails when the payload is empty.
    pub fn as_u8(&self) -> (r: Result<u8, DecodeError>)
        ensures
            match r {
                Ok(b) => self@.value.len() >= 1 && b == self@.value[0],
                Err(e) => self@.value.len() == 0 && e == DecodeError::TooShort,
            },
    {
        if self.value.len() >= 1 {
            Ok(self.value[0])
        } else {
            Err(DecodeError::TooShort)
        }
    }

    /// The first two payload bytes read as a little-endian integer; fails
    /// when the payload is shorter. Excess bytes are ignored.
    pub fn as_u16(&self) -> (r: Result<u16, DecodeError>)
        ensures
            match r {
                Ok(v) => self@.value.len() >= 2
                    && v == spec_u16_from_le_bytes(self@.value.subrange(0, 2)),
                Err(e) => self@.value.len() < 2 && e == DecodeError::TooShort,
            },
    {
        if self.value.len() >= 2 {
            Ok(u16_from_le_bytes(slice_subrange(self.value.as_slice(), 0, 2)))
        } else {
            Err(DecodeError::TooShort)
        }
    }

    /// The payload decoded as UTF-8 text; fails when it is not valid UTF-8.
    pub fn to_str(&self) -> (r: Result<String, DecodeError>)
        ensures
            match r {
                Ok(s) => valid_utf8(self@.value) && s@ == decode_utf8(self@.value),
                Err(e) => !valid_utf8(self@.value) && e == DecodeError::InvalidUtf8,
            },
    {
        match string_from_utf8_bytes(self.value.as_slice()) {
            Some(s) => Ok(s),
            None => Err(DecodeError::InvalidUtf8),
        }
    }
}

/// Relies on `String::from_utf8`: it succeeds exactly when the bytes are
/// valid UTF-8, and then returns the string those bytes encode.
#[verifier::external_body]
fn string_from_utf8_bytes(v: &[u8]) -> (r: Option<String>)
    ensures
        r is Some <==> valid_utf8(v@),
        r is Some ==> r.unwrap()@ == decode_utf8(v@),
{
    match String::from_utf8(v.to_vec()) {
        Ok(s) => Some(s),
        Err(_) => None,
    }
}

} // verus!

verus! {

// ---------------------------------------------------------------------------
// Path lookup: depth-first, left-to-right, first match wins.
//
// The candidate sequences below list, in depth-first left-to-right order,
// every node (or attribute) that lies at the given id path.  The lookup
// functions return the first candidate, so their contracts and the ordering
// laws are all stated over these sequences.
// ---------------------------------------------------------------------------

/// The attributes of `s` whose id equals `id`, in order.
pub open spec fn attrs_with_id(s: Seq<Attribute>, id: u16) -> Seq<Attribute>
    decreases s,
{
    if s.len() == 0 {
        Seq::empty()
    } else if s.first().id == id {
        seq![s.first()] + attrs_with_id(s.drop_first(), id)
    } else {
        attrs_with_id(s.drop_first(), id)
    }
}

/// All nodes at path `ids` below `n` (`n` itself when the path is empty),
/// in depth-first left-to-right order.
pub open spec fn node_matches_excl(n: Node, ids: Seq<u16>) -> Seq<Node>
    decreases n,
{
    if ids.len() == 0 {
        seq![n]
    } else {
        node_matches_in(n.children@, ids)
    }
}

/// All nodes at path `ids` within the sibling list `cs`, in order.
/// The path is expected to be non-empty.
pub open spec fn node_matches_in(cs: Seq<Node>, ids: Seq<u16>) -> Seq<Node>
    decreases cs,
{
    if cs.len() == 0 {
        Seq::empty()
    } else {
        (if cs.first().id == ids.first() {
            node_matches_excl(cs.first(), ids.drop_first())
        } else {
            Seq::empty()
        }) + node_matches_in(cs.drop_first(), ids)
    }
}

/// All nodes at path `ids` where the first path element must match `n`
/// itself.  The path is expected to be non-empty.
pub open spec fn node_matches(n: Node, ids: Seq<u16>) -> Seq<Node> {
    if n.id == ids.first() {
        node_matches_excl(n, ids.drop_first())
    } else {
        Seq::empty()
    }
}

/// All attributes at path `ids` below `n`, in depth-first left-to-right
/// order.  The path is expected to be non-empty.
pub open spec fn attr_matches_excl(n: Node, ids: Seq<u16>) -> Seq<Attribute>
    decreases n,
{
    if ids.len() <= 1 {
        attrs_with_id(n.attributes@, ids.first())
    } else {
        attr_matches_in(n.children@, ids)
    }
}

/// All attributes at path `ids` within the sibling list `cs`, in order.
/// The path is expected to have at least two elements.
pub open spec fn attr_matches_in(cs: Seq<Node>, ids: Seq<u16>) -> Seq<Attribute>
    decreases cs,
{
    if cs.len() == 0 {
        Seq::empty()
    } else {
        (if cs.first().id == ids.first() {
            attr_matches_excl(cs.first(), ids.drop_first())
        } else {
            Seq::empty()
        }) + attr_matches_in(cs.drop_first(), ids)
    }
}

/// All attributes at path `ids` where the first path element must match `n`
/// itself.  The path is expected to have at least two elements.
pub open spec fn attr_matches(n: Node, ids: Seq<u16>) -> Seq<Attribute> {
    if n.id == ids.first() {
        attr_matches_excl(n, ids.drop_first())
    } else {
        Seq::empty()
    }
}

/// Candidates within a sibling list split at any point `k` into the
/// candidates of the prefix followed by the candidates of the suffix.
pub proof fn lemma_node_matches_in_split(cs: Seq<Node>, ids: Seq<u16>, k: int)
    requires
        0 <= k <= cs.len(),
    ensures
        node_matches_in(cs, ids) == node_matches_in(cs.take(k), ids) + node_matches_in(
            cs.skip(k),
            ids,
        ),
    decreases k,
{
    if k == 0 {
        assert(cs.take(0) =~= Seq::<Node>::empty());
        assert(cs.skip(0) =~= cs);
        assert(node_matches_in(cs, ids) =~= node_matches_in(cs.take(0), ids) + node_matches_in(
            cs.skip(0),
            ids,
        ));
    } else {
        let rest = cs.drop_first();
        lemma_node_matches_in_split(rest, ids, k - 1);
        assert(cs.take(k).first() == cs.first());
        assert(cs.take(k).drop_first() =~= rest.take(k - 1));
        assert(cs.skip(k) =~= rest.skip(k - 1));
        assert(node_matches_in(cs, ids) =~= node_matches_in(cs.take(k), ids) + node_matches_in(
            cs.skip(k),
            ids,
        ));
    }
}

/// The same split, for attribute candidates within a sibling list.
pub proof fn lemma_attr_matches_in_split(cs: Seq<Node>, ids: Seq<u16>, k: int)
    requires
        0 <= k <= cs.len(),
    ensures
        attr_matches_in(cs, ids) == attr_matches_in(cs.take(k), ids) + attr_matches_in(
            cs.skip(k),
            ids,
        ),
    decreases k,
{
    if k == 0 {
        assert(cs.take(0) =~= Seq::<Node>::empty());
        assert(cs.skip(0) =~= cs);
        assert(attr_matches_in(cs, ids) =~= attr_matches_in(cs.take(0), ids) + attr_matches_in(
            cs.skip(0),
            ids,
        ));
    } else {
        let rest = cs.drop_first();
        lemma_attr_matches_in_split(rest, ids, k - 1);
        assert(cs.take(k).first() == cs.first());
        assert(cs.take(k).drop_first() =~= rest.take(k - 1));
        assert(cs.skip(k) =~= rest.skip(k - 1));
        assert(attr_matches_in(cs, ids) =~= attr_matches_in(cs.take(k), ids) + attr_matches_in(
            cs.skip(k),
            ids,
        ));
    }
}

/// The same split, for the filtered attribute list.
pub proof fn lemma_attrs_with_id_split(s: Seq<Attribute>, id: u16, k: int)
    requires
        0 <= k <= s.len(),
    ensures
        attrs_with_id(s, id) == attrs_with_id(s.take(k), id) + attrs_with_id(s.skip(k), id),
    decreases k,
{
    if k == 0 {
        assert(s.take(0) =~= Seq::<Attribute>::empty());
        assert(s.skip(0) =~= s);
        assert(attrs_with_id(s, id) =~= attrs_with_id(s.take(0), id) + attrs_with_id(
            s.skip(0),
            id,
        ));
    } else {
        let rest = s.drop_first();
        lemma_attrs_with_id_split(rest, id, k - 1);
        assert(s.take(k).first() == s.first());
        assert(s.take(k).drop_first() =~= rest.take(k - 1));
        assert(s.skip(k) =~= rest.skip(k - 1));
        assert(attrs_with_id(s, id) =~= attrs_with_id(s.take(k), id) + attrs_with_id(
            s.skip(k),
            id,
        ));
    }
}

/// Candidates of a one-element sibling list.
pub proof fn lemma_node_matches_in_one(c: Node, ids: Seq<u16>)
    ensures
        node_matches_in(seq![c], ids) == (if c.id == ids.first() {
            node_matches_excl(c, ids.drop_first())
        } else {
            Seq::<Node>::empty()
        }),
{
    reveal_with_fuel(node_matches_in, 2);
    assert(seq![c].drop_first() =~= Seq::<Node>::empty());
    assert(node_matches_in(seq![c], ids) =~= (if c.id == ids.first() {
        node_matches_excl(c, ids.drop_first())
    } else {
        Seq::<Node>::empty()
    }));
}

/// Attribute candidates of a one-element sibling list.
pub proof fn lemma_attr_matches_in_one(c: Node, ids: Seq<u16>)
    ensures
        attr_matches_in(seq![c], ids) == (if c.id == ids.first() {
            attr_matches_excl(c, ids.drop_first())
        } else {
            Seq::<Attribute>::empty()
        }),
{
    reveal_with_fuel(attr_matches_in, 2);
    assert(seq![c].drop_first() =~= Seq::<Node>::empty());
    assert(attr_matches_in(seq![c], ids) =~= (if c.id == ids.first() {
        attr_matches_excl(c, ids.drop_first())
    } else {
        Seq::<Attribute>::empty()
    }));
}

/// The nodes referred to by a list of node references.
pub open spec fn derefs(s: Seq<&Node>) -> Seq<Node> {
    Seq::new(s.len(), |i: int| *s[i])
}

impl Node {
    /// Collects, in depth-first left-to-right order, a reference to every
    /// node at path `ids` below `self` (`self` itself when the path is
    /// empty), appending them to `out`.
    fn collect_matches_excl<'a>(&'a self, ids: &[u16], out: &mut Vec<&'a Node>)
        ensures
            derefs(final(out)@) == derefs(old(out)@) + node_matches_excl(*self, ids@),
        decreases *self,
    {
        if ids.len() == 0 {
            out.push(self);
            proof {
                assert(derefs(out@) =~= derefs(old(out)@) + node_matches_excl(*self, ids@));
            }
            return;
        }
        let mut i: usize = 0;
        proof {
            assert(node_matches_in(self.children@.take(0), ids@) =~= Seq::<Node>::empty());
            assert(derefs(out@) =~= derefs(old(out)@) + node_matches_in(
                self.children@.take(0),
                ids@,
            ));
        }
        while i < self.children.len()
            invariant
                0 <= i <= self.children@.len(),
                ids@.len() >= 1,
                derefs(out@) == derefs(old(out)@) + node_matches_in(
                    self.children@.take(i as int),
                    ids@,
                ),
            decreases self.children@.len() - i,
        {
            let c = &self.children[i];
            proof {
                lemma_node_matches_in_split(self.children@.take(i + 1), ids@, i as int);
                assert(self.children@.take(i + 1).take(i as int) =~= self.children@.take(i as int));
                assert(self.children@.take(i + 1).skip(i as int) =~= seq![self.children@[i as int]]);
                lemma_node_matches_in_one(self.children@[i as int], ids@);
            }
            if c.id == ids[0] {
                let rest = slice_subrange(ids, 1, ids.len());
                proof {
                    assert(rest@ =~= ids@.drop_first());
                }
                c.collect_matches_excl(rest, out);
                proof {
                    assert(derefs(out@) =~= derefs(old(out)@) + node_matches_in(
                        self.children@.take(i + 1),
                        ids@,
                    ));
                }
            } else {
                proof {
                    assert(node_matches_in(self.children@.take(i + 1), ids@)
                        =~= node_matches_in(self.children@.take(i as int), ids@));
                }
            }
            i += 1;
        }
        proof {
            assert(self.children@.take(self.children@.len() as int) =~= self.children@);
        }
    }

    /// Returns the first node (depth-first, left-to-right) whose id path
    /// from `self`'s children equals `ids` and that satisfies `cond`;
    /// `self` itself, if `cond` accepts it, when `ids` is empty.  The
    /// predicate decides at the final path position: the candidates at the
    /// path are visited in order and the first accepted one is returned.
    pub fn find_node_excl_cond<F: Fn(&Node) -> bool>(&self, ids: &[u16], cond: F) -> (r: Option<
        &Node,
    >)
        requires
            forall|m: &Node| #[trigger] call_requires(cond, (m,)),
        ensures
            ids@.len() == 0 ==> match r {
                Some(m) => m == self && call_ensures(cond, (m,), true),
                None => call_ensures(cond, (self,), false),
            },
            ids@.len() >= 1 ==> ({
                let cands = node_matches_excl(*self, ids@);
                match r {
                    Some(m) => exists|i: int|
                        0 <= i < cands.len() && *m == cands[i] && call_ensures(cond, (m,), true)
                            && forall|j: int|
                            0 <= j < i ==> call_ensures(cond, (&cands[j],), false),
                    None => forall|j: int|
                        0 <= j < cands.len() ==> call_ensures(cond, (&cands[j],), false),
                }
            }),
    {
        if ids.len() == 0 {
            if cond(self) {
                Some(self)
            } else {
                None
            }
        } else {
            let mut found: Vec<&Node> = Vec::new();
            self.collect_matches_excl(ids, &mut found);
            proof {
                assert(derefs(found@) =~= node_matches_excl(*self, ids@));
            }
            let mut i: usize = 0;
            while i < found.len()
                invariant
                    forall|m: &Node| #[trigger] call_requires(cond, (m,)),
                    0 <= i <= found@.len(),
                    ids@.len() >= 1,
                    derefs(found@) == node_matches_excl(*self, ids@),
                    forall|j: int|
                        0 <= j < i ==> call_ensures(cond, (&derefs(found@)[j],), false),
                decreases found@.len() - i,
            {
                let c: &Node = found[i];
                proof {
                    assert(*c == derefs(found@)[i as int]);
                }
                if cond(c) {
                    proof {
                        let cands = node_matches_excl(*self, ids@);
                        assert(0 <= i < cands.len() && *c == cands[i as int] && call_ensures(
                            cond,
                            (c,),
                            true,
                        ) && forall|j: int|
                            0 <= j < i ==> call_ensures(cond, (&cands[j],), false));
                    }
                    return Some(c);
                }
                proof {
                    assert(call_ensures(cond, (&derefs(found@)[i as int],), false));
                }
                i += 1;
            }
            None
        }
    }

    /// Returns the first node (depth-first, left-to-right) whose id path
    /// from `self`'s children equals `ids`; `self` itself when `ids` is
    /// empty.
    pub fn find_node_excl(&self, ids: &[u16]) -> (r: Option<&Node>)
        ensures
            ({
                let cands = node_matches_excl(*self, ids@);
                match r {
                    Some(m) => cands.len() > 0 && *m == cands[0],
                    None => cands.len() == 0,
                }
            }),
        decreases *self,
    {
        if ids.len() == 0 {
            return Some(self);
        }
        let ghost cands = node_matches_excl(*self, ids@);
        let mut i: usize = 0;
        proof {
            assert(node_matches_in(self.children@.take(0), ids@) =~= Seq::<Node>::empty());
        }
        while i < self.children.len()
            invariant
                0 <= i <= self.children@.len(),
                ids@.len() >= 1,
                cands == node_matches_excl(*self, ids@),
                cands == node_matches_in(self.children@, ids@),
                node_matches_in(self.children@.take(i as int), ids@) =~= Seq::<Node>::empty(),
            decreases self.children@.len() - i,
        {
            let c = &self.children[i];
            let ghost prefix = node_matches_in(self.children@.take(i as int), ids@);
            proof {
                lemma_node_matches_in_split(self.children@, ids@, i as int);
                lemma_node_matches_in_split(self.children@, ids@, i + 1);
                assert(self.children@.take(i + 1).take(i as int) =~= self.children@.take(i as int));
                lemma_node_matches_in_split(self.children@.take(i + 1), ids@, i as int);
                assert(self.children@.take(i + 1).skip(i as int) =~= seq![self.children@[i as int]]);
                assert(seq![self.children@[i as int]].drop_first() =~= Seq::<Node>::empty());
                    lemma_node_matches_in_one(self.children@[i as int], ids@);
            }
            if c.id == ids[0] {
                let rest = slice_subrange(ids, 1, ids.len());
                proof {
                    assert(rest@ =~= ids@.drop_first());
                }
                let sub = c.find_node_excl(rest);
                if let Some(m) = sub {
                    proof {
                        let subcands = node_matches_excl(*c, ids@.drop_first());
                        assert(node_matches_in(seq![self.children@[i as int]], ids@) =~= subcands);
                        assert(node_matches_in(self.children@.skip(i as int), ids@) =~= subcands
                            + node_matches_in(self.children@.skip(i + 1), ids@)) by {
                            assert(self.children@.skip(i as int).first()
                                == self.children@[i as int]);
                            assert(self.children@.skip(i as int).drop_first()
                                =~= self.children@.skip(i + 1));
                        }
                        assert(cands[0] == subcands[0]);
                    }
                    return Some(m);
                }
                proof {
                    assert(node_matches_excl(*c, ids@.drop_first()).len() == 0);
                    assert(node_matches_in(self.children@.take(i + 1), ids@) =~= prefix);
                }
            } else {
                proof {
                    assert(node_matches_in(seq![self.children@[i as int]], ids@)
                        =~= Seq::<Node>::empty());
                    assert(node_matches_in(self.children@.take(i + 1), ids@) =~= prefix);
                }
            }
            i += 1;
        }
        proof {
            assert(self.children@.take(i as int) =~= self.children@);
        }
        None
    }

    /// Returns the node at path `ids[1..]` below `self` when `ids[0]`
    /// matches `self`'s own id; the predicate decides at the final path
    /// position, and among the candidates there the first accepted one
    /// wins.  The path must be non-empty.
    pub fn find_node_cond<F: Fn(&Node) -> bool>(&self, ids: &[u16], cond: F) -> (r: Option<&Node>)
        requires
            ids@.len() >= 1,
            forall|m: &Node| #[trigger] call_requires(cond, (m,)),
        ensures
            self.id != ids@[0] ==> r is None,
            self.id == ids@[0] && ids@.len() == 1 ==> match r {
                Some(m) => m == self && call_ensures(cond, (m,), true),
                None => call_ensures(cond, (self,), false),
            },
            self.id == ids@[0] && ids@.len() >= 2 ==> ({
                let cands = node_matches(*self, ids@);
                match r {
                    Some(m) => exists|i: int|
                        0 <= i < cands.len() && *m == cands[i] && call_ensures(cond, (m,), true)
                            && forall|j: int|
                            0 <= j < i ==> call_ensures(cond, (&cands[j],), false),
                    None => forall|j: int|
                        0 <= j < cands.len() ==> call_ensures(cond, (&cands[j],), false),
                }
            }),
    {
        if self.id != ids[0] {
            None
        } else if ids.len() == 1 {
            if cond(self) {
                Some(self)
            } else {
                None
            }
        } else {
            let rest = slice_subrange(ids, 1, ids.len());
            proof {
                assert(rest@ =~= ids@.drop_first());
            }
            let r = self.find_node_excl_cond(rest, cond);
            proof {
                if ids@.len() >= 2 {
                    let cands = node_matches(*self, ids@);
                    assert(cands == node_matches_excl(*self, rest@));
                    match r {
                        Some(m) => {
                            let i = choose|i: int|
                                0 <= i < cands.len() && *m == cands[i] && call_ensures(
                                    cond,
                                    (m,),
                                    true,
                                ) && forall|j: int|
                                    0 <= j < i ==> call_ensures(cond, (&cands[j],), false);
                            assert(0 <= i < cands.len() && *m == cands[i] && call_ensures(
                                cond,
                                (m,),
                                true,
                            ) && forall|j: int|
                                0 <= j < i ==> call_ensures(cond, (&cands[j],), false));
                        },
                        None => {},
                    }
                }
            }
            r
        }
    }

    /// Returns the node at path `ids[1..]` below `self` when `ids[0]`
    /// matches `self`'s own id.  The path must be non-empty.
    pub fn find_node(&self, ids: &[u16]) -> (r: Option<&Node>)
        requires
            ids@.len() >= 1,
        ensures
            ({
                let cands = node_matches(*self, ids@);
                match r {
                    Some(m) => cands.len() > 0 && *m == cands[0],
                    None => cands.len() == 0,
                }
            }),
    {
        if self.id != ids[0] {
            return None;
        }
        if ids.len() == 1 {
            return Some(self);
        }
        let rest = slice_subrange(ids, 1, ids.len());
        proof {
            assert(rest@ =~= ids@.drop_first());
        }
        self.find_node_excl(rest)
    }

    /// Returns the first attribute (depth-first, left-to-right) at path
    /// `ids` below `self`: the last path element names the attribute, the
    /// rest name child nodes.  The path must be non-empty.
    pub fn find_attribute_excl(&self, ids: &[u16]) -> (r: Option<&Attribute>)
        requires
            ids@.len() >= 1,
        ensures
            ({
                let cands = attr_matches_excl(*self, ids@);
                match r {
                    Some(a) => cands.len() > 0 && *a == cands[0],
                    None => cands.len() == 0,
                }
            }),
        decreases *self,
    {
        let ghost cands = attr_matches_excl(*self, ids@);
        if ids.len() == 1 {
            let mut i: usize = 0;
            proof {
                assert(attrs_with_id(self.attributes@.take(0), ids@[0]) =~= Seq::<
                    Attribute,
                >::empty());
            }
            while i < self.attributes.len()
                invariant
                    0 <= i <= self.attributes@.len(),
                    ids@.len() == 1,
                    cands == attr_matches_excl(*self, ids@),
                    cands == attrs_with_id(self.attributes@, ids@[0]),
                    attrs_with_id(self.attributes@.take(i as int), ids@[0]) =~= Seq::<
                        Attribute,
                    >::empty(),
                decreases self.attributes@.len() - i,
            {
                let a = &self.attributes[i];
                let ghost pre = self.attributes@.take(i as int);
                proof {
                    lemma_attrs_with_id_split(self.attributes@, ids@[0], i as int);
                    lemma_attrs_with_id_split(self.attributes@, ids@[0], i + 1);
                    assert(self.attributes@.take(i + 1).take(i as int) =~= pre);
                    lemma_attrs_with_id_split(self.attributes@.take(i + 1), ids@[0], i as int);
                    assert(self.attributes@.take(i + 1).skip(i as int) =~= seq![
                        self.attributes@[i as int],
                    ]);
                    assert(seq![self.attributes@[i as int]].drop_first() =~= Seq::<
                        Attribute,
                    >::empty());
                    assert(attrs_with_id(seq![self.attributes@[i as int]], ids@[0]) =~= (
                    if self.attributes@[i as int].id == ids@[0] {
                        seq![self.attributes@[i as int]]
                    } else {
                        Seq::<Attribute>::empty()
                    })) by {
                        reveal_with_fuel(attrs_with_id, 2);
                    }
                }
                if a.id == ids[0] {
                    proof {
                        assert(attrs_with_id(self.attributes@.skip(i as int), ids@[0]).first()
                            == *a) by {
                            assert(self.attributes@.skip(i as int).first()
                                == self.attributes@[i as int]);
                        }
                        assert(cands[0] == *a);
                    }
                    return Some(a);
                }
                proof {
                    assert(attrs_with_id(self.attributes@.take(i + 1), ids@[0])
                        =~= attrs_with_id(pre, ids@[0]));
                }
                i += 1;
            }
            proof {
                assert(self.attributes@.take(i as int) =~= self.attributes@);
            }
            None
        } else {
            let mut i: usize = 0;
            proof {
                assert(attr_matches_in(self.children@.take(0), ids@) =~= Seq::<
                    Attribute,
                >::empty());
            }
            while i < self.children.len()
                invariant
                    0 <= i <= self.children@.len(),
                    ids@.len() >= 2,
                    cands == attr_matches_excl(*self, ids@),
                    cands == attr_matches_in(self.children@, ids@),
                    attr_matches_in(self.children@.take(i as int), ids@) =~= Seq::<
                        Attribute,
                    >::empty(),
                decreases self.children@.len() - i,
            {
                let c = &self.children[i];
                let ghost prefix = attr_matches_in(self.children@.take(i as int), ids@);
                proof {
                    lemma_attr_matches_in_split(self.children@, ids@, i as int);
                    lemma_attr_matches_in_split(self.children@, ids@, i + 1);
                    assert(self.children@.take(i + 1).take(i as int) =~= self.children@.take(
                        i as int,
                    ));
                    lemma_attr_matches_in_split(self.children@.take(i + 1), ids@, i as int);
                    assert(self.children@.take(i + 1).skip(i as int) =~= seq![
                        self.children@[i as int],
                    ]);
                    lemma_attr_matches_in_one(self.children@[i as int], ids@);
                }
                if c.id == ids[0] {
                    let rest = slice_subrange(ids, 1, ids.len());
                    proof {
                        assert(rest@ =~= ids@.drop_first());
                    }
                    let sub = c.find_attribute_excl(rest);
                    if let Some(a) = sub {
                        proof {
                            let subcands = attr_matches_excl(*c, ids@.drop_first());
                            assert(attr_matches_in(self.children@.skip(i as int), ids@)
                                =~= subcands + attr_matches_in(self.children@.skip(i + 1), ids@))
                                by {
                                assert(self.children@.skip(i as int).first()
                                    == self.children@[i as int]);
                                assert(self.children@.skip(i as int).drop_first()
                                    =~= self.children@.skip(i + 1));
                            }
                            assert(cands[0] == subcands[0]);
                        }
                        return Some(a);
                    }
                    proof {
                        assert(attr_matches_excl(*c, ids@.drop_first()).len() == 0);
                        assert(attr_matches_in(self.children@.take(i + 1), ids@) =~= prefix);
                    }
                } else {
                    proof {
                        assert(attr_matches_in(self.children@.take(i + 1), ids@) =~= prefix);
                    }
                }
                i += 1;
            }
            proof {
                assert(self.children@.take(i as int) =~= self.children@);
            }
            None
        }
    }

    /// Returns the attribute at path `ids[1..]` below `self` when `ids[0]`
    /// matches `self`'s own id.  The path must have at least two elements.
    pub fn find_attribute(&self, ids: &[u16]) -> (r: Option<&Attribute>)
        requires
            ids@.len() >= 2,
        ensures
            ({
                let cands = attr_matches(*self, ids@);
                match r {
                    Some(a) => cands.len() > 0 && *a == cands[0],
                    None => cands.len() == 0,
                }
            }),
    {
        if self.id != ids[0] {
            return None;
        }
        let rest = slice_subrange(ids, 1, ids.len());
        proof {
            assert(rest@ =~= ids@.drop_first());
        }
        self.find_attribute_excl(rest)
    }
}

// ---------------------------------------------------------------------------
// Navigation laws.
// ---------------------------------------------------------------------------

/// An inclusive node lookup hits exactly when the path is non-empty, its
/// head equals the root's own id, and the exclusive lookup on the tail hits.
pub proof fn lemma_find_node_via_excl(t: Node, p: Seq<u16>)
    requires
        p.len() >= 1,
    ensures
        node_matches(t, p).len() > 0 <==> (t.id == p.first() && node_matches_excl(
            t,
            p.drop_first(),
        ).len() > 0),
{
}

/// An inclusive attribute lookup hits exactly when the path has at least
/// two elements, its head equals the root's own id, and the exclusive
/// lookup on the tail hits.
pub proof fn lemma_find_attribute_via_excl(t: Node, p: Seq<u16>)
    requires
        p.len() >= 2,
    ensures
        attr_matches(t, p).len() > 0 <==> (t.id == p.first() && attr_matches_excl(
            t,
            p.drop_first(),
        ).len() > 0),
{
}

/// Depth-first order within a sibling list: the head of the candidate list
/// always comes from the earliest sibling subtree that has a hit.
pub proof fn lemma_depth_first_first_match(cs: Seq<Node>, ids: Seq<u16>)
    requires
        node_matches_in(cs, ids).len() > 0,
    ensures
        exists|k: int|
            {
                &&& 0 <= k < cs.len()
                &&& (#[trigger] cs[k]).id == ids.first()
                &&& node_matches_excl(cs[k], ids.drop_first()).len() > 0
                &&& node_matches_in(cs, ids).first() == node_matches_excl(
                    cs[k],
                    ids.drop_first(),
                ).first()
                &&& forall|j: int|
                    0 <= j < k ==> (cs[j].id != ids.first() || node_matches_excl(
                        cs[j],
                        ids.drop_first(),
                    ).len() == 0)
            },
    decreases cs,
{
    let head = if cs.first().id == ids.first() {
        node_matches_excl(cs.first(), ids.drop_first())
    } else {
        Seq::<Node>::empty()
    };
    if head.len() > 0 {
        assert(node_matches_in(cs, ids).first() == head.first());
        assert({
            &&& 0 <= 0 < cs.len()
            &&& cs[0].id == ids.first()
            &&& node_matches_excl(cs[0], ids.drop_first()).len() > 0
            &&& node_matches_in(cs, ids).first() == node_matches_excl(
                cs[0],
                ids.drop_first(),
            ).first()
            &&& forall|j: int|
                0 <= j < 0 ==> (cs[j].id != ids.first() || node_matches_excl(
                    cs[j],
                    ids.drop_first(),
                ).len() == 0)
        });
    } else {
        let rest = cs.drop_first();
        assert(node_matches_in(cs, ids) =~= node_matches_in(rest, ids));
        lemma_depth_first_first_match(rest, ids);
        let k0 = choose|k0: int|
            {
                &&& 0 <= k0 < rest.len()
                &&& (#[trigger] rest[k0]).id == ids.first()
                &&& node_matches_excl(rest[k0], ids.drop_first()).len() > 0
                &&& node_matches_in(rest, ids).first() == node_matches_excl(
                    rest[k0],
                    ids.drop_first(),
                ).first()
                &&& forall|j: int|
                    0 <= j < k0 ==> (rest[j].id != ids.first() || node_matches_excl(
                        rest[j],
                        ids.drop_first(),
                    ).len() == 0)
            };
        assert(cs[k0 + 1] == rest[k0]);
        assert(forall|j: int|
            0 <= j < k0 + 1 ==> (cs[j].id != ids.first() || node_matches_excl(
                cs[j],
                ids.drop_first(),
            ).len() == 0)) by {
            assert(forall|j: int| 1 <= j < k0 + 1 ==> cs[j] == rest[j - 1]);
        }
        assert({
            &&& 0 <= k0 + 1 < cs.len()
            &&& cs[k0 + 1].id == ids.first()
            &&& node_matches_excl(cs[k0 + 1], ids.drop_first()).len() > 0
            &&& node_matches_in(cs, ids).first() == node_matches_excl(
                cs[k0 + 1],
                ids.drop_first(),
            ).first()
        });
    }
}

/// For two siblings with the same matching id, the earlier one wins: when
/// the subtree of child `i` has a hit, the overall first match comes from a
/// child at or before `i`, never from a later sibling.
pub proof fn lemma_earlier_sibling_wins(n: Node, ids: Seq<u16>, i: int)
    requires
        ids.len() >= 1,
        0 <= i < n.children@.len(),
        n.children@[i].id == ids.first(),
        node_matches_excl(n.children@[i], ids.drop_first()).len() > 0,
    ensures
        node_matches_excl(n, ids).len() > 0,
        exists|k: int|
            {
                &&& 0 <= k <= i
                &&& (#[trigger] n.children@[k]).id == ids.first()
                &&& node_matches_excl(n.children@[k], ids.drop_first()).len() > 0
                &&& node_matches_excl(n, ids).first() == node_matches_excl(
                    n.children@[k],
                    ids.drop_first(),
                ).first()
            },
{
    let cs = n.children@;
    lemma_node_matches_in_split(cs, ids, i);
    assert(cs.skip(i).first() == cs[i]);
    assert(node_matches_in(cs.skip(i), ids).len() > 0);
    assert(node_matches_in(cs, ids).len() > 0);
    lemma_depth_first_first_match(cs, ids);
    let k = choose|k: int|
        {
            &&& 0 <= k < cs.len()
            &&& (#[trigger] cs[k]).id == ids.first()
            &&& node_matches_excl(cs[k], ids.drop_first()).len() > 0
            &&& node_matches_in(cs, ids).first() == node_matches_excl(
                cs[k],
                ids.drop_first(),
            ).first()
            &&& forall|j: int|
                0 <= j < k ==> (cs[j].id != ids.first() || node_matches_excl(
                    cs[j],
                    ids.drop_first(),
                ).len() == 0)
        };
    assert(k <= i);
    assert({
        &&& 0 <= k <= i
        &&& n.children@[k].id == ids.first()
        &&& node_matches_excl(n.children@[k], ids.drop_first()).len() > 0
        &&& node_matches_excl(n, ids).first() == node_matches_excl(
            n.children@[k],
            ids.drop_first(),
        ).first()
    });
}

} // verus!
