//! Raw message model: the typed fields of a KRPC message, the mapping
//! between them and the generic bencode dictionary, and the error
//! taxonomy of decoding.
use vstd::prelude::*;

use crate::bencode;
use crate::bencode::{bv_enc, Bvalue, BvalueV};

verus! {

broadcast use {vstd::seq::group_seq_axioms, vstd::array::group_array_axioms};

// ---------------------------------------------------------------------
// Errors
// ---------------------------------------------------------------------
/// A present value had the wrong shape or an out-of-range content.
/// `context` is the trail of dictionary keys that leads to it.
#[derive(Clone, Debug, PartialEq, Eq)]
pub struct MalformedError {
    pub context: Vec<&'static str>,
    pub reason: &'static str,
}

/// Why a decode failed: a required field was absent, or a present
/// value was malformed.
#[derive(Clone, Debug, PartialEq, Eq)]
pub enum DecodeError {
    /// The named required field was absent; `context` is the trail of
    /// dictionary keys that leads to the dictionary missing it.
    MissingField { context: Vec<&'static str>, field: &'static str },
    /// A present value was malformed.
    Malformed(MalformedError),
}

/// Model of a decode failure.
pub enum DecodeErrorV {
    MissingField { context: Seq<Seq<char>>, field: Seq<char> },
    Malformed { context: Seq<Seq<char>>, reason: Seq<char> },
}

/// Models of a context trail.
pub open spec fn ctx_view(c: Seq<&'static str>) -> Seq<Seq<char>> {
    c.map_values(|t: &'static str| t@)
}

impl View for MalformedError {
    type V = DecodeErrorV;

    open spec fn view(&self) -> DecodeErrorV {
        DecodeErrorV::Malformed { context: ctx_view(self.context@), reason: self.reason@ }
    }
}

impl View for DecodeError {
    type V = DecodeErrorV;

    open spec fn view(&self) -> DecodeErrorV {
        match self {
            DecodeError::MissingField { context, field } => DecodeErrorV::MissingField {
                context: ctx_view(context@),
                field: field@,
            },
            DecodeError::Malformed(m) => m@,
        }
    }
}

/// A missing-field failure with an empty trail.
pub open spec fn missing_v(field: Seq<char>) -> DecodeErrorV {
    DecodeErrorV::MissingField { context: seq![], field }
}

/// A malformed-value failure with an empty trail.
pub open spec fn malformed_v(reason: Seq<char>) -> DecodeErrorV {
    DecodeErrorV::Malformed { context: seq![], reason }
}

/// `e` as seen from one dictionary level up, under key `k`.
pub open spec fn with_key(k: Seq<char>, e: DecodeErrorV) -> DecodeErrorV {
    match e {
        DecodeErrorV::MissingField { context, field } => DecodeErrorV::MissingField {
            context: seq![k] + context,
            field,
        },
        DecodeErrorV::Malformed { context, reason } => DecodeErrorV::Malformed {
            context: seq![k] + context,
            reason,
        },
    }
}

impl DecodeError {
    /// A fresh missing-field failure.
    pub fn missing(field: &'static str) -> (r: DecodeError)
        ensures
            r@ == missing_v(field@),
    {
        let r = DecodeError::MissingField { context: Vec::new(), field };
        proof {
            assert(ctx_view(Seq::<&'static str>::empty()) =~= Seq::<Seq<char>>::empty());
        }
        r
    }

    /// A fresh malformed-value failure.
    pub fn malformed(reason: &'static str) -> (r: DecodeError)
        ensures
            r@ == malformed_v(reason@),
    {
        let r = DecodeError::Malformed(MalformedError { context: Vec::new(), reason });
        proof {
            assert(ctx_view(Seq::<&'static str>::empty()) =~= Seq::<Seq<char>>::empty());
        }
        r
    }

    /// The failure as seen from one dictionary level up, under key `k`.
    pub fn in_context(self, k: &'static str) -> (r: DecodeError)
        ensures
            r@ == with_key(k@, self@),
    {
        match self {
            DecodeError::MissingField { mut context, field } => {
                let ghost c0 = context@;
                context.insert(0, k);
                proof {
                    assert(ctx_view(context@) =~= seq![k@] + ctx_view(c0));
                }
                DecodeError::MissingField { context, field }
            },
            DecodeError::Malformed(MalformedError { mut context, reason }) => {
                let ghost c0 = context@;
                context.insert(0, k);
                proof {
                    assert(ctx_view(context@) =~= seq![k@] + ctx_view(c0));
                }
                DecodeError::Malformed(MalformedError { context, reason })
            },
        }
    }
}

// ---------------------------------------------------------------------
// Dictionary keys and wire names
// ---------------------------------------------------------------------
/// Wire key `t`.
pub open spec fn key_t() -> Seq<u8> {
    seq![116u8]
}

/// Wire key `y`.
pub open spec fn key_y() -> Seq<u8> {
    seq![121u8]
}

/// Wire key `q`.
pub open spec fn key_q() -> Seq<u8> {
    seq![113u8]
}

/// Wire key `a`.
pub open spec fn key_a() -> Seq<u8> {
    seq![97u8]
}

/// Wire key `r`.
pub open spec fn key_r() -> Seq<u8> {
    seq![114u8]
}

/// Wire key `e`.
pub open spec fn key_e() -> Seq<u8> {
    seq![101u8]
}

/// Wire key `id`.
pub open spec fn key_id() -> Seq<u8> {
    seq![105u8, 100u8]
}

/// Wire key `implied_port`.
pub open spec fn key_implied_port() -> Seq<u8> {
    seq![105u8, 109u8, 112u8, 108u8, 105u8, 101u8, 100u8, 95u8, 112u8, 111u8, 114u8, 116u8]
}

/// Wire key `info_hash`.
pub open spec fn key_info_hash() -> Seq<u8> {
    seq![105u8, 110u8, 102u8, 111u8, 95u8, 104u8, 97u8, 115u8, 104u8]
}

/// Wire key `port`.
pub open spec fn key_port() -> Seq<u8> {
    seq![112u8, 111u8, 114u8, 116u8]
}

/// Wire key `target`.
pub open spec fn key_target() -> Seq<u8> {
    seq![116u8, 97u8, 114u8, 103u8, 101u8, 116u8]
}

/// Wire key `token`.
pub open spec fn key_token() -> Seq<u8> {
    seq![116u8, 111u8, 107u8, 101u8, 110u8]
}

/// Wire key `nodes`.
pub open spec fn key_nodes() -> Seq<u8> {
    seq![110u8, 111u8, 100u8, 101u8, 115u8]
}

/// Wire key `values`.
pub open spec fn key_values() -> Seq<u8> {
    seq![118u8, 97u8, 108u8, 117u8, 101u8, 115u8]
}

/// Wire name `ping`.
pub open spec fn name_ping() -> Seq<u8> {
    seq![112u8, 105u8, 110u8, 103u8]
}

/// Wire name `find_node`.
pub open spec fn name_find_node() -> Seq<u8> {
    seq![102u8, 105u8, 110u8, 100u8, 95u8, 110u8, 111u8, 100u8, 101u8]
}

/// Wire name `get_peers`.
pub open spec fn name_get_peers() -> Seq<u8> {
    seq![103u8, 101u8, 116u8, 95u8, 112u8, 101u8, 101u8, 114u8, 115u8]
}

/// Wire name `announce_peer`.
pub open spec fn name_announce_peer() -> Seq<u8> {
    seq![97u8, 110u8, 110u8, 111u8, 117u8, 110u8, 99u8, 101u8, 95u8, 112u8, 101u8, 101u8, 114u8]
}

/// Byte-wise equality of two slices.
pub fn bytes_eq(a: &[u8], b: &[u8]) -> (r: bool)
    ensures
        r == (a@ == b@),
{
    if a.len() != b.len() {
        return false;
    }
    let mut i: usize = 0;
    while i < a.len()
        invariant
            i <= a@.len(),
            a@.len() == b@.len(),
            forall|k: int| 0 <= k < i ==> a@[k] == #[trigger] b@[k],
        decreases a@.len() - i,
    {
        if a[i] != b[i] {
            return false;
        }
        i = i + 1;
    }
    proof {
        assert(a@ =~= b@);
    }
    true
}


// ---------------------------------------------------------------------
// Primitive codecs: Hash, CompactAddress, Node, and their lists
// ---------------------------------------------------------------------
/// A 20-byte node or content identifier.  Equality is byte-wise.
#[derive(Clone, Copy, PartialEq, Eq, Debug)]
pub struct Hash {
    pub bytes: [u8; 20],
}

impl View for Hash {
    type V = Seq<u8>;

    open spec fn view(&self) -> Seq<u8> {
        self.bytes@
    }
}

impl From<&[u8; 20]> for Hash {
    fn from(bytes: &[u8; 20]) -> (r: Hash) {
        Hash { bytes: *bytes }
    }
}

impl vstd::std_specs::convert::FromSpecImpl<&[u8; 20]> for Hash {
    open spec fn obeys_from_spec() -> bool {
        true
    }

    open spec fn from_spec(bytes: &[u8; 20]) -> Hash {
        Hash { bytes: *bytes }
    }
}

/// Copy of `bytes[i .. i + 20]` as an identifier.
fn hash_at(bytes: &[u8], i: usize) -> (r: Hash)
    requires
        i + 20 <= bytes@.len(),
    ensures
        r@ == bytes@.subrange(i as int, i + 20),
{
    let blen = bytes.len();
    let mut b: [u8; 20] = [0u8; 20];
    let mut t: usize = 0;
    while t < 20
        invariant
            t <= 20,
            i + 20 <= bytes@.len(),
            blen == bytes@.len(),
            forall|k: int| 0 <= k < t ==> b@[k] == #[trigger] bytes@[i + k],
        decreases 20 - t,
    {
        b[t] = bytes[i + t];
        t = t + 1;
    }
    proof {
        assert(b@.len() == 20);
        assert forall|k: int| 0 <= k < 20 implies b@[k] == bytes@.subrange(i as int, i + 20)[k] by {
            assert(b@[k] == bytes@[i + k]);
        }
        assert(b@ =~= bytes@.subrange(i as int, i + 20));
    }
    Hash { bytes: b }
}

impl Hash {
    /// Identifier read from exactly 20 bytes; any other length is
    /// malformed.
    pub fn decode(bytes: &[u8]) -> (r: Result<Hash, MalformedError>)
        ensures
            match r {
                Ok(h) => bytes@.len() == 20 && h@ == bytes@,
                Err(e) => bytes@.len() != 20 && e@ == malformed_v("expected 20 bytes str"@),
            },
    {
        if bytes.len() != 20 {
            let e = MalformedError { context: Vec::new(), reason: "expected 20 bytes str" };
            proof {
                assert(ctx_view(Seq::<&'static str>::empty()) =~= Seq::<Seq<char>>::empty());
            }
            return Err(e);
        }
        let h = hash_at(bytes, 0);
        proof {
            assert(bytes@.subrange(0, 20) =~= bytes@);
        }
        Ok(h)
    }

    /// The identifier's 20 wire bytes.
    pub fn encode(&self) -> (r: Vec<u8>)
        ensures
            r@ == self@,
            r@.len() == 20,
    {
        let mut out: Vec<u8> = Vec::new();
        out.extend_from_slice(self.bytes.as_slice());
        proof {
            assert(out@ =~= self@);
        }
        out
    }
}

/// Model of a compact address: four IPv4 octets and a port.
pub struct AddrV {
    pub ip: Seq<u8>,
    pub port: u16,
}

/// An IPv4 socket address in compact form: four octets and a 16-bit
/// big-endian port, 6 bytes on the wire.
#[derive(Clone, Copy, PartialEq, Eq, Debug)]
pub struct CompactAddress {
    pub ip: [u8; 4],
    pub port: u16,
}

impl View for CompactAddress {
    type V = AddrV;

    open spec fn view(&self) -> AddrV {
        AddrV { ip: self.ip@, port: self.port }
    }
}

/// The address encoded in a 6-byte window.
pub open spec fn addr_of_bytes(b: Seq<u8>) -> AddrV {
    AddrV { ip: b.subrange(0, 4), port: (b[4] * 256 + b[5]) as u16 }
}

/// The 6 wire bytes of an address.
pub open spec fn addr_bytes(a: AddrV) -> Seq<u8> {
    a.ip + seq![(a.port / 256) as u8, (a.port % 256) as u8]
}

impl CompactAddress {
    /// An address from its octets and port.
    pub fn new(ip: [u8; 4], port: u16) -> (r: CompactAddress)
        ensures
            r@ == (AddrV { ip: ip@, port }),
    {
        CompactAddress { ip, port }
    }

    /// Address read from exactly 6 bytes: four octets, then the port
    /// in big-endian order.  Any other length is malformed.
    pub fn decode(bytes: &[u8]) -> (r: Result<CompactAddress, MalformedError>)
        ensures
            match r {
                Ok(a) => bytes@.len() == 6 && a@ == addr_of_bytes(bytes@),
                Err(e) => bytes@.len() != 6 && e@ == malformed_v("address must be 6 bytes"@),
            },
    {
        if bytes.len() != 6 {
            let e = MalformedError { context: Vec::new(), reason: "address must be 6 bytes" };
            proof {
                assert(ctx_view(Seq::<&'static str>::empty()) =~= Seq::<Seq<char>>::empty());
            }
            return Err(e);
        }
        let ip: [u8; 4] = [bytes[0], bytes[1], bytes[2], bytes[3]];
        let port = (bytes[4] as u16) * 256 + (bytes[5] as u16);
        proof {
            assert(ip@ =~= bytes@.subrange(0, 4));
        }
        Ok(CompactAddress { ip, port })
    }

    /// The address's 6 wire bytes.
    pub fn encode(&self) -> (r: Vec<u8>)
        ensures
            r@ == addr_bytes(self@),
            r@.len() == 6,
    {
        let mut out: Vec<u8> = Vec::new();
        out.extend_from_slice(self.ip.as_slice());
        out.push((self.port / 256) as u8);
        out.push((self.port % 256) as u8);
        proof {
            assert(out@ =~= addr_bytes(self@));
        }
        out
    }
}

/// Model of a node record: identifier plus address.
pub struct NodeV {
    pub id: Seq<u8>,
    pub addr: AddrV,
}

/// A routing-table entry: a node's identifier and its address,
/// 26 bytes on the wire (identifier first).
#[derive(Clone, Copy, PartialEq, Eq, Debug)]
pub struct Node {
    pub id: Hash,
    pub addr: CompactAddress,
}

impl View for Node {
    type V = NodeV;

    open spec fn view(&self) -> NodeV {
        NodeV { id: self.id@, addr: self.addr@ }
    }
}

/// The node encoded in a 26-byte window: identifier, then address.
pub open spec fn node_of_bytes(b: Seq<u8>) -> NodeV {
    NodeV { id: b.subrange(0, 20), addr: addr_of_bytes(b.subrange(20, 26)) }
}

/// The 26 wire bytes of a node.
pub open spec fn node_bytes(n: NodeV) -> Seq<u8> {
    n.id + addr_bytes(n.addr)
}

impl Node {
    /// A node from its identifier and address.
    pub fn new(id: Hash, addr: CompactAddress) -> (r: Node)
        ensures
            r@ == (NodeV { id: id@, addr: addr@ }),
    {
        Node { id, addr }
    }

    /// Node read from exactly 26 bytes: 20 identifier bytes, then a
    /// 6-byte address.  Any other length is malformed.
    pub fn decode(bytes: &[u8]) -> (r: Result<Node, MalformedError>)
        ensures
            match r {
                Ok(n) => bytes@.len() == 26 && n@ == node_of_bytes(bytes@),
                Err(e) => bytes@.len() != 26 && e@ == malformed_v("node must be 26 bytes"@),
            },
    {
        if bytes.len() != 26 {
            let e = MalformedError { context: Vec::new(), reason: "node must be 26 bytes" };
            proof {
                assert(ctx_view(Seq::<&'static str>::empty()) =~= Seq::<Seq<char>>::empty());
            }
            return Err(e);
        }
        let n = node_at(bytes, 0);
        proof {
            assert(bytes@.subrange(0, 26) =~= bytes@);
        }
        Ok(n)
    }

    /// The node's 26 wire bytes.
    pub fn encode(&self) -> (r: Vec<u8>)
        ensures
            r@ == node_bytes(self@),
            r@.len() == 26,
    {
        let mut out = self.id.encode();
        let addr = self.addr.encode();
        out.extend_from_slice(addr.as_slice());
        proof {
            assert(out@ =~= node_bytes(self@));
        }
        out
    }
}

/// Node read from the 26-byte window of `bytes` that starts at `i`.
fn node_at(bytes: &[u8], i: usize) -> (r: Node)
    requires
        i + 26 <= bytes@.len(),
    ensures
        r@ == node_of_bytes(bytes@.subrange(i as int, i + 26)),
{
    let blen = bytes.len();
    let id = hash_at(bytes, i);
    let ip: [u8; 4] = [bytes[i + 20], bytes[i + 21], bytes[i + 22], bytes[i + 23]];
    let port = (bytes[i + 24] as u16) * 256 + (bytes[i + 25] as u16);
    let r = Node { id, addr: CompactAddress { ip, port } };
    proof {
        let w = bytes@.subrange(i as int, i + 26);
        assert(id@ =~= w.subrange(0, 20));
        assert(ip@ =~= w.subrange(20, 26).subrange(0, 4));
        assert(w.subrange(20, 26)[4] == bytes@[i + 24]);
        assert(w.subrange(20, 26)[5] == bytes@[i + 25]);
    }
    r
}

/// Models of a sequence of nodes.
pub open spec fn nodes_view(ns: Seq<Node>) -> Seq<NodeV> {
    ns.map_values(|n: Node| n@)
}

/// Models of a sequence of addresses.
pub open spec fn addrs_view(vs: Seq<CompactAddress>) -> Seq<AddrV> {
    vs.map_values(|a: CompactAddress| a@)
}

/// The nodes packed in a byte string, 26 bytes each, in order.
pub open spec fn nodes_of_bytes(b: Seq<u8>) -> Seq<NodeV>
    decreases b.len(),
{
    if b.len() < 26 {
        seq![]
    } else {
        seq![node_of_bytes(b.subrange(0, 26))] + nodes_of_bytes(b.subrange(26, b.len() as int))
    }
}

/// The concatenated 26-byte encodings of a sequence of nodes.
pub open spec fn nodes_bytes(ns: Seq<NodeV>) -> Seq<u8>
    decreases ns.len(),
{
    if ns.len() == 0 {
        seq![]
    } else {
        node_bytes(ns[0]) + nodes_bytes(ns.subrange(1, ns.len() as int))
    }
}

/// The addresses packed in a byte string, 6 bytes each, in order.
pub open spec fn addrs_of_bytes(b: Seq<u8>) -> Seq<AddrV>
    decreases b.len(),
{
    if b.len() < 6 {
        seq![]
    } else {
        seq![addr_of_bytes(b.subrange(0, 6))] + addrs_of_bytes(b.subrange(6, b.len() as int))
    }
}

/// The concatenated 6-byte encodings of a sequence of addresses.
pub open spec fn addrs_bytes(vs: Seq<AddrV>) -> Seq<u8>
    decreases vs.len(),
{
    if vs.len() == 0 {
        seq![]
    } else {
        addr_bytes(vs[0]) + addrs_bytes(vs.subrange(1, vs.len() as int))
    }
}

/// Nodes read from a packed byte string; the length must be a multiple
/// of 26.
#[verifier::rlimit(100)]
#[verifier::spinoff_prover]
pub fn decode_node_list(bytes: &[u8]) -> (r: Result<Vec<Node>, MalformedError>)
    ensures
        match r {
            Ok(ns) => bytes@.len() % 26 == 0 && nodes_view(ns@) == nodes_of_bytes(bytes@),
            Err(e) => bytes@.len() % 26 != 0 && e@ == malformed_v("node must be 26 bytes"@),
        },
{
    if bytes.len() % 26 != 0 {
        let e = MalformedError { context: Vec::new(), reason: "node must be 26 bytes" };
        proof {
            assert(ctx_view(Seq::<&'static str>::empty()) =~= Seq::<Seq<char>>::empty());
        }
        return Err(e);
    }
    let blen = bytes.len();
    let mut out: Vec<Node> = Vec::new();
    let mut i: usize = 0;
    proof {
        assert(bytes@.subrange(0, bytes@.len() as int) =~= bytes@);
        assert(nodes_view(out@) =~= Seq::<NodeV>::empty());
    }
    while i < bytes.len()
        invariant
            i <= bytes@.len(),
            i % 26 == 0,
            bytes@.len() % 26 == 0,
            blen == bytes@.len(),
            nodes_view(out@) + nodes_of_bytes(bytes@.subrange(i as int, bytes@.len() as int))
                =~= nodes_of_bytes(bytes@),
        decreases bytes@.len() - i,
    {
        let n = node_at(bytes, i);
        proof {
            let tail = bytes@.subrange(i as int, bytes@.len() as int);
            assert(tail.subrange(0, 26) =~= bytes@.subrange(i as int, i + 26));
            assert(tail.subrange(26, tail.len() as int) =~= bytes@.subrange(
                i + 26,
                bytes@.len() as int,
            ));
            assert(nodes_view(out@.push(n)) =~= nodes_view(out@) + seq![n@]);
        }
        out.push(n);
        i = i + 26;
    }
    proof {
        assert(bytes@.subrange(bytes@.len() as int, bytes@.len() as int) =~= Seq::<u8>::empty());
        assert(nodes_view(out@) =~= nodes_of_bytes(bytes@));
    }
    Ok(out)
}

/// The packed wire bytes of a sequence of nodes, in input order.
pub fn encode_node_list(nodes: &[Node]) -> (r: Vec<u8>)
    ensures
        r@ == nodes_bytes(nodes_view(nodes@)),
{
    let mut out: Vec<u8> = Vec::new();
    let mut i: usize = 0;
    while i < nodes.len()
        invariant
            i <= nodes@.len(),
            out@ == nodes_bytes(nodes_view(nodes@.subrange(0, i as int))),
        decreases nodes@.len() - i,
    {
        let nb = nodes[i].encode();
        out.extend_from_slice(nb.as_slice());
        proof {
            lemma_nodes_bytes_push(nodes_view(nodes@.subrange(0, i as int)), nodes@[i as int]@);
            assert(nodes@.subrange(0, i as int).push(nodes@[i as int]) =~= nodes@.subrange(
                0,
                i + 1,
            ));
            assert(nodes_view(nodes@.subrange(0, i as int).push(nodes@[i as int])) =~= nodes_view(
                nodes@.subrange(0, i as int),
            ).push(nodes@[i as int]@));
        }
        i = i + 1;
    }
    proof {
        assert(nodes@.subrange(0, nodes@.len() as int) =~= nodes@);
    }
    out
}

/// Appending a node appends its 26 bytes.
pub proof fn lemma_nodes_bytes_push(ns: Seq<NodeV>, n: NodeV)
    ensures
        nodes_bytes(ns.push(n)) == nodes_bytes(ns) + node_bytes(n),
    decreases ns.len(),
{
    if ns.len() == 0 {
        assert(ns.push(n).subrange(1, 1) =~= Seq::<NodeV>::empty());
        assert(ns.push(n)[0] == n);
        assert(nodes_bytes(ns.push(n)) == node_bytes(ns.push(n)[0]) + nodes_bytes(
            ns.push(n).subrange(1, 1),
        ));
        assert(nodes_bytes(ns.push(n)) =~= nodes_bytes(ns) + node_bytes(n));
    } else {
        lemma_nodes_bytes_push(ns.subrange(1, ns.len() as int), n);
        assert(ns.push(n).subrange(1, ns.len() as int + 1) =~= ns.subrange(1, ns.len() as int).push(
            n,
        ));
        assert(nodes_bytes(ns.push(n)) =~= nodes_bytes(ns) + node_bytes(n));
    }
}

/// Appending an address appends its 6 bytes.
pub proof fn lemma_addrs_bytes_push(vs: Seq<AddrV>, a: AddrV)
    ensures
        addrs_bytes(vs.push(a)) == addrs_bytes(vs) + addr_bytes(a),
    decreases vs.len(),
{
    if vs.len() == 0 {
        assert(vs.push(a).subrange(1, 1) =~= Seq::<AddrV>::empty());
        assert(vs.push(a)[0] == a);
        assert(addrs_bytes(vs.push(a)) == addr_bytes(vs.push(a)[0]) + addrs_bytes(
            vs.push(a).subrange(1, 1),
        ));
        assert(addrs_bytes(vs.push(a)) =~= addrs_bytes(vs) + addr_bytes(a));
    } else {
        lemma_addrs_bytes_push(vs.subrange(1, vs.len() as int), a);
        assert(vs.push(a).subrange(1, vs.len() as int + 1) =~= vs.subrange(1, vs.len() as int).push(
            a,
        ));
        assert(addrs_bytes(vs.push(a)) =~= addrs_bytes(vs) + addr_bytes(a));
    }
}

/// Addresses read from a packed byte string; the length must be a
/// multiple of 6.
pub fn decode_address_list(bytes: &[u8]) -> (r: Result<Vec<CompactAddress>, MalformedError>)
    ensures
        match r {
            Ok(vs) => bytes@.len() % 6 == 0 && addrs_view(vs@) == addrs_of_bytes(bytes@),
            Err(e) => bytes@.len() % 6 != 0 && e@ == malformed_v("address must be 6 bytes"@),
        },
{
    if bytes.len() % 6 != 0 {
        let e = MalformedError { context: Vec::new(), reason: "address must be 6 bytes" };
        proof {
            assert(ctx_view(Seq::<&'static str>::empty()) =~= Seq::<Seq<char>>::empty());
        }
        return Err(e);
    }
    let blen = bytes.len();
    let mut out: Vec<CompactAddress> = Vec::new();
    let mut i: usize = 0;
    proof {
        assert(bytes@.subrange(0, bytes@.len() as int) =~= bytes@);
        assert(addrs_view(out@) =~= Seq::<AddrV>::empty());
    }
    while i < bytes.len()
        invariant
            i <= bytes@.len(),
            i % 6 == 0,
            bytes@.len() % 6 == 0,
            blen == bytes@.len(),
            addrs_view(out@) + addrs_of_bytes(bytes@.subrange(i as int, bytes@.len() as int))
                =~= addrs_of_bytes(bytes@),
        decreases bytes@.len() - i,
    {
        let ip: [u8; 4] = [bytes[i], bytes[i + 1], bytes[i + 2], bytes[i + 3]];
        let port = (bytes[i + 4] as u16) * 256 + (bytes[i + 5] as u16);
        let a = CompactAddress { ip, port };
        proof {
            let tail = bytes@.subrange(i as int, bytes@.len() as int);
            assert(tail.subrange(0, 6) =~= bytes@.subrange(i as int, i + 6));
            assert(ip@ =~= bytes@.subrange(i as int, i + 6).subrange(0, 4));
            assert(bytes@.subrange(i as int, i + 6)[4] == bytes@[i + 4]);
            assert(bytes@.subrange(i as int, i + 6)[5] == bytes@[i + 5]);
            assert(tail.subrange(6, tail.len() as int) =~= bytes@.subrange(
                i + 6,
                bytes@.len() as int,
            ));
            assert(addrs_view(out@.push(a)) =~= addrs_view(out@) + seq![a@]);
        }
        out.push(a);
        i = i + 6;
    }
    proof {
        assert(bytes@.subrange(bytes@.len() as int, bytes@.len() as int) =~= Seq::<u8>::empty());
        assert(addrs_view(out@) =~= addrs_of_bytes(bytes@));
    }
    Ok(out)
}

/// The packed wire bytes of a sequence of addresses, in input order.
pub fn encode_address_list(addrs: &[CompactAddress]) -> (r: Vec<u8>)
    ensures
        r@ == addrs_bytes(addrs_view(addrs@)),
{
    let mut out: Vec<u8> = Vec::new();
    let mut i: usize = 0;
    while i < addrs.len()
        invariant
            i <= addrs@.len(),
            out@ == addrs_bytes(addrs_view(addrs@.subrange(0, i as int))),
        decreases addrs@.len() - i,
    {
        let ab = addrs[i].encode();
        out.extend_from_slice(ab.as_slice());
        proof {
            lemma_addrs_bytes_push(addrs_view(addrs@.subrange(0, i as int)), addrs@[i as int]@);
            assert(addrs@.subrange(0, i as int).push(addrs@[i as int]) =~= addrs@.subrange(
                0,
                i + 1,
            ));
            assert(addrs_view(addrs@.subrange(0, i as int).push(addrs@[i as int]))
                =~= addrs_view(addrs@.subrange(0, i as int)).push(addrs@[i as int]@));
        }
        i = i + 1;
    }
    proof {
        assert(addrs@.subrange(0, addrs@.len() as int) =~= addrs@);
    }
    out
}


// ---------------------------------------------------------------------
// Message class and query kind
// ---------------------------------------------------------------------
/// The message class, the wire value of the dictionary's `y` key.
#[derive(Clone, Copy, PartialEq, Eq, Debug)]
pub enum MessageType {
    /// `y` = `q`
    Query,
    /// `y` = `r`
    Response,
    /// `y` = `e`
    Error,
}

/// The query kind, the wire value of the dictionary's `q` key,
/// present only for queries.
#[derive(Clone, Copy, PartialEq, Eq, Debug)]
pub enum QueryType {
    /// `q` = `ping`
    Ping,
    /// `q` = `find_node`
    FindNode,
    /// `q` = `get_peers`
    GetPeers,
    /// `q` = `announce_peer`
    AnnouncePeer,
}

/// The one-byte wire value of a message class.
pub open spec fn msg_type_wire(y: MessageType) -> Seq<u8> {
    match y {
        MessageType::Query => seq![113u8],
        MessageType::Response => seq![114u8],
        MessageType::Error => seq![101u8],
    }
}

/// The wire name of a query kind.
pub open spec fn query_type_wire(q: QueryType) -> Seq<u8> {
    match q {
        QueryType::Ping => name_ping(),
        QueryType::FindNode => name_find_node(),
        QueryType::GetPeers => name_get_peers(),
        QueryType::AnnouncePeer => name_announce_peer(),
    }
}

impl MessageType {
    /// The class's wire byte.
    pub fn encode(&self) -> (r: Vec<u8>)
        ensures
            r@ == msg_type_wire(*self),
    {
        let r: Vec<u8> = match self {
            MessageType::Query => vec![113u8],
            MessageType::Response => vec![114u8],
            MessageType::Error => vec![101u8],
        };
        r
    }
}

impl QueryType {
    /// The kind's wire name.
    pub fn encode(&self) -> (r: Vec<u8>)
        ensures
            r@ == query_type_wire(*self),
    {
        let r: Vec<u8> = match self {
            QueryType::Ping => vec![112u8, 105u8, 110u8, 103u8],
            QueryType::FindNode => vec![102u8, 105u8, 110u8, 100u8, 95u8, 110u8, 111u8, 100u8, 101u8],
            QueryType::GetPeers => vec![103u8, 101u8, 116u8, 95u8, 112u8, 101u8, 101u8, 114u8, 115u8],
            QueryType::AnnouncePeer => vec![
                97u8,
                110u8,
                110u8,
                111u8,
                117u8,
                110u8,
                99u8,
                101u8,
                95u8,
                112u8,
                101u8,
                101u8,
                114u8,
            ],
        };
        r
    }
}

// ---------------------------------------------------------------------
// Field sub-decoders over the generic value model
// ---------------------------------------------------------------------
/// Read of the `y` value: one byte, `q`, `r` or `e`.
pub open spec fn sd_msg_type(v: BvalueV) -> Result<MessageType, DecodeErrorV> {
    match v {
        BvalueV::Bytes(b) => if b == msg_type_wire(MessageType::Query) {
            Ok(MessageType::Query)
        } else if b == msg_type_wire(MessageType::Response) {
            Ok(MessageType::Response)
        } else if b == msg_type_wire(MessageType::Error) {
            Ok(MessageType::Error)
        } else {
            Err(malformed_v("'y' must be q, r, or e"@))
        },
        _ => Err(malformed_v("expected a byte string"@)),
    }
}

/// Read of the `q` value: one of the four query names.
pub open spec fn sd_query_type(v: BvalueV) -> Result<QueryType, DecodeErrorV> {
    match v {
        BvalueV::Bytes(b) => if b == name_ping() {
            Ok(QueryType::Ping)
        } else if b == name_find_node() {
            Ok(QueryType::FindNode)
        } else if b == name_get_peers() {
            Ok(QueryType::GetPeers)
        } else if b == name_announce_peer() {
            Ok(QueryType::AnnouncePeer)
        } else {
            Err(malformed_v("'q' must be one of 4 query types"@))
        },
        _ => Err(malformed_v("expected a byte string"@)),
    }
}

/// Read of an identifier value: a 20-byte string.
pub open spec fn sd_hash(v: BvalueV) -> Result<Seq<u8>, DecodeErrorV> {
    match v {
        BvalueV::Bytes(b) => if b.len() == 20 {
            Ok(b)
        } else {
            Err(malformed_v("expected 20 bytes str"@))
        },
        _ => Err(malformed_v("expected a byte string"@)),
    }
}

/// Read of an opaque byte-string value.
pub open spec fn sd_bytes(v: BvalueV) -> Result<Seq<u8>, DecodeErrorV> {
    match v {
        BvalueV::Bytes(b) => Ok(b),
        _ => Err(malformed_v("expected a byte string"@)),
    }
}

/// Read of the `t` value: exactly 2 raw bytes, a big-endian 16-bit
/// transaction id.
pub open spec fn sd_tid(v: BvalueV) -> Result<u16, DecodeErrorV> {
    match v {
        BvalueV::Bytes(b) => if b.len() == 2 {
            Ok((b[0] * 256 + b[1]) as u16)
        } else {
            Err(malformed_v("t must be 2 byte str"@))
        },
        _ => Err(malformed_v("expected a byte string"@)),
    }
}

/// Read of the `implied_port` value: an integer, true exactly for 1.
pub open spec fn sd_implied_port(v: BvalueV) -> Result<bool, DecodeErrorV> {
    match v {
        BvalueV::Int(n) => Ok(n == 1),
        _ => Err(malformed_v("expected an integer"@)),
    }
}

/// Read of the `port` value: an integer that fits in 16 bits.
pub open spec fn sd_port(v: BvalueV) -> Result<u16, DecodeErrorV> {
    match v {
        BvalueV::Int(n) => if 0 <= n <= 65535 {
            Ok(n as u16)
        } else {
            Err(malformed_v("port must be a 16 bit integer"@))
        },
        _ => Err(malformed_v("expected an integer"@)),
    }
}

/// Read of the `nodes` value: a byte string packing whole 26-byte
/// node records.
pub open spec fn sd_nodes(v: BvalueV) -> Result<Seq<NodeV>, DecodeErrorV> {
    match v {
        BvalueV::Bytes(b) => if b.len() % 26 == 0 {
            Ok(nodes_of_bytes(b))
        } else {
            Err(malformed_v("node must be 26 bytes"@))
        },
        _ => Err(malformed_v("expected a byte string"@)),
    }
}

/// Read of the members of a `values` list: each a 6-byte string.
pub open spec fn sd_addr_items(items: Seq<BvalueV>) -> Result<Seq<AddrV>, DecodeErrorV>
    decreases items.len(),
{
    if items.len() == 0 {
        Ok(seq![])
    } else {
        match items[0] {
            BvalueV::Bytes(b) => if b.len() == 6 {
                match sd_addr_items(items.subrange(1, items.len() as int)) {
                    Ok(vs) => Ok(seq![addr_of_bytes(b)] + vs),
                    Err(e) => Err(e),
                }
            } else {
                Err(malformed_v("address must be 6 bytes"@))
            },
            _ => Err(malformed_v("expected a byte string"@)),
        }
    }
}

/// Read of the `values` value: a list of 6-byte strings.
pub open spec fn sd_values(v: BvalueV) -> Result<Seq<AddrV>, DecodeErrorV> {
    match v {
        BvalueV::List(items) => sd_addr_items(items),
        _ => Err(malformed_v("expected a list"@)),
    }
}

// ---------------------------------------------------------------------
// Executable field sub-decoders
// ---------------------------------------------------------------------
/// Decoder for an identifier field.
fn decode_hash(v: &Bvalue) -> (r: Result<Hash, DecodeError>)
    ensures
        match r {
            Ok(h) => sd_hash(bencode::bv_view(*v)) == Ok::<Seq<u8>, DecodeErrorV>(h@),
            Err(e) => sd_hash(bencode::bv_view(*v)) == Err::<Seq<u8>, DecodeErrorV>(e@),
        },
{
    match v {
        Bvalue::Bytes(b) => {
            if b.len() == 20 {
                let h = hash_at(b.as_slice(), 0);
                proof {
                    assert(b@.subrange(0, 20) =~= b@);
                }
                Ok(h)
            } else {
                Err(DecodeError::malformed("expected 20 bytes str"))
            }
        },
        _ => Err(DecodeError::malformed("expected a byte string")),
    }
}

/// Decoder for an opaque byte-string field.
fn decode_bytes(v: &Bvalue) -> (r: Result<Vec<u8>, DecodeError>)
    ensures
        match r {
            Ok(b) => sd_bytes(bencode::bv_view(*v)) == Ok::<Seq<u8>, DecodeErrorV>(b@),
            Err(e) => sd_bytes(bencode::bv_view(*v)) == Err::<Seq<u8>, DecodeErrorV>(e@),
        },
{
    match v {
        Bvalue::Bytes(b) => Ok(vstd::slice::slice_to_vec(b.as_slice())),
        _ => Err(DecodeError::malformed("expected a byte string")),
    }
}

/// Decoder for the `y` field.
fn decode_msg_type(v: &Bvalue) -> (r: Result<MessageType, DecodeError>)
    ensures
        match r {
            Ok(y) => sd_msg_type(bencode::bv_view(*v)) == Ok::<MessageType, DecodeErrorV>(y),
            Err(e) => sd_msg_type(bencode::bv_view(*v)) == Err::<MessageType, DecodeErrorV>(e@),
        },
{
    match v {
        Bvalue::Bytes(b) => {
            let q: Vec<u8> = vec![113u8];
            let rr: Vec<u8> = vec![114u8];
            let e: Vec<u8> = vec![101u8];
            proof {
                assert(q@ =~= msg_type_wire(MessageType::Query));
                assert(rr@ =~= msg_type_wire(MessageType::Response));
                assert(e@ =~= msg_type_wire(MessageType::Error));
            }
            if bytes_eq(b.as_slice(), q.as_slice()) {
                Ok(MessageType::Query)
            } else if bytes_eq(b.as_slice(), rr.as_slice()) {
                Ok(MessageType::Response)
            } else if bytes_eq(b.as_slice(), e.as_slice()) {
                Ok(MessageType::Error)
            } else {
                Err(DecodeError::malformed("'y' must be q, r, or e"))
            }
        },
        _ => Err(DecodeError::malformed("expected a byte string")),
    }
}

/// Decoder for the `q` field.
fn decode_query_type(v: &Bvalue) -> (r: Result<QueryType, DecodeError>)
    ensures
        match r {
            Ok(q) => sd_query_type(bencode::bv_view(*v)) == Ok::<QueryType, DecodeErrorV>(q),
            Err(e) => sd_query_type(bencode::bv_view(*v)) == Err::<QueryType, DecodeErrorV>(e@),
        },
{
    match v {
        Bvalue::Bytes(b) => {
            let ping = QueryType::Ping.encode();
            let find_node = QueryType::FindNode.encode();
            let get_peers = QueryType::GetPeers.encode();
            let announce_peer = QueryType::AnnouncePeer.encode();
            if bytes_eq(b.as_slice(), ping.as_slice()) {
                Ok(QueryType::Ping)
            } else if bytes_eq(b.as_slice(), find_node.as_slice()) {
                Ok(QueryType::FindNode)
            } else if bytes_eq(b.as_slice(), get_peers.as_slice()) {
                Ok(QueryType::GetPeers)
            } else if bytes_eq(b.as_slice(), announce_peer.as_slice()) {
                Ok(QueryType::AnnouncePeer)
            } else {
                Err(DecodeError::malformed("'q' must be one of 4 query types"))
            }
        },
        _ => Err(DecodeError::malformed("expected a byte string")),
    }
}

/// Decoder for the `t` field.
fn decode_tid(v: &Bvalue) -> (r: Result<u16, DecodeError>)
    ensures
        match r {
            Ok(t) => sd_tid(bencode::bv_view(*v)) == Ok::<u16, DecodeErrorV>(t),
            Err(e) => sd_tid(bencode::bv_view(*v)) == Err::<u16, DecodeErrorV>(e@),
        },
{
    match v {
        Bvalue::Bytes(b) => {
            if b.len() == 2 {
                Ok((b[0] as u16) * 256 + (b[1] as u16))
            } else {
                Err(DecodeError::malformed("t must be 2 byte str"))
            }
        },
        _ => Err(DecodeError::malformed("expected a byte string")),
    }
}

/// Decoder for the `implied_port` field.
fn decode_implied_port(v: &Bvalue) -> (r: Result<bool, DecodeError>)
    ensures
        match r {
            Ok(b) => sd_implied_port(bencode::bv_view(*v)) == Ok::<bool, DecodeErrorV>(b),
            Err(e) => sd_implied_port(bencode::bv_view(*v)) == Err::<bool, DecodeErrorV>(e@),
        },
{
    match v {
        Bvalue::Int(n) => Ok(*n == 1),
        _ => Err(DecodeError::malformed("expected an integer")),
    }
}

/// Decoder for the `port` field.
fn decode_port(v: &Bvalue) -> (r: Result<u16, DecodeError>)
    ensures
        match r {
            Ok(p) => sd_port(bencode::bv_view(*v)) == Ok::<u16, DecodeErrorV>(p),
            Err(e) => sd_port(bencode::bv_view(*v)) == Err::<u16, DecodeErrorV>(e@),
        },
{
    match v {
        Bvalue::Int(n) => {
            if 0 <= *n && *n <= 65535 {
                Ok(*n as u16)
            } else {
                Err(DecodeError::malformed("port must be a 16 bit integer"))
            }
        },
        _ => Err(DecodeError::malformed("expected an integer")),
    }
}

/// Decoder for the `nodes` field.
fn decode_nodes(v: &Bvalue) -> (r: Result<Vec<Node>, DecodeError>)
    ensures
        match r {
            Ok(ns) => sd_nodes(bencode::bv_view(*v)) == Ok::<Seq<NodeV>, DecodeErrorV>(
                nodes_view(ns@),
            ),
            Err(e) => sd_nodes(bencode::bv_view(*v)) == Err::<Seq<NodeV>, DecodeErrorV>(e@),
        },
{
    match v {
        Bvalue::Bytes(b) => {
            match decode_node_list(b.as_slice()) {
                Ok(ns) => Ok(ns),
                Err(_) => Err(DecodeError::malformed("node must be 26 bytes")),
            }
        },
        _ => Err(DecodeError::malformed("expected a byte string")),
    }
}

/// Decoder for the `values` field.
fn decode_values(v: &Bvalue) -> (r: Result<Vec<CompactAddress>, DecodeError>)
    ensures
        match r {
            Ok(vs) => sd_values(bencode::bv_view(*v)) == Ok::<Seq<AddrV>, DecodeErrorV>(
                addrs_view(vs@),
            ),
            Err(e) => sd_values(bencode::bv_view(*v)) == Err::<Seq<AddrV>, DecodeErrorV>(e@),
        },
{
    match v {
        Bvalue::List(items) => {
            let ghost ivs = bencode::bv_view_items(items@);
            let mut out: Vec<CompactAddress> = Vec::new();
            let mut idx: usize = 0;
            proof {
                bencode::lemma_view_items_index(items@, 0);
                assert(ivs.subrange(0, ivs.len() as int) =~= ivs);
                assert(addrs_view(out@) =~= Seq::<AddrV>::empty());
            }
            while idx < items.len()
                invariant
                    idx <= items@.len(),
                    ivs == bencode::bv_view_items(items@),
                    ivs.len() == items@.len(),
                    bencode::bv_view(*v) == BvalueV::List(ivs),
                    sd_addr_items(ivs) == match sd_addr_items(
                        ivs.subrange(idx as int, ivs.len() as int),
                    ) {
                        Ok(vs) => Ok::<Seq<AddrV>, DecodeErrorV>(addrs_view(out@) + vs),
                        Err(e) => Err::<Seq<AddrV>, DecodeErrorV>(e),
                    },
                decreases items@.len() - idx,
            {
                proof {
                    bencode::lemma_view_items_index(items@, idx as int);
                    assert(ivs.subrange(idx as int, ivs.len() as int)[0] == ivs[idx as int]);
                    assert(ivs.subrange(idx as int, ivs.len() as int).subrange(
                        1,
                        ivs.len() - idx,
                    ) =~= ivs.subrange(idx as int + 1, ivs.len() as int));
                }
                match &items[idx] {
                    Bvalue::Bytes(b) => {
                        if b.len() == 6 {
                            let ip: [u8; 4] = [b[0], b[1], b[2], b[3]];
                            let port = (b[4] as u16) * 256 + (b[5] as u16);
                            let a = CompactAddress { ip, port };
                            proof {
                                assert(ip@ =~= b@.subrange(0, 4));
                                assert(addrs_view(out@.push(a)) =~= addrs_view(out@) + seq![a@]);
                                assert forall|vs: Seq<AddrV>|
                                    (addrs_view(out@) + seq![a@]) + vs =~= addrs_view(out@) + (
                                    seq![a@] + vs) by {
                                }
                            }
                            out.push(a);
                            idx = idx + 1;
                        } else {
                            proof {
                                assert(sd_addr_items(ivs.subrange(idx as int, ivs.len() as int))
                                    == Err::<Seq<AddrV>, DecodeErrorV>(malformed_v(
                                    "address must be 6 bytes"@,
                                )));
                            }
                            return Err(DecodeError::malformed("address must be 6 bytes"));
                        }
                    },
                    _ => {
                        proof {
                            assert(sd_addr_items(ivs.subrange(idx as int, ivs.len() as int))
                                == Err::<Seq<AddrV>, DecodeErrorV>(malformed_v(
                                "expected a byte string"@,
                            )));
                        }
                        return Err(DecodeError::malformed("expected a byte string"));
                    },
                }
            }
            proof {
                assert(ivs.subrange(ivs.len() as int, ivs.len() as int) =~= Seq::<BvalueV>::empty());
                assert(addrs_view(out@) + Seq::<AddrV>::empty() =~= addrs_view(out@));
            }
            Ok(out)
        },
        _ => Err(DecodeError::malformed("expected a list")),
    }
}


// ---------------------------------------------------------------------
// Query arguments
// ---------------------------------------------------------------------
/// Models of optional fields.
pub open spec fn opt_hash_view(o: Option<Hash>) -> Option<Seq<u8>> {
    match o {
        Some(h) => Some(h@),
        None => None,
    }
}

/// Model of an optional byte string.
pub open spec fn opt_bytes_view(o: Option<Vec<u8>>) -> Option<Seq<u8>> {
    match o {
        Some(b) => Some(b@),
        None => None,
    }
}

/// Model of an optional node list.
pub open spec fn opt_nodes_view(o: Option<Vec<Node>>) -> Option<Seq<NodeV>> {
    match o {
        Some(ns) => Some(nodes_view(ns@)),
        None => None,
    }
}

/// Model of an optional address list.
pub open spec fn opt_addrs_view(o: Option<Vec<CompactAddress>>) -> Option<Seq<AddrV>> {
    match o {
        Some(vs) => Some(addrs_view(vs@)),
        None => None,
    }
}

/// The `a` dictionary of a query: the sender, and the fields whose
/// presence depends on the query kind.
#[derive(Clone, Debug, PartialEq, Eq)]
pub struct QueryArgs {
    /// Wire key `id`, always required.
    pub sender_id: Hash,
    /// Wire key `target`, required for find-node.
    pub target: Option<Hash>,
    /// Wire key `info_hash`, required for get-peers and announce-peer.
    pub info_hash: Option<Hash>,
    /// Wire key `implied_port`, announce-peer only.
    pub implied_port: Option<bool>,
    /// Wire key `port`, required for announce-peer.
    pub port: Option<u16>,
    /// Wire key `token`, required for announce-peer.
    pub token: Option<Vec<u8>>,
}

/// Model of the `a` dictionary.
pub struct QueryArgsV {
    pub sender_id: Seq<u8>,
    pub target: Option<Seq<u8>>,
    pub info_hash: Option<Seq<u8>>,
    pub implied_port: Option<bool>,
    pub port: Option<u16>,
    pub token: Option<Seq<u8>>,
}

impl View for QueryArgs {
    type V = QueryArgsV;

    open spec fn view(&self) -> QueryArgsV {
        QueryArgsV {
            sender_id: self.sender_id@,
            target: opt_hash_view(self.target),
            info_hash: opt_hash_view(self.info_hash),
            implied_port: self.implied_port,
            port: self.port,
            token: opt_bytes_view(self.token),
        }
    }
}

/// Fields of the `a` dictionary seen so far during its walk.
pub struct ArgsAccV {
    pub sender_id: Option<Seq<u8>>,
    pub target: Option<Seq<u8>>,
    pub info_hash: Option<Seq<u8>>,
    pub implied_port: Option<bool>,
    pub port: Option<u16>,
    pub token: Option<Seq<u8>>,
}

/// The walk's starting point: nothing seen.
pub open spec fn args_acc0() -> ArgsAccV {
    ArgsAccV {
        sender_id: None,
        target: None,
        info_hash: None,
        implied_port: None,
        port: None,
        token: None,
    }
}

/// One pass over the pairs of the `a` dictionary, in order: each
/// recognized key decodes and overwrites its slot, unknown keys are
/// ignored, and the first failing value aborts the walk with its key
/// as context.
pub open spec fn walk_args(ps: Seq<(Seq<u8>, BvalueV)>, acc: ArgsAccV) -> Result<
    ArgsAccV,
    DecodeErrorV,
>
    decreases ps.len(),
{
    if ps.len() == 0 {
        Ok(acc)
    } else {
        let k = ps[0].0;
        let v = ps[0].1;
        let rest = ps.subrange(1, ps.len() as int);
        if k == key_id() {
            match sd_hash(v) {
                Ok(h) => walk_args(rest, ArgsAccV { sender_id: Some(h), ..acc }),
                Err(e) => Err(with_key("id"@, e)),
            }
        } else if k == key_implied_port() {
            match sd_implied_port(v) {
                Ok(b) => walk_args(rest, ArgsAccV { implied_port: Some(b), ..acc }),
                Err(e) => Err(with_key("implied_port"@, e)),
            }
        } else if k == key_info_hash() {
            match sd_hash(v) {
                Ok(h) => walk_args(rest, ArgsAccV { info_hash: Some(h), ..acc }),
                Err(e) => Err(with_key("info_hash"@, e)),
            }
        } else if k == key_port() {
            match sd_port(v) {
                Ok(p) => walk_args(rest, ArgsAccV { port: Some(p), ..acc }),
                Err(e) => Err(with_key("port"@, e)),
            }
        } else if k == key_target() {
            match sd_hash(v) {
                Ok(h) => walk_args(rest, ArgsAccV { target: Some(h), ..acc }),
                Err(e) => Err(with_key("target"@, e)),
            }
        } else if k == key_token() {
            match sd_bytes(v) {
                Ok(b) => walk_args(rest, ArgsAccV { token: Some(b), ..acc }),
                Err(e) => Err(with_key("token"@, e)),
            }
        } else {
            walk_args(rest, acc)
        }
    }
}

/// Read of the `a` value: a dictionary whose `id` is required.
pub open spec fn sd_query_args(v: BvalueV) -> Result<QueryArgsV, DecodeErrorV> {
    match v {
        BvalueV::Dict(ps) => match walk_args(ps, args_acc0()) {
            Ok(acc) => match acc.sender_id {
                Some(id) => Ok(
                    QueryArgsV {
                        sender_id: id,
                        target: acc.target,
                        info_hash: acc.info_hash,
                        implied_port: acc.implied_port,
                        port: acc.port,
                        token: acc.token,
                    },
                ),
                None => Err(missing_v("id"@)),
            },
            Err(e) => Err(e),
        },
        _ => Err(malformed_v("expected a dictionary"@)),
    }
}

/// Decoder for the `a` field.
fn decode_query_args(v: &Bvalue) -> (r: Result<QueryArgs, DecodeError>)
    ensures
        match r {
            Ok(a) => sd_query_args(bencode::bv_view(*v)) == Ok::<QueryArgsV, DecodeErrorV>(a@),
            Err(e) => sd_query_args(bencode::bv_view(*v)) == Err::<QueryArgsV, DecodeErrorV>(e@),
        },
{
    match v {
        Bvalue::Dict(pairs) => {
            let ghost ps = bencode::bv_view_pairs(pairs@);
            let k_id: Vec<u8> = vec![105u8, 100u8];
            let k_implied_port: Vec<u8> = vec![
                105u8,
                109u8,
                112u8,
                108u8,
                105u8,
                101u8,
                100u8,
                95u8,
                112u8,
                111u8,
                114u8,
                116u8,
            ];
            let k_info_hash: Vec<u8> = vec![105u8, 110u8, 102u8, 111u8, 95u8, 104u8, 97u8, 115u8, 104u8];
            let k_port: Vec<u8> = vec![112u8, 111u8, 114u8, 116u8];
            let k_target: Vec<u8> = vec![116u8, 97u8, 114u8, 103u8, 101u8, 116u8];
            let k_token: Vec<u8> = vec![116u8, 111u8, 107u8, 101u8, 110u8];
            proof {
                assert(k_id@ =~= key_id());
                assert(k_implied_port@ =~= key_implied_port());
                assert(k_info_hash@ =~= key_info_hash());
                assert(k_port@ =~= key_port());
                assert(k_target@ =~= key_target());
                assert(k_token@ =~= key_token());
                bencode::lemma_view_pairs_index(pairs@, 0);
                assert(ps.subrange(0, ps.len() as int) =~= ps);
            }
            let mut sender_id: Option<Hash> = None;
            let mut target: Option<Hash> = None;
            let mut info_hash: Option<Hash> = None;
            let mut implied_port: Option<bool> = None;
            let mut port: Option<u16> = None;
            let mut token: Option<Vec<u8>> = None;
            let mut idx: usize = 0;
            while idx < pairs.len()
                invariant
                    idx <= pairs@.len(),
                    ps == bencode::bv_view_pairs(pairs@),
                    ps.len() == pairs@.len(),
                    bencode::bv_view(*v) == BvalueV::Dict(ps),
                    k_id@ == key_id(),
                    k_implied_port@ == key_implied_port(),
                    k_info_hash@ == key_info_hash(),
                    k_port@ == key_port(),
                    k_target@ == key_target(),
                    k_token@ == key_token(),
                    walk_args(ps, args_acc0()) == walk_args(
                        ps.subrange(idx as int, ps.len() as int),
                        ArgsAccV {
                            sender_id: opt_hash_view(sender_id),
                            target: opt_hash_view(target),
                            info_hash: opt_hash_view(info_hash),
                            implied_port: implied_port,
                            port: port,
                            token: opt_bytes_view(token),
                        },
                    ),
                decreases pairs@.len() - idx,
            {
                proof {
                    bencode::lemma_view_pairs_index(pairs@, idx as int);
                    assert(ps.subrange(idx as int, ps.len() as int)[0] == ps[idx as int]);
                    assert(ps.subrange(idx as int, ps.len() as int).subrange(1, ps.len() - idx)
                        =~= ps.subrange(idx as int + 1, ps.len() as int));
                }
                let k = &pairs[idx].0;
                let val = &pairs[idx].1;
                if bytes_eq(k.as_slice(), k_id.as_slice()) {
                    match decode_hash(val) {
                        Ok(h) => {
                            sender_id = Some(h);
                        },
                        Err(e) => {
                            return Err(e.in_context("id"));
                        },
                    }
                } else if bytes_eq(k.as_slice(), k_implied_port.as_slice()) {
                    match decode_implied_port(val) {
                        Ok(b) => {
                            implied_port = Some(b);
                        },
                        Err(e) => {
                            return Err(e.in_context("implied_port"));
                        },
                    }
                } else if bytes_eq(k.as_slice(), k_info_hash.as_slice()) {
                    match decode_hash(val) {
                        Ok(h) => {
                            info_hash = Some(h);
                        },
                        Err(e) => {
                            return Err(e.in_context("info_hash"));
                        },
                    }
                } else if bytes_eq(k.as_slice(), k_port.as_slice()) {
                    match decode_port(val) {
                        Ok(p) => {
                            port = Some(p);
                        },
                        Err(e) => {
                            return Err(e.in_context("port"));
                        },
                    }
                } else if bytes_eq(k.as_slice(), k_target.as_slice()) {
                    match decode_hash(val) {
                        Ok(h) => {
                            target = Some(h);
                        },
                        Err(e) => {
                            return Err(e.in_context("target"));
                        },
                    }
                } else if bytes_eq(k.as_slice(), k_token.as_slice()) {
                    match decode_bytes(val) {
                        Ok(b) => {
                            token = Some(b);
                        },
                        Err(e) => {
                            return Err(e.in_context("token"));
                        },
                    }
                }
                idx = idx + 1;
            }
            proof {
                assert(ps.subrange(ps.len() as int, ps.len() as int) =~= Seq::<
                    (Seq<u8>, BvalueV),
                >::empty());
            }
            match sender_id {
                Some(id) => Ok(
                    QueryArgs { sender_id: id, target, info_hash, implied_port, port, token },
                ),
                None => Err(DecodeError::missing("id")),
            }
        },
        _ => Err(DecodeError::malformed("expected a dictionary")),
    }
}


// ---------------------------------------------------------------------
// Response
// ---------------------------------------------------------------------
/// The `r` dictionary of a response: the sender, and optionally a
/// packed node list, a peer-address list and a token.  Whether `nodes`
/// and `values` may appear together is the callers' policy, not the
/// codec's.
#[derive(Clone, Debug, PartialEq, Eq)]
pub struct Response {
    /// Wire key `id`, always required.
    pub sender_id: Hash,
    /// Wire key `nodes`: whole 26-byte node records, packed.
    pub nodes: Option<Vec<Node>>,
    /// Wire key `values`: a list of 6-byte compact addresses.
    pub values: Option<Vec<CompactAddress>>,
    /// Wire key `token`: opaque bytes.
    pub token: Option<Vec<u8>>,
}

/// Model of the `r` dictionary.
pub struct ResponseV {
    pub sender_id: Seq<u8>,
    pub nodes: Option<Seq<NodeV>>,
    pub values: Option<Seq<AddrV>>,
    pub token: Option<Seq<u8>>,
}

impl View for Response {
    type V = ResponseV;

    open spec fn view(&self) -> ResponseV {
        ResponseV {
            sender_id: self.sender_id@,
            nodes: opt_nodes_view(self.nodes),
            values: opt_addrs_view(self.values),
            token: opt_bytes_view(self.token),
        }
    }
}

/// Fields of the `r` dictionary seen so far during its walk.
pub struct RespAccV {
    pub sender_id: Option<Seq<u8>>,
    pub nodes: Option<Seq<NodeV>>,
    pub values: Option<Seq<AddrV>>,
    pub token: Option<Seq<u8>>,
}

/// The walk's starting point: nothing seen.
pub open spec fn resp_acc0() -> RespAccV {
    RespAccV { sender_id: None, nodes: None, values: None, token: None }
}

/// One pass over the pairs of the `r` dictionary, like [`walk_args`].
pub open spec fn walk_resp(ps: Seq<(Seq<u8>, BvalueV)>, acc: RespAccV) -> Result<
    RespAccV,
    DecodeErrorV,
>
    decreases ps.len(),
{
    if ps.len() == 0 {
        Ok(acc)
    } else {
        let k = ps[0].0;
        let v = ps[0].1;
        let rest = ps.subrange(1, ps.len() as int);
        if k == key_id() {
            match sd_hash(v) {
                Ok(h) => walk_resp(rest, RespAccV { sender_id: Some(h), ..acc }),
                Err(e) => Err(with_key("id"@, e)),
            }
        } else if k == key_nodes() {
            match sd_nodes(v) {
                Ok(ns) => walk_resp(rest, RespAccV { nodes: Some(ns), ..acc }),
                Err(e) => Err(with_key("nodes"@, e)),
            }
        } else if k == key_values() {
            match sd_values(v) {
                Ok(vs) => walk_resp(rest, RespAccV { values: Some(vs), ..acc }),
                Err(e) => Err(with_key("values"@, e)),
            }
        } else if k == key_token() {
            match sd_bytes(v) {
                Ok(b) => walk_resp(rest, RespAccV { token: Some(b), ..acc }),
                Err(e) => Err(with_key("token"@, e)),
            }
        } else {
            walk_resp(rest, acc)
        }
    }
}

/// Read of the `r` value: a dictionary whose `id` is required.
pub open spec fn sd_response(v: BvalueV) -> Result<ResponseV, DecodeErrorV> {
    match v {
        BvalueV::Dict(ps) => match walk_resp(ps, resp_acc0()) {
            Ok(acc) => match acc.sender_id {
                Some(id) => Ok(
                    ResponseV {
                        sender_id: id,
                        nodes: acc.nodes,
                        values: acc.values,
                        token: acc.token,
                    },
                ),
                None => Err(missing_v("id"@)),
            },
            Err(e) => Err(e),
        },
        _ => Err(malformed_v("expected a dictionary"@)),
    }
}

/// Decoder for the `r` field.
fn decode_response(v: &Bvalue) -> (r: Result<Response, DecodeError>)
    ensures
        match r {
            Ok(resp) => sd_response(bencode::bv_view(*v)) == Ok::<ResponseV, DecodeErrorV>(resp@),
            Err(e) => sd_response(bencode::bv_view(*v)) == Err::<ResponseV, DecodeErrorV>(e@),
        },
{
    match v {
        Bvalue::Dict(pairs) => {
            let ghost ps = bencode::bv_view_pairs(pairs@);
            let k_id: Vec<u8> = vec![105u8, 100u8];
            let k_nodes: Vec<u8> = vec![110u8, 111u8, 100u8, 101u8, 115u8];
            let k_values: Vec<u8> = vec![118u8, 97u8, 108u8, 117u8, 101u8, 115u8];
            let k_token: Vec<u8> = vec![116u8, 111u8, 107u8, 101u8, 110u8];
            proof {
                assert(k_id@ =~= key_id());
                assert(k_nodes@ =~= key_nodes());
                assert(k_values@ =~= key_values());
                assert(k_token@ =~= key_token());
                bencode::lemma_view_pairs_index(pairs@, 0);
                assert(ps.subrange(0, ps.len() as int) =~= ps);
            }
            let mut sender_id: Option<Hash> = None;
            let mut nodes: Option<Vec<Node>> = None;
            let mut values: Option<Vec<CompactAddress>> = None;
            let mut token: Option<Vec<u8>> = None;
            let mut idx: usize = 0;
            while idx < pairs.len()
                invariant
                    idx <= pairs@.len(),
                    ps == bencode::bv_view_pairs(pairs@),
                    ps.len() == pairs@.len(),
                    bencode::bv_view(*v) == BvalueV::Dict(ps),
                    k_id@ == key_id(),
                    k_nodes@ == key_nodes(),
                    k_values@ == key_values(),
                    k_token@ == key_token(),
                    walk_resp(ps, resp_acc0()) == walk_resp(
                        ps.subrange(idx as int, ps.len() as int),
                        RespAccV {
                            sender_id: opt_hash_view(sender_id),
                            nodes: opt_nodes_view(nodes),
                            values: opt_addrs_view(values),
                            token: opt_bytes_view(token),
                        },
                    ),
                decreases pairs@.len() - idx,
            {
                proof {
                    bencode::lemma_view_pairs_index(pairs@, idx as int);
                    assert(ps.subrange(idx as int, ps.len() as int)[0] == ps[idx as int]);
                    assert(ps.subrange(idx as int, ps.len() as int).subrange(1, ps.len() - idx)
                        =~= ps.subrange(idx as int + 1, ps.len() as int));
                }
                let k = &pairs[idx].0;
                let val = &pairs[idx].1;
                if bytes_eq(k.as_slice(), k_id.as_slice()) {
                    match decode_hash(val) {
                        Ok(h) => {
                            sender_id = Some(h);
                        },
                        Err(e) => {
                            return Err(e.in_context("id"));
                        },
                    }
                } else if bytes_eq(k.as_slice(), k_nodes.as_slice()) {
                    match decode_nodes(val) {
                        Ok(ns) => {
                            nodes = Some(ns);
                        },
                        Err(e) => {
                            return Err(e.in_context("nodes"));
                        },
                    }
                } else if bytes_eq(k.as_slice(), k_values.as_slice()) {
                    match decode_values(val) {
                        Ok(vs) => {
                            values = Some(vs);
                        },
                        Err(e) => {
                            return Err(e.in_context("values"));
                        },
                    }
                } else if bytes_eq(k.as_slice(), k_token.as_slice()) {
                    match decode_bytes(val) {
                        Ok(b) => {
                            token = Some(b);
                        },
                        Err(e) => {
                            return Err(e.in_context("token"));
                        },
                    }
                }
                idx = idx + 1;
            }
            proof {
                assert(ps.subrange(ps.len() as int, ps.len() as int) =~= Seq::<
                    (Seq<u8>, BvalueV),
                >::empty());
            }
            match sender_id {
                Some(id) => Ok(Response { sender_id: id, nodes, values, token }),
                None => Err(DecodeError::missing("id")),
            }
        },
        _ => Err(DecodeError::malformed("expected a dictionary")),
    }
}

// ---------------------------------------------------------------------
// Error payload
// ---------------------------------------------------------------------
/// Relies on `String::from_utf8` of std: it succeeds exactly when the
/// bytes are valid UTF-8, and then yields the characters that the
/// bytes encode, as `vstd`'s UTF-8 model states them.
#[verifier::external_body]
fn bytes_to_string(v: Vec<u8>) -> (r: Option<String>)
    ensures
        match r {
            Some(s) => vstd::utf8::valid_utf8(v@) && s@ == vstd::utf8::decode_utf8(v@),
            None => !vstd::utf8::valid_utf8(v@),
        },
{
    match String::from_utf8(v) {
        Ok(s) => Some(s),
        Err(_) => None,
    }
}

/// The `e` payload of an error message: a numeric code and a
/// human-readable text.
#[derive(Clone, Debug, PartialEq, Eq)]
pub struct Error {
    pub code: i64,
    pub message: String,
}

/// Model of the `e` payload.
pub struct ErrorV {
    pub code: int,
    pub message: Seq<char>,
}

impl View for Error {
    type V = ErrorV;

    open spec fn view(&self) -> ErrorV {
        ErrorV { code: self.code as int, message: self.message@ }
    }
}

/// Read of the `e` value: a list of an integer code followed by a
/// UTF-8 text; further members are ignored.
pub open spec fn sd_error(v: BvalueV) -> Result<ErrorV, DecodeErrorV> {
    match v {
        BvalueV::List(items) => if items.len() < 1 {
            Err(missing_v("code"@))
        } else {
            match items[0] {
                BvalueV::Int(c) => if items.len() < 2 {
                    Err(missing_v("message"@))
                } else {
                    match items[1] {
                        BvalueV::Bytes(b) => if vstd::utf8::valid_utf8(b) {
                            Ok(ErrorV { code: c, message: vstd::utf8::decode_utf8(b) })
                        } else {
                            Err(malformed_v("message must be valid UTF-8"@))
                        },
                        _ => Err(malformed_v("expected a byte string"@)),
                    }
                },
                _ => Err(malformed_v("expected an integer"@)),
            }
        },
        _ => Err(malformed_v("expected a list"@)),
    }
}

/// Decoder for the `e` field.
fn decode_error(v: &Bvalue) -> (r: Result<Error, DecodeError>)
    ensures
        match r {
            Ok(err) => sd_error(bencode::bv_view(*v)) == Ok::<ErrorV, DecodeErrorV>(err@),
            Err(e) => sd_error(bencode::bv_view(*v)) == Err::<ErrorV, DecodeErrorV>(e@),
        },
{
    match v {
        Bvalue::List(items) => {
            proof {
                bencode::lemma_view_items_index(items@, 0);
                bencode::lemma_view_items_index(items@, 1);
            }
            if items.len() < 1 {
                return Err(DecodeError::missing("code"));
            }
            let code: i64 = match &items[0] {
                Bvalue::Int(n) => *n,
                _ => {
                    return Err(DecodeError::malformed("expected an integer"));
                },
            };
            if items.len() < 2 {
                return Err(DecodeError::missing("message"));
            }
            let msg_bytes: Vec<u8> = match &items[1] {
                Bvalue::Bytes(b) => vstd::slice::slice_to_vec(b.as_slice()),
                _ => {
                    return Err(DecodeError::malformed("expected a byte string"));
                },
            };
            match bytes_to_string(msg_bytes) {
                Some(s) => Ok(Error { code, message: s }),
                None => Err(DecodeError::malformed("message must be valid UTF-8")),
            }
        },
        _ => Err(DecodeError::malformed("expected a list")),
    }
}


// ---------------------------------------------------------------------
// The message envelope
// ---------------------------------------------------------------------
/// A raw KRPC message: the transaction id, the class, and whichever
/// payloads the wire dictionary carried.  Which payload must be
/// present for which class is the typed layer's rule.
#[derive(Clone, Debug, PartialEq, Eq)]
pub struct Message {
    /// Wire key `t`: exactly 2 raw bytes, big-endian.
    pub transaction_id: u16,
    /// Wire key `y`.
    pub msg_type: MessageType,
    /// Wire key `q`.
    pub query_type: Option<QueryType>,
    /// Wire key `a`.
    pub query_args: Option<QueryArgs>,
    /// Wire key `r`.
    pub response: Option<Response>,
    /// Wire key `e`.
    pub error: Option<Error>,
}

/// Model of an optional `a` payload.
pub open spec fn opt_args_view(o: Option<QueryArgs>) -> Option<QueryArgsV> {
    match o {
        Some(a) => Some(a@),
        None => None,
    }
}

/// Model of an optional `r` payload.
pub open spec fn opt_resp_view(o: Option<Response>) -> Option<ResponseV> {
    match o {
        Some(r) => Some(r@),
        None => None,
    }
}

/// Model of an optional `e` payload.
pub open spec fn opt_err_view(o: Option<Error>) -> Option<ErrorV> {
    match o {
        Some(e) => Some(e@),
        None => None,
    }
}

/// Model of a raw message.
pub struct MessageV {
    pub transaction_id: u16,
    pub msg_type: MessageType,
    pub query_type: Option<QueryType>,
    pub query_args: Option<QueryArgsV>,
    pub response: Option<ResponseV>,
    pub error: Option<ErrorV>,
}

impl View for Message {
    type V = MessageV;

    open spec fn view(&self) -> MessageV {
        MessageV {
            transaction_id: self.transaction_id,
            msg_type: self.msg_type,
            query_type: self.query_type,
            query_args: opt_args_view(self.query_args),
            response: opt_resp_view(self.response),
            error: opt_err_view(self.error),
        }
    }
}

/// Fields of the top-level dictionary seen so far during its walk.
pub struct MsgAccV {
    pub t: Option<u16>,
    pub y: Option<MessageType>,
    pub q: Option<QueryType>,
    pub a: Option<QueryArgsV>,
    pub r: Option<ResponseV>,
    pub e: Option<ErrorV>,
}

/// The walk's starting point: nothing seen.
pub open spec fn msg_acc0() -> MsgAccV {
    MsgAccV { t: None, y: None, q: None, a: None, r: None, e: None }
}

/// One pass over the pairs of the top-level dictionary, in order:
/// `t`, `y`, `q`, `a`, `r` and `e` decode and overwrite their slots,
/// unknown keys are ignored, and the first failing value aborts the
/// walk with its key as context.
pub open spec fn walk_msg(ps: Seq<(Seq<u8>, BvalueV)>, acc: MsgAccV) -> Result<
    MsgAccV,
    DecodeErrorV,
>
    decreases ps.len(),
{
    if ps.len() == 0 {
        Ok(acc)
    } else {
        let k = ps[0].0;
        let v = ps[0].1;
        let rest = ps.subrange(1, ps.len() as int);
        if k == key_t() {
            match sd_tid(v) {
                Ok(t) => walk_msg(rest, MsgAccV { t: Some(t), ..acc }),
                Err(e) => Err(with_key("t"@, e)),
            }
        } else if k == key_y() {
            match sd_msg_type(v) {
                Ok(y) => walk_msg(rest, MsgAccV { y: Some(y), ..acc }),
                Err(e) => Err(with_key("y"@, e)),
            }
        } else if k == key_q() {
            match sd_query_type(v) {
                Ok(q) => walk_msg(rest, MsgAccV { q: Some(q), ..acc }),
                Err(e) => Err(with_key("q"@, e)),
            }
        } else if k == key_a() {
            match sd_query_args(v) {
                Ok(a) => walk_msg(rest, MsgAccV { a: Some(a), ..acc }),
                Err(e) => Err(with_key("a"@, e)),
            }
        } else if k == key_r() {
            match sd_response(v) {
                Ok(r) => walk_msg(rest, MsgAccV { r: Some(r), ..acc }),
                Err(e) => Err(with_key("r"@, e)),
            }
        } else if k == key_e() {
            match sd_error(v) {
                Ok(e) => walk_msg(rest, MsgAccV { e: Some(e), ..acc }),
                Err(err) => Err(with_key("e"@, err)),
            }
        } else {
            walk_msg(rest, acc)
        }
    }
}

/// Read of a whole message from a generic value: the top level must be
/// a dictionary, and `t` and `y` must have been present.
pub open spec fn sd_message(v: BvalueV) -> Result<MessageV, DecodeErrorV> {
    match v {
        BvalueV::Dict(ps) => match walk_msg(ps, msg_acc0()) {
            Ok(acc) => match acc.t {
                Some(t) => match acc.y {
                    Some(y) => Ok(
                        MessageV {
                            transaction_id: t,
                            msg_type: y,
                            query_type: acc.q,
                            query_args: acc.a,
                            response: acc.r,
                            error: acc.e,
                        },
                    ),
                    None => Err(missing_v("y"@)),
                },
                None => Err(missing_v("t"@)),
            },
            Err(e) => Err(e),
        },
        _ => Err(malformed_v("expected a dictionary"@)),
    }
}

/// What decoding a byte string yields: the strict bencode parse,
/// then the dictionary walk.
pub open spec fn spec_decode(s: Seq<u8>) -> Result<MessageV, DecodeErrorV> {
    match bencode::sp_message(s) {
        Some(v) => sd_message(v),
        None => Err(malformed_v("invalid bencode"@)),
    }
}

/// Decoder for a whole message held in a generic value.
fn decode_message_value(v: &Bvalue) -> (r: Result<Message, DecodeError>)
    ensures
        match r {
            Ok(m) => sd_message(bencode::bv_view(*v)) == Ok::<MessageV, DecodeErrorV>(m@),
            Err(e) => sd_message(bencode::bv_view(*v)) == Err::<MessageV, DecodeErrorV>(e@),
        },
{
    match v {
        Bvalue::Dict(pairs) => {
            let ghost ps = bencode::bv_view_pairs(pairs@);
            let k_t: Vec<u8> = vec![116u8];
            let k_y: Vec<u8> = vec![121u8];
            let k_q: Vec<u8> = vec![113u8];
            let k_a: Vec<u8> = vec![97u8];
            let k_r: Vec<u8> = vec![114u8];
            let k_e: Vec<u8> = vec![101u8];
            proof {
                assert(k_t@ =~= key_t());
                assert(k_y@ =~= key_y());
                assert(k_q@ =~= key_q());
                assert(k_a@ =~= key_a());
                assert(k_r@ =~= key_r());
                assert(k_e@ =~= key_e());
                bencode::lemma_view_pairs_index(pairs@, 0);
                assert(ps.subrange(0, ps.len() as int) =~= ps);
            }
            let mut t: Option<u16> = None;
            let mut y: Option<MessageType> = None;
            let mut q: Option<QueryType> = None;
            let mut a: Option<QueryArgs> = None;
            let mut resp: Option<Response> = None;
            let mut err: Option<Error> = None;
            let mut idx: usize = 0;
            while idx < pairs.len()
                invariant
                    idx <= pairs@.len(),
                    ps == bencode::bv_view_pairs(pairs@),
                    ps.len() == pairs@.len(),
                    bencode::bv_view(*v) == BvalueV::Dict(ps),
                    k_t@ == key_t(),
                    k_y@ == key_y(),
                    k_q@ == key_q(),
                    k_a@ == key_a(),
                    k_r@ == key_r(),
                    k_e@ == key_e(),
                    walk_msg(ps, msg_acc0()) == walk_msg(
                        ps.subrange(idx as int, ps.len() as int),
                        MsgAccV {
                            t: t,
                            y: y,
                            q: q,
                            a: opt_args_view(a),
                            r: opt_resp_view(resp),
                            e: opt_err_view(err),
                        },
                    ),
                decreases pairs@.len() - idx,
            {
                proof {
                    bencode::lemma_view_pairs_index(pairs@, idx as int);
                    assert(ps.subrange(idx as int, ps.len() as int)[0] == ps[idx as int]);
                    assert(ps.subrange(idx as int, ps.len() as int).subrange(1, ps.len() - idx)
                        =~= ps.subrange(idx as int + 1, ps.len() as int));
                }
                let k = &pairs[idx].0;
                let val = &pairs[idx].1;
                if bytes_eq(k.as_slice(), k_t.as_slice()) {
                    match decode_tid(val) {
                        Ok(tv) => {
                            t = Some(tv);
                        },
                        Err(e) => {
                            return Err(e.in_context("t"));
                        },
                    }
                } else if bytes_eq(k.as_slice(), k_y.as_slice()) {
                    match decode_msg_type(val) {
                        Ok(yv) => {
                            y = Some(yv);
                        },
                        Err(e) => {
                            return Err(e.in_context("y"));
                        },
                    }
                } else if bytes_eq(k.as_slice(), k_q.as_slice()) {
                    match decode_query_type(val) {
                        Ok(qv) => {
                            q = Some(qv);
                        },
                        Err(e) => {
                            return Err(e.in_context("q"));
                        },
                    }
                } else if bytes_eq(k.as_slice(), k_a.as_slice()) {
                    match decode_query_args(val) {
                        Ok(av) => {
                            a = Some(av);
                        },
                        Err(e) => {
                            return Err(e.in_context("a"));
                        },
                    }
                } else if bytes_eq(k.as_slice(), k_r.as_slice()) {
                    match decode_response(val) {
                        Ok(rv) => {
                            resp = Some(rv);
                        },
                        Err(e) => {
                            return Err(e.in_context("r"));
                        },
                    }
                } else if bytes_eq(k.as_slice(), k_e.as_slice()) {
                    match decode_error(val) {
                        Ok(ev) => {
                            err = Some(ev);
                        },
                        Err(e) => {
                            return Err(e.in_context("e"));
                        },
                    }
                }
                idx = idx + 1;
            }
            proof {
                assert(ps.subrange(ps.len() as int, ps.len() as int) =~= Seq::<
                    (Seq<u8>, BvalueV),
                >::empty());
            }
            let tv = match t {
                Some(tv) => tv,
                None => {
                    return Err(DecodeError::missing("t"));
                },
            };
            let yv = match y {
                Some(yv) => yv,
                None => {
                    return Err(DecodeError::missing("y"));
                },
            };
            Ok(
                Message {
                    transaction_id: tv,
                    msg_type: yv,
                    query_type: q,
                    query_args: a,
                    response: resp,
                    error: err,
                },
            )
        },
        _ => Err(DecodeError::malformed("expected a dictionary")),
    }
}

impl Message {
    /// Reader of a whole wire message: strict bencode parse, then the
    /// dictionary walk.  Succeeds exactly when [`spec_decode`] does,
    /// and returns exactly its message or its error.
    pub fn decode(bytes: &[u8]) -> (r: Result<Message, DecodeError>)
        ensures
            match r {
                Ok(m) => spec_decode(bytes@) == Ok::<MessageV, DecodeErrorV>(m@),
                Err(e) => spec_decode(bytes@) == Err::<MessageV, DecodeErrorV>(e@),
            },
    {
        match bencode::parse(bytes) {
            Some(tree) => decode_message_value(&tree),
            None => Err(DecodeError::malformed("invalid bencode")),
        }
    }
}


// ---------------------------------------------------------------------
// Encoding: from the typed model to the generic value
// ---------------------------------------------------------------------
/// The `a` dictionary a query's arguments encode to, keys in
/// lexicographic order, absent options omitted.
pub open spec fn args_bv(a: QueryArgsV) -> BvalueV {
    BvalueV::Dict(
        seq![(key_id(), BvalueV::Bytes(a.sender_id))] + (match a.implied_port {
            Some(b) => seq![
                (key_implied_port(), BvalueV::Int(if b {
                    1int
                } else {
                    0int
                })),
            ],
            None => seq![],
        }) + (match a.info_hash {
            Some(h) => seq![(key_info_hash(), BvalueV::Bytes(h))],
            None => seq![],
        }) + (match a.port {
            Some(p) => seq![(key_port(), BvalueV::Int(p as int))],
            None => seq![],
        }) + (match a.target {
            Some(h) => seq![(key_target(), BvalueV::Bytes(h))],
            None => seq![],
        }) + (match a.token {
            Some(b) => seq![(key_token(), BvalueV::Bytes(b))],
            None => seq![],
        }),
    )
}

/// The members of the `values` list: one 6-byte string per address.
pub open spec fn addrs_bv_items(vs: Seq<AddrV>) -> Seq<BvalueV>
    decreases vs.len(),
{
    if vs.len() == 0 {
        seq![]
    } else {
        seq![BvalueV::Bytes(addr_bytes(vs[0]))] + addrs_bv_items(vs.subrange(1, vs.len() as int))
    }
}

/// The `r` dictionary a response encodes to, keys in lexicographic
/// order, absent options omitted.
pub open spec fn resp_bv(r: ResponseV) -> BvalueV {
    BvalueV::Dict(
        seq![(key_id(), BvalueV::Bytes(r.sender_id))] + (match r.nodes {
            Some(ns) => seq![(key_nodes(), BvalueV::Bytes(nodes_bytes(ns)))],
            None => seq![],
        }) + (match r.token {
            Some(b) => seq![(key_token(), BvalueV::Bytes(b))],
            None => seq![],
        }) + (match r.values {
            Some(vs) => seq![(key_values(), BvalueV::List(addrs_bv_items(vs)))],
            None => seq![],
        }),
    )
}

/// The `e` list an error payload encodes to: the code, then the text
/// as UTF-8 bytes.
pub open spec fn err_bv(e: ErrorV) -> BvalueV {
    BvalueV::List(
        seq![BvalueV::Int(e.code), BvalueV::Bytes(vstd::utf8::encode_utf8(e.message))],
    )
}

/// The 2 wire bytes of a transaction id, big-endian.
pub open spec fn tid_bytes(t: u16) -> Seq<u8> {
    seq![(t / 256) as u8, (t % 256) as u8]
}

/// The top-level dictionary a message encodes to, keys in
/// lexicographic order (`a`, `e`, `q`, `r`, `t`, `y`), absent options
/// omitted.
pub open spec fn msg_bv(m: MessageV) -> BvalueV {
    BvalueV::Dict(
        (match m.query_args {
            Some(a) => seq![(key_a(), args_bv(a))],
            None => seq![],
        }) + (match m.error {
            Some(e) => seq![(key_e(), err_bv(e))],
            None => seq![],
        }) + (match m.query_type {
            Some(q) => seq![(key_q(), BvalueV::Bytes(query_type_wire(q)))],
            None => seq![],
        }) + (match m.response {
            Some(r) => seq![(key_r(), resp_bv(r))],
            None => seq![],
        }) + seq![(key_t(), BvalueV::Bytes(tid_bytes(m.transaction_id)))] + seq![
            (key_y(), BvalueV::Bytes(msg_type_wire(m.msg_type))),
        ],
    )
}

/// The canonical wire bytes of a message.
pub open spec fn spec_encode(m: MessageV) -> Seq<u8> {
    bv_enc(msg_bv(m))
}

impl QueryArgs {
    /// The generic value these arguments encode to.
    fn to_bvalue(&self) -> (r: Bvalue)
        ensures
            bencode::bv_view(r) == args_bv(self@),
    {
        let mut pairs: Vec<(Vec<u8>, Bvalue)> = Vec::new();
        let ghost mut gs: Seq<(Seq<u8>, BvalueV)> = seq![];
        proof {
            assert(bencode::bv_view_pairs(pairs@) =~= gs);
        }
        let k_id: Vec<u8> = vec![105u8, 100u8];
        let idv = Bvalue::Bytes(self.sender_id.encode());
        proof {
            assert(k_id@ =~= key_id());
            bencode::lemma_view_pairs_push(pairs@, k_id, idv);
        }
        pairs.push((k_id, idv));
        proof {
            gs = gs + seq![(key_id(), BvalueV::Bytes(self.sender_id@))];
            assert(bencode::bv_view_pairs(pairs@) =~= gs);
        }
        if let Some(b) = self.implied_port {
            let k: Vec<u8> = vec![
                105u8,
                109u8,
                112u8,
                108u8,
                105u8,
                101u8,
                100u8,
                95u8,
                112u8,
                111u8,
                114u8,
                116u8,
            ];
            let iv: i64 = if b {
                1
            } else {
                0
            };
            proof {
                assert(k@ =~= key_implied_port());
                bencode::lemma_view_pairs_push(pairs@, k, Bvalue::Int(iv));
            }
            pairs.push((k, Bvalue::Int(iv)));
            proof {
                gs = gs + seq![
                    (key_implied_port(), BvalueV::Int(if b {
                        1int
                    } else {
                        0int
                    })),
                ];
                assert(bencode::bv_view_pairs(pairs@) =~= gs);
            }
        }
        if let Some(h) = self.info_hash {
            let k: Vec<u8> = vec![105u8, 110u8, 102u8, 111u8, 95u8, 104u8, 97u8, 115u8, 104u8];
            let hv = Bvalue::Bytes(h.encode());
            proof {
                assert(k@ =~= key_info_hash());
                bencode::lemma_view_pairs_push(pairs@, k, hv);
            }
            pairs.push((k, hv));
            proof {
                gs = gs + seq![(key_info_hash(), BvalueV::Bytes(h@))];
                assert(bencode::bv_view_pairs(pairs@) =~= gs);
            }
        }
        if let Some(p) = self.port {
            let k: Vec<u8> = vec![112u8, 111u8, 114u8, 116u8];
            proof {
                assert(k@ =~= key_port());
                bencode::lemma_view_pairs_push(pairs@, k, Bvalue::Int(p as i64));
            }
            pairs.push((k, Bvalue::Int(p as i64)));
            proof {
                gs = gs + seq![(key_port(), BvalueV::Int(p as int))];
                assert(bencode::bv_view_pairs(pairs@) =~= gs);
            }
        }
        if let Some(h) = self.target {
            let k: Vec<u8> = vec![116u8, 97u8, 114u8, 103u8, 101u8, 116u8];
            let hv = Bvalue::Bytes(h.encode());
            proof {
                assert(k@ =~= key_target());
                bencode::lemma_view_pairs_push(pairs@, k, hv);
            }
            pairs.push((k, hv));
            proof {
                gs = gs + seq![(key_target(), BvalueV::Bytes(h@))];
                assert(bencode::bv_view_pairs(pairs@) =~= gs);
            }
        }
        if let Some(b) = &self.token {
            let k: Vec<u8> = vec![116u8, 111u8, 107u8, 101u8, 110u8];
            let tok = vstd::slice::slice_to_vec(b.as_slice());
            proof {
                assert(k@ =~= key_token());
                bencode::lemma_view_pairs_push(pairs@, k, Bvalue::Bytes(tok));
            }
            pairs.push((k, Bvalue::Bytes(tok)));
            proof {
                gs = gs + seq![(key_token(), BvalueV::Bytes(b@))];
                assert(bencode::bv_view_pairs(pairs@) =~= gs);
            }
        }
        proof {
            assert(gs =~= args_bv(self@)->Dict_0);
        }
        Bvalue::Dict(pairs)
    }
}

impl Error {
    /// The generic value this payload encodes to.
    fn to_bvalue(&self) -> (r: Bvalue)
        ensures
            bencode::bv_view(r) == err_bv(self@),
    {
        let mut items: Vec<Bvalue> = Vec::new();
        proof {
            assert(bencode::bv_view_items(items@) =~= Seq::<BvalueV>::empty());
            bencode::lemma_view_items_push(items@, Bvalue::Int(self.code));
        }
        items.push(Bvalue::Int(self.code));
        let text = vstd::string::StrSliceExecFns::as_bytes_vec(self.message.as_str());
        proof {
            bencode::lemma_view_items_push(items@, Bvalue::Bytes(text));
        }
        items.push(Bvalue::Bytes(text));
        proof {
            assert(bencode::bv_view_items(items@) =~= err_bv(self@)->List_0);
        }
        Bvalue::List(items)
    }
}

impl Response {
    /// The generic value this response encodes to.
    fn to_bvalue(&self) -> (r: Bvalue)
        ensures
            bencode::bv_view(r) == resp_bv(self@),
    {
        let mut pairs: Vec<(Vec<u8>, Bvalue)> = Vec::new();
        let ghost mut gs: Seq<(Seq<u8>, BvalueV)> = seq![];
        proof {
            assert(bencode::bv_view_pairs(pairs@) =~= gs);
        }
        let k_id: Vec<u8> = vec![105u8, 100u8];
        let idv = Bvalue::Bytes(self.sender_id.encode());
        proof {
            assert(k_id@ =~= key_id());
            bencode::lemma_view_pairs_push(pairs@, k_id, idv);
        }
        pairs.push((k_id, idv));
        proof {
            gs = gs + seq![(key_id(), BvalueV::Bytes(self.sender_id@))];
            assert(bencode::bv_view_pairs(pairs@) =~= gs);
        }
        if let Some(ns) = &self.nodes {
            let k: Vec<u8> = vec![110u8, 111u8, 100u8, 101u8, 115u8];
            let packed = encode_node_list(ns.as_slice());
            proof {
                assert(k@ =~= key_nodes());
                bencode::lemma_view_pairs_push(pairs@, k, Bvalue::Bytes(packed));
            }
            pairs.push((k, Bvalue::Bytes(packed)));
            proof {
                gs = gs + seq![(key_nodes(), BvalueV::Bytes(nodes_bytes(nodes_view(ns@))))];
                assert(bencode::bv_view_pairs(pairs@) =~= gs);
            }
        }
        if let Some(b) = &self.token {
            let k: Vec<u8> = vec![116u8, 111u8, 107u8, 101u8, 110u8];
            let tok = vstd::slice::slice_to_vec(b.as_slice());
            proof {
                assert(k@ =~= key_token());
                bencode::lemma_view_pairs_push(pairs@, k, Bvalue::Bytes(tok));
            }
            pairs.push((k, Bvalue::Bytes(tok)));
            proof {
                gs = gs + seq![(key_token(), BvalueV::Bytes(b@))];
                assert(bencode::bv_view_pairs(pairs@) =~= gs);
            }
        }
        if let Some(vs) = &self.values {
            let k: Vec<u8> = vec![118u8, 97u8, 108u8, 117u8, 101u8, 115u8];
            let mut members: Vec<Bvalue> = Vec::new();
            let mut i: usize = 0;
            proof {
                assert(bencode::bv_view_items(members@) =~= addrs_bv_items(
                    addrs_view(vs@.subrange(0, 0)),
                ));
            }
            while i < vs.len()
                invariant
                    i <= vs@.len(),
                    bencode::bv_view_items(members@) == addrs_bv_items(
                        addrs_view(vs@.subrange(0, i as int)),
                    ),
                decreases vs@.len() - i,
            {
                let ab = vs[i].encode();
                proof {
                    bencode::lemma_view_items_push(members@, Bvalue::Bytes(ab));
                    lemma_addrs_bv_items_push(
                        addrs_view(vs@.subrange(0, i as int)),
                        vs@[i as int]@,
                    );
                    assert(vs@.subrange(0, i as int).push(vs@[i as int]) =~= vs@.subrange(
                        0,
                        i + 1,
                    ));
                    assert(addrs_view(vs@.subrange(0, i as int).push(vs@[i as int]))
                        =~= addrs_view(vs@.subrange(0, i as int)).push(vs@[i as int]@));
                    assert(addrs_view(vs@.subrange(0, i as int)).push(vs@[i as int]@)
                        =~= addrs_view(vs@.subrange(0, i as int)) + seq![vs@[i as int]@]);
                }
                members.push(Bvalue::Bytes(ab));
                i = i + 1;
            }
            proof {
                assert(vs@.subrange(0, vs@.len() as int) =~= vs@);
                assert(k@ =~= key_values());
                bencode::lemma_view_pairs_push(pairs@, k, Bvalue::List(members));
            }
            pairs.push((k, Bvalue::List(members)));
            proof {
                gs = gs + seq![(key_values(), BvalueV::List(addrs_bv_items(addrs_view(vs@))))];
                assert(bencode::bv_view_pairs(pairs@) =~= gs);
            }
        }
        proof {
            assert(gs =~= resp_bv(self@)->Dict_0);
        }
        Bvalue::Dict(pairs)
    }
}

/// Appending an address appends its list member.
pub proof fn lemma_addrs_bv_items_push(vs: Seq<AddrV>, a: AddrV)
    ensures
        addrs_bv_items(vs.push(a)) == addrs_bv_items(vs) + seq![BvalueV::Bytes(addr_bytes(a))],
    decreases vs.len(),
{
    if vs.len() == 0 {
        assert(vs.push(a).subrange(1, 1) =~= Seq::<AddrV>::empty());
        assert(vs.push(a)[0] == a);
        assert(addrs_bv_items(vs.push(a)) == seq![BvalueV::Bytes(addr_bytes(vs.push(a)[0]))]
            + addrs_bv_items(vs.push(a).subrange(1, 1)));
        assert(addrs_bv_items(vs.push(a)) =~= addrs_bv_items(vs) + seq![
            BvalueV::Bytes(addr_bytes(a)),
        ]);
    } else {
        lemma_addrs_bv_items_push(vs.subrange(1, vs.len() as int), a);
        assert(vs.push(a).subrange(1, vs.len() as int + 1) =~= vs.subrange(1, vs.len() as int).push(
            a,
        ));
        assert(addrs_bv_items(vs.push(a)) =~= addrs_bv_items(vs) + seq![
            BvalueV::Bytes(addr_bytes(a)),
        ]);
    }
}

impl Message {
    /// The generic value this message encodes to.
    fn to_bvalue(&self) -> (r: Bvalue)
        ensures
            bencode::bv_view(r) == msg_bv(self@),
    {
        let mut pairs: Vec<(Vec<u8>, Bvalue)> = Vec::new();
        let ghost mut gs: Seq<(Seq<u8>, BvalueV)> = seq![];
        proof {
            assert(bencode::bv_view_pairs(pairs@) =~= gs);
        }
        if let Some(a) = &self.query_args {
            let k: Vec<u8> = vec![97u8];
            let av = a.to_bvalue();
            proof {
                assert(k@ =~= key_a());
                bencode::lemma_view_pairs_push(pairs@, k, av);
            }
            pairs.push((k, av));
            proof {
                gs = gs + seq![(key_a(), args_bv(a@))];
                assert(bencode::bv_view_pairs(pairs@) =~= gs);
            }
        }
        if let Some(e) = &self.error {
            let k: Vec<u8> = vec![101u8];
            let ev = e.to_bvalue();
            proof {
                assert(k@ =~= key_e());
                bencode::lemma_view_pairs_push(pairs@, k, ev);
            }
            pairs.push((k, ev));
            proof {
                gs = gs + seq![(key_e(), err_bv(e@))];
                assert(bencode::bv_view_pairs(pairs@) =~= gs);
            }
        }
        if let Some(q) = &self.query_type {
            let k: Vec<u8> = vec![113u8];
            let qv = Bvalue::Bytes(q.encode());
            proof {
                assert(k@ =~= key_q());
                bencode::lemma_view_pairs_push(pairs@, k, qv);
            }
            pairs.push((k, qv));
            proof {
                gs = gs + seq![(key_q(), BvalueV::Bytes(query_type_wire(*q)))];
                assert(bencode::bv_view_pairs(pairs@) =~= gs);
            }
        }
        if let Some(resp) = &self.response {
            let k: Vec<u8> = vec![114u8];
            let rv = resp.to_bvalue();
            proof {
                assert(k@ =~= key_r());
                bencode::lemma_view_pairs_push(pairs@, k, rv);
            }
            pairs.push((k, rv));
            proof {
                gs = gs + seq![(key_r(), resp_bv(resp@))];
                assert(bencode::bv_view_pairs(pairs@) =~= gs);
            }
        }
        let k_t: Vec<u8> = vec![116u8];
        let mut tb: Vec<u8> = Vec::new();
        tb.push((self.transaction_id / 256) as u8);
        tb.push((self.transaction_id % 256) as u8);
        proof {
            assert(k_t@ =~= key_t());
            assert(tb@ =~= tid_bytes(self.transaction_id));
            bencode::lemma_view_pairs_push(pairs@, k_t, Bvalue::Bytes(tb));
        }
        pairs.push((k_t, Bvalue::Bytes(tb)));
        proof {
            gs = gs + seq![(key_t(), BvalueV::Bytes(tid_bytes(self.transaction_id)))];
            assert(bencode::bv_view_pairs(pairs@) =~= gs);
        }
        let k_y: Vec<u8> = vec![121u8];
        let yv = Bvalue::Bytes(self.msg_type.encode());
        proof {
            assert(k_y@ =~= key_y());
            bencode::lemma_view_pairs_push(pairs@, k_y, yv);
        }
        pairs.push((k_y, yv));
        proof {
            gs = gs + seq![(key_y(), BvalueV::Bytes(msg_type_wire(self.msg_type)))];
            assert(bencode::bv_view_pairs(pairs@) =~= gs);
        }
        proof {
            assert(gs =~= msg_bv(self@)->Dict_0);
        }
        Bvalue::Dict(pairs)
    }

    /// Writer of the message's canonical wire bytes: keys in
    /// lexicographic order, absent options omitted.
    pub fn encode(&self) -> (r: Vec<u8>)
        ensures
            r@ == spec_encode(self@),
    {
        let tree = self.to_bvalue();
        bencode::encode(&tree)
    }
}


// ---------------------------------------------------------------------
// Round trip: decoding an encoded message gives it back
// ---------------------------------------------------------------------
/// Structural validity of query-argument models: hashes are 20 bytes.
pub open spec fn wf_args(a: QueryArgsV) -> bool {
    &&& a.sender_id.len() == 20
    &&& match a.target {
        Some(h) => h.len() == 20,
        None => true,
    }
    &&& match a.info_hash {
        Some(h) => h.len() == 20,
        None => true,
    }
}

/// Structural validity of a node model.
pub open spec fn wf_node(n: NodeV) -> bool {
    n.id.len() == 20 && n.addr.ip.len() == 4
}

/// Structural validity of response models: hashes are 20 bytes, nodes
/// and addresses have their fixed widths.
pub open spec fn wf_resp(r: ResponseV) -> bool {
    &&& r.sender_id.len() == 20
    &&& match r.nodes {
        Some(ns) => forall|i: int| 0 <= i < ns.len() ==> wf_node(#[trigger] ns[i]),
        None => true,
    }
    &&& match r.values {
        Some(vs) => forall|i: int| 0 <= i < vs.len() ==> (#[trigger] vs[i]).ip.len() == 4,
        None => true,
    }
}

/// Structural validity of an error-payload model: the code fits the
/// wire integer width.
pub open spec fn wf_err(e: ErrorV) -> bool {
    i64::MIN <= e.code <= i64::MAX
}

/// Structural validity of a message model.
pub open spec fn wf_msg(m: MessageV) -> bool {
    &&& match m.query_args {
        Some(a) => wf_args(a),
        None => true,
    }
    &&& match m.response {
        Some(r) => wf_resp(r),
        None => true,
    }
    &&& match m.error {
        Some(e) => wf_err(e),
        None => true,
    }
}

/// The top-level walk of a concatenation: the first part runs, and if
/// it succeeds the second part continues from its accumulator.
pub proof fn lemma_walk_msg_concat(p1: Seq<(Seq<u8>, BvalueV)>, p2: Seq<(Seq<u8>, BvalueV)>, acc: MsgAccV)
    ensures
        walk_msg(p1 + p2, acc) == match walk_msg(p1, acc) {
            Ok(acc2) => walk_msg(p2, acc2),
            Err(e) => Err(e),
        },
    decreases p1.len(),
{
    if p1.len() == 0 {
        assert(p1 + p2 =~= p2);
    } else {
        lemma_walk_msg_concat(p1.subrange(1, p1.len() as int), p2, acc);
        assert((p1 + p2).subrange(1, (p1 + p2).len() as int) =~= p1.subrange(1, p1.len() as int)
            + p2);
        assert((p1 + p2)[0] == p1[0]);
        let k = p1[0].0;
        let v = p1[0].1;
        if k == key_t() {
            match sd_tid(v) {
                Ok(t) => {
                    lemma_walk_msg_concat(p1.subrange(1, p1.len() as int), p2, MsgAccV { t: Some(t), ..acc });
                },
                Err(e) => {},
            }
        } else if k == key_y() {
            match sd_msg_type(v) {
                Ok(y) => {
                    lemma_walk_msg_concat(p1.subrange(1, p1.len() as int), p2, MsgAccV { y: Some(y), ..acc });
                },
                Err(e) => {},
            }
        } else if k == key_q() {
            match sd_query_type(v) {
                Ok(q) => {
                    lemma_walk_msg_concat(p1.subrange(1, p1.len() as int), p2, MsgAccV { q: Some(q), ..acc });
                },
                Err(e) => {},
            }
        } else if k == key_a() {
            match sd_query_args(v) {
                Ok(a) => {
                    lemma_walk_msg_concat(p1.subrange(1, p1.len() as int), p2, MsgAccV { a: Some(a), ..acc });
                },
                Err(e) => {},
            }
        } else if k == key_r() {
            match sd_response(v) {
                Ok(r) => {
                    lemma_walk_msg_concat(p1.subrange(1, p1.len() as int), p2, MsgAccV { r: Some(r), ..acc });
                },
                Err(e) => {},
            }
        } else if k == key_e() {
            match sd_error(v) {
                Ok(e) => {
                    lemma_walk_msg_concat(p1.subrange(1, p1.len() as int), p2, MsgAccV { e: Some(e), ..acc });
                },
                Err(err) => {},
            }
        }
    }
}

/// The arguments walk of a concatenation, as for the top level.
pub proof fn lemma_walk_args_concat(p1: Seq<(Seq<u8>, BvalueV)>, p2: Seq<(Seq<u8>, BvalueV)>, acc: ArgsAccV)
    ensures
        walk_args(p1 + p2, acc) == match walk_args(p1, acc) {
            Ok(acc2) => walk_args(p2, acc2),
            Err(e) => Err(e),
        },
    decreases p1.len(),
{
    if p1.len() == 0 {
        assert(p1 + p2 =~= p2);
    } else {
        assert((p1 + p2).subrange(1, (p1 + p2).len() as int) =~= p1.subrange(1, p1.len() as int)
            + p2);
        assert((p1 + p2)[0] == p1[0]);
        let rest = p1.subrange(1, p1.len() as int);
        let k = p1[0].0;
        let v = p1[0].1;
        if k == key_id() {
            match sd_hash(v) {
                Ok(h) => {
                    lemma_walk_args_concat(rest, p2, ArgsAccV { sender_id: Some(h), ..acc });
                },
                Err(e) => {},
            }
        } else if k == key_implied_port() {
            match sd_implied_port(v) {
                Ok(b) => {
                    lemma_walk_args_concat(rest, p2, ArgsAccV { implied_port: Some(b), ..acc });
                },
                Err(e) => {},
            }
        } else if k == key_info_hash() {
            match sd_hash(v) {
                Ok(h) => {
                    lemma_walk_args_concat(rest, p2, ArgsAccV { info_hash: Some(h), ..acc });
                },
                Err(e) => {},
            }
        } else if k == key_port() {
            match sd_port(v) {
                Ok(p) => {
                    lemma_walk_args_concat(rest, p2, ArgsAccV { port: Some(p), ..acc });
                },
                Err(e) => {},
            }
        } else if k == key_target() {
            match sd_hash(v) {
                Ok(h) => {
                    lemma_walk_args_concat(rest, p2, ArgsAccV { target: Some(h), ..acc });
                },
                Err(e) => {},
            }
        } else if k == key_token() {
            match sd_bytes(v) {
                Ok(b) => {
                    lemma_walk_args_concat(rest, p2, ArgsAccV { token: Some(b), ..acc });
                },
                Err(e) => {},
            }
        } else {
            lemma_walk_args_concat(rest, p2, acc);
        }
    }
}

/// The response walk of a concatenation, as for the top level.
pub proof fn lemma_walk_resp_concat(p1: Seq<(Seq<u8>, BvalueV)>, p2: Seq<(Seq<u8>, BvalueV)>, acc: RespAccV)
    ensures
        walk_resp(p1 + p2, acc) == match walk_resp(p1, acc) {
            Ok(acc2) => walk_resp(p2, acc2),
            Err(e) => Err(e),
        },
    decreases p1.len(),
{
    if p1.len() == 0 {
        assert(p1 + p2 =~= p2);
    } else {
        assert((p1 + p2).subrange(1, (p1 + p2).len() as int) =~= p1.subrange(1, p1.len() as int)
            + p2);
        assert((p1 + p2)[0] == p1[0]);
        let rest = p1.subrange(1, p1.len() as int);
        let k = p1[0].0;
        let v = p1[0].1;
        if k == key_id() {
            match sd_hash(v) {
                Ok(h) => {
                    lemma_walk_resp_concat(rest, p2, RespAccV { sender_id: Some(h), ..acc });
                },
                Err(e) => {},
            }
        } else if k == key_nodes() {
            match sd_nodes(v) {
                Ok(ns) => {
                    lemma_walk_resp_concat(rest, p2, RespAccV { nodes: Some(ns), ..acc });
                },
                Err(e) => {},
            }
        } else if k == key_values() {
            match sd_values(v) {
                Ok(vs) => {
                    lemma_walk_resp_concat(rest, p2, RespAccV { values: Some(vs), ..acc });
                },
                Err(e) => {},
            }
        } else if k == key_token() {
            match sd_bytes(v) {
                Ok(b) => {
                    lemma_walk_resp_concat(rest, p2, RespAccV { token: Some(b), ..acc });
                },
                Err(e) => {},
            }
        } else {
            lemma_walk_resp_concat(rest, p2, acc);
        }
    }
}


/// Reading back packed nodes gives the nodes.
pub proof fn lemma_nodes_of_bytes_inverse(ns: Seq<NodeV>)
    requires
        forall|i: int| 0 <= i < ns.len() ==> wf_node(#[trigger] ns[i]),
    ensures
        nodes_bytes(ns).len() == 26 * ns.len(),
        nodes_of_bytes(nodes_bytes(ns)) == ns,
    decreases ns.len(),
{
    if ns.len() == 0 {
    } else {
        let n = ns[0];
        let rest = ns.subrange(1, ns.len() as int);
        lemma_nodes_of_bytes_inverse(rest);
        let nb = node_bytes(n);
        let b = nodes_bytes(ns);
        assert(nb.len() == 26);
        assert(b =~= nb + nodes_bytes(rest));
        assert(b.subrange(0, 26) =~= nb);
        assert(b.subrange(26, b.len() as int) =~= nodes_bytes(rest));
        assert(nb.subrange(0, 20) =~= n.id);
        assert(nb.subrange(20, 26) =~= addr_bytes(n.addr));
        assert(addr_bytes(n.addr).subrange(0, 4) =~= n.addr.ip);
        assert(addr_bytes(n.addr)[4] == (n.addr.port / 256) as u8);
        assert(addr_bytes(n.addr)[5] == (n.addr.port % 256) as u8);
        assert(node_of_bytes(b.subrange(0, 26)) == n);
        assert(seq![n] + rest =~= ns);
    }
}

/// Reading back an encoded address list gives the addresses.
pub proof fn lemma_addrs_items_inverse(vs: Seq<AddrV>)
    requires
        forall|i: int| 0 <= i < vs.len() ==> (#[trigger] vs[i]).ip.len() == 4,
    ensures
        sd_addr_items(addrs_bv_items(vs)) == Ok::<Seq<AddrV>, DecodeErrorV>(vs),
    decreases vs.len(),
{
    if vs.len() == 0 {
        assert(addrs_bv_items(vs) =~= Seq::<BvalueV>::empty());
        assert(vs =~= Seq::<AddrV>::empty());
    } else {
        let a = vs[0];
        let rest = vs.subrange(1, vs.len() as int);
        lemma_addrs_items_inverse(rest);
        let items = addrs_bv_items(vs);
        assert(items =~= seq![BvalueV::Bytes(addr_bytes(a))] + addrs_bv_items(rest));
        assert(items[0] == BvalueV::Bytes(addr_bytes(a)));
        assert(items.subrange(1, items.len() as int) =~= addrs_bv_items(rest));
        assert(addr_bytes(a).len() == 6);
        assert(addr_bytes(a).subrange(0, 4) =~= a.ip);
        assert(addr_of_bytes(addr_bytes(a)) == a);
        assert(sd_addr_items(items) == Ok::<Seq<AddrV>, DecodeErrorV>(
            seq![addr_of_bytes(addr_bytes(a))] + rest,
        ));
        assert(seq![addr_of_bytes(addr_bytes(a))] + rest =~= vs);
    }
}

/// Reading back an encoded error payload gives the payload.
pub proof fn lemma_sd_error_inverse(e: ErrorV)
    requires
        wf_err(e),
    ensures
        sd_error(err_bv(e)) == Ok::<ErrorV, DecodeErrorV>(e),
{
    broadcast use vstd::utf8::encode_utf8_valid_utf8;
    broadcast use vstd::utf8::encode_utf8_decode_utf8;

    let items = err_bv(e)->List_0;
    assert(items[0] == BvalueV::Int(e.code));
    assert(items[1] == BvalueV::Bytes(vstd::utf8::encode_utf8(e.message)));
}

/// Reading back encoded query arguments gives the arguments.
pub proof fn lemma_sd_args_inverse(a: QueryArgsV)
    requires
        wf_args(a),
    ensures
        sd_query_args(args_bv(a)) == Ok::<QueryArgsV, DecodeErrorV>(a),
{
    let s1 = seq![(key_id(), BvalueV::Bytes(a.sender_id))];
    let s2: Seq<(Seq<u8>, BvalueV)> = match a.implied_port {
        Some(b) => seq![
            (key_implied_port(), BvalueV::Int(if b {
                1int
            } else {
                0int
            })),
        ],
        None => seq![],
    };
    let s3: Seq<(Seq<u8>, BvalueV)> = match a.info_hash {
        Some(h) => seq![(key_info_hash(), BvalueV::Bytes(h))],
        None => seq![],
    };
    let s4: Seq<(Seq<u8>, BvalueV)> = match a.port {
        Some(p) => seq![(key_port(), BvalueV::Int(p as int))],
        None => seq![],
    };
    let s5: Seq<(Seq<u8>, BvalueV)> = match a.target {
        Some(h) => seq![(key_target(), BvalueV::Bytes(h))],
        None => seq![],
    };
    let s6: Seq<(Seq<u8>, BvalueV)> = match a.token {
        Some(b) => seq![(key_token(), BvalueV::Bytes(b))],
        None => seq![],
    };
    let acc0 = args_acc0();
    let acc1 = ArgsAccV { sender_id: Some(a.sender_id), ..acc0 };
    assert(walk_args(s1, acc0) == Ok::<ArgsAccV, DecodeErrorV>(acc1)) by {
        reveal_with_fuel(walk_args, 3);
        assert(s1.subrange(1, 1) =~= Seq::<(Seq<u8>, BvalueV)>::empty());
    }
    let acc2 = ArgsAccV { implied_port: a.implied_port, ..acc1 };
    assert(walk_args(s2, acc1) == Ok::<ArgsAccV, DecodeErrorV>(acc2)) by {
        reveal_with_fuel(walk_args, 3);
        match a.implied_port {
            Some(b) => {
                assert(s2[0].0 != key_id());
                assert(s2.subrange(1, 1) =~= Seq::<(Seq<u8>, BvalueV)>::empty());
                assert(sd_implied_port(s2[0].1) == Ok::<bool, DecodeErrorV>(b));
            },
            None => {},
        }
    }
    let acc3 = ArgsAccV { info_hash: a.info_hash, ..acc2 };
    assert(walk_args(s3, acc2) == Ok::<ArgsAccV, DecodeErrorV>(acc3)) by {
        reveal_with_fuel(walk_args, 3);
        match a.info_hash {
            Some(h) => {
                assert(s3[0].0 != key_id());
                assert(s3[0].0 != key_implied_port());
                assert(s3.subrange(1, 1) =~= Seq::<(Seq<u8>, BvalueV)>::empty());
            },
            None => {},
        }
    }
    let acc4 = ArgsAccV { port: a.port, ..acc3 };
    assert(walk_args(s4, acc3) == Ok::<ArgsAccV, DecodeErrorV>(acc4)) by {
        reveal_with_fuel(walk_args, 3);
        match a.port {
            Some(p) => {
                assert(s4[0].0 != key_id());
                assert(s4[0].0 != key_implied_port());
                assert(s4[0].0 != key_info_hash());
                assert(s4.subrange(1, 1) =~= Seq::<(Seq<u8>, BvalueV)>::empty());
            },
            None => {},
        }
    }
    let acc5 = ArgsAccV { target: a.target, ..acc4 };
    assert(walk_args(s5, acc4) == Ok::<ArgsAccV, DecodeErrorV>(acc5)) by {
        reveal_with_fuel(walk_args, 3);
        match a.target {
            Some(h) => {
                assert(s5[0].0 != key_id());
                assert(s5[0].0 != key_implied_port());
                assert(s5[0].0 != key_info_hash());
                assert(s5[0].0 != key_port());
                assert(s5.subrange(1, 1) =~= Seq::<(Seq<u8>, BvalueV)>::empty());
            },
            None => {},
        }
    }
    let acc6 = ArgsAccV { token: a.token, ..acc5 };
    assert(walk_args(s6, acc5) == Ok::<ArgsAccV, DecodeErrorV>(acc6)) by {
        reveal_with_fuel(walk_args, 3);
        match a.token {
            Some(b) => {
                assert(s6[0].0 != key_id());
                assert(s6[0].0 != key_implied_port());
                assert(s6[0].0 != key_info_hash());
                assert(s6[0].0 != key_port());
                assert(s6[0].0 != key_target());
                assert(s6.subrange(1, 1) =~= Seq::<(Seq<u8>, BvalueV)>::empty());
            },
            None => {},
        }
    }
    lemma_walk_args_concat(s1, s2, acc0);
    lemma_walk_args_concat(s1 + s2, s3, acc0);
    lemma_walk_args_concat(s1 + s2 + s3, s4, acc0);
    lemma_walk_args_concat(s1 + s2 + s3 + s4, s5, acc0);
    lemma_walk_args_concat(s1 + s2 + s3 + s4 + s5, s6, acc0);
    assert(walk_args(s1 + s2 + s3 + s4 + s5 + s6, acc0) == Ok::<ArgsAccV, DecodeErrorV>(acc6));
}

/// Reading back an encoded response gives the response.
pub proof fn lemma_sd_resp_inverse(r: ResponseV)
    requires
        wf_resp(r),
    ensures
        sd_response(resp_bv(r)) == Ok::<ResponseV, DecodeErrorV>(r),
{
    let s1 = seq![(key_id(), BvalueV::Bytes(r.sender_id))];
    let s2: Seq<(Seq<u8>, BvalueV)> = match r.nodes {
        Some(ns) => seq![(key_nodes(), BvalueV::Bytes(nodes_bytes(ns)))],
        None => seq![],
    };
    let s3: Seq<(Seq<u8>, BvalueV)> = match r.token {
        Some(b) => seq![(key_token(), BvalueV::Bytes(b))],
        None => seq![],
    };
    let s4: Seq<(Seq<u8>, BvalueV)> = match r.values {
        Some(vs) => seq![(key_values(), BvalueV::List(addrs_bv_items(vs)))],
        None => seq![],
    };
    let acc0 = resp_acc0();
    let acc1 = RespAccV { sender_id: Some(r.sender_id), ..acc0 };
    assert(walk_resp(s1, acc0) == Ok::<RespAccV, DecodeErrorV>(acc1)) by {
        reveal_with_fuel(walk_resp, 3);
        assert(s1.subrange(1, 1) =~= Seq::<(Seq<u8>, BvalueV)>::empty());
    }
    let acc2 = RespAccV { nodes: r.nodes, ..acc1 };
    assert(walk_resp(s2, acc1) == Ok::<RespAccV, DecodeErrorV>(acc2)) by {
        reveal_with_fuel(walk_resp, 3);
        match r.nodes {
            Some(ns) => {
                assert(s2[0].0 != key_id());
                assert(s2.subrange(1, 1) =~= Seq::<(Seq<u8>, BvalueV)>::empty());
                lemma_nodes_of_bytes_inverse(ns);
                vstd::arithmetic::div_mod::lemma_mod_multiples_basic(
                    ns.len() as int,
                    26,
                );
                assert(sd_nodes(BvalueV::Bytes(nodes_bytes(ns))) == Ok::<
                    Seq<NodeV>,
                    DecodeErrorV,
                >(ns));
            },
            None => {},
        }
    }
    let acc3 = RespAccV { token: r.token, ..acc2 };
    assert(walk_resp(s3, acc2) == Ok::<RespAccV, DecodeErrorV>(acc3)) by {
        reveal_with_fuel(walk_resp, 3);
        match r.token {
            Some(b) => {
                assert(s3[0].0 != key_id());
                assert(s3[0].0 != key_nodes());
                assert(s3[0].0 != key_values());
                assert(s3.subrange(1, 1) =~= Seq::<(Seq<u8>, BvalueV)>::empty());
            },
            None => {},
        }
    }
    let acc4 = RespAccV { values: r.values, ..acc3 };
    assert(walk_resp(s4, acc3) == Ok::<RespAccV, DecodeErrorV>(acc4)) by {
        reveal_with_fuel(walk_resp, 3);
        match r.values {
            Some(vs) => {
                assert(s4[0].0 != key_id());
                assert(s4[0].0 != key_nodes());
                assert(s4[0].0 != key_token());
                assert(s4.subrange(1, 1) =~= Seq::<(Seq<u8>, BvalueV)>::empty());
                lemma_addrs_items_inverse(vs);
            },
            None => {},
        }
    }
    lemma_walk_resp_concat(s1, s2, acc0);
    lemma_walk_resp_concat(s1 + s2, s3, acc0);
    lemma_walk_resp_concat(s1 + s2 + s3, s4, acc0);
    assert(walk_resp(s1 + s2 + s3 + s4, acc0) == Ok::<RespAccV, DecodeErrorV>(acc4));
}


/// Well-formedness of a concatenation of pairs, piecewise.
pub proof fn lemma_bv_wf_pairs_concat(a: Seq<(Seq<u8>, BvalueV)>, b: Seq<(Seq<u8>, BvalueV)>)
    ensures
        bencode::bv_wf_pairs(a + b) == (bencode::bv_wf_pairs(a) && bencode::bv_wf_pairs(b)),
    decreases a.len(),
{
    if a.len() == 0 {
        assert(a + b =~= b);
    } else {
        lemma_bv_wf_pairs_concat(a.subrange(1, a.len() as int), b);
        assert((a + b).subrange(1, (a + b).len() as int) =~= a.subrange(1, a.len() as int) + b);
        assert((a + b)[0] == a[0]);
    }
}

/// Depth of a concatenation of pairs: the greater of the parts.
pub proof fn lemma_bv_depth_pairs_concat(a: Seq<(Seq<u8>, BvalueV)>, b: Seq<(Seq<u8>, BvalueV)>)
    ensures
        bencode::bv_depth_pairs(a + b) == if bencode::bv_depth_pairs(a) >= bencode::bv_depth_pairs(
            b,
        ) {
            bencode::bv_depth_pairs(a)
        } else {
            bencode::bv_depth_pairs(b)
        },
    decreases a.len(),
{
    if a.len() == 0 {
        assert(a + b =~= b);
    } else {
        lemma_bv_depth_pairs_concat(a.subrange(1, a.len() as int), b);
        assert((a + b).subrange(1, (a + b).len() as int) =~= a.subrange(1, a.len() as int) + b);
        assert((a + b)[0] == a[0]);
    }
}

/// The members of an encoded address list are well-formed scalars.
pub proof fn lemma_addrs_bv_items_flat(vs: Seq<AddrV>)
    ensures
        bencode::bv_wf_items(addrs_bv_items(vs)),
        bencode::bv_depth_items(addrs_bv_items(vs)) == 0,
    decreases vs.len(),
{
    reveal_with_fuel(bencode::bv_wf_items, 3);
    reveal_with_fuel(bencode::bv_depth_items, 3);
    assert(bencode::bv_wf_items(Seq::<BvalueV>::empty()));
    assert(bencode::bv_depth_items(Seq::<BvalueV>::empty()) == 0);
    if vs.len() == 0 {
        assert(addrs_bv_items(vs) =~= Seq::<BvalueV>::empty());
    } else {
        lemma_addrs_bv_items_flat(vs.subrange(1, vs.len() as int));
        let items = addrs_bv_items(vs);
        assert(items[0] == BvalueV::Bytes(addr_bytes(vs[0])));
        assert(items.subrange(1, items.len() as int) =~= addrs_bv_items(
            vs.subrange(1, vs.len() as int),
        ));
    }
}

/// A one-pair sequence of a scalar value is well-formed and flat.
pub proof fn lemma_scalar_pair(k: Seq<u8>, v: BvalueV)
    requires
        bencode::bv_wf(v),
    ensures
        bencode::bv_wf_pairs(seq![(k, v)]),
        bencode::bv_depth_pairs(seq![(k, v)]) == bencode::bv_depth(v),
{
    reveal_with_fuel(bencode::bv_wf_pairs, 3);
    reveal_with_fuel(bencode::bv_depth_pairs, 3);
    let s = seq![(k, v)];
    assert(bencode::bv_wf_pairs(Seq::<(Seq<u8>, BvalueV)>::empty()));
    assert(bencode::bv_depth_pairs(Seq::<(Seq<u8>, BvalueV)>::empty()) == 0);
    assert(s.subrange(1, 1) =~= Seq::<(Seq<u8>, BvalueV)>::empty());
    assert(s[0] == (k, v));
}

/// The encoded query arguments are a well-formed dictionary of
/// scalars.
pub proof fn lemma_args_bv_shape(a: QueryArgsV)
    ensures
        bencode::bv_wf(args_bv(a)),
        bencode::bv_depth(args_bv(a)) == 1,
{
    let s1 = seq![(key_id(), BvalueV::Bytes(a.sender_id))];
    let s2: Seq<(Seq<u8>, BvalueV)> = match a.implied_port {
        Some(b) => seq![
            (key_implied_port(), BvalueV::Int(if b {
                1int
            } else {
                0int
            })),
        ],
        None => seq![],
    };
    let s3: Seq<(Seq<u8>, BvalueV)> = match a.info_hash {
        Some(h) => seq![(key_info_hash(), BvalueV::Bytes(h))],
        None => seq![],
    };
    let s4: Seq<(Seq<u8>, BvalueV)> = match a.port {
        Some(p) => seq![(key_port(), BvalueV::Int(p as int))],
        None => seq![],
    };
    let s5: Seq<(Seq<u8>, BvalueV)> = match a.target {
        Some(h) => seq![(key_target(), BvalueV::Bytes(h))],
        None => seq![],
    };
    let s6: Seq<(Seq<u8>, BvalueV)> = match a.token {
        Some(b) => seq![(key_token(), BvalueV::Bytes(b))],
        None => seq![],
    };
    lemma_scalar_pair(key_id(), BvalueV::Bytes(a.sender_id));
    match a.implied_port {
        Some(b) => {
            lemma_scalar_pair(key_implied_port(), BvalueV::Int(if b { 1int } else { 0int }));
        },
        None => {},
    }
    match a.info_hash {
        Some(h) => {
            lemma_scalar_pair(key_info_hash(), BvalueV::Bytes(h));
        },
        None => {},
    }
    match a.port {
        Some(p) => {
            lemma_scalar_pair(key_port(), BvalueV::Int(p as int));
        },
        None => {},
    }
    match a.target {
        Some(h) => {
            lemma_scalar_pair(key_target(), BvalueV::Bytes(h));
        },
        None => {},
    }
    match a.token {
        Some(b) => {
            lemma_scalar_pair(key_token(), BvalueV::Bytes(b));
        },
        None => {},
    }
    lemma_bv_wf_pairs_concat(s1, s2);
    lemma_bv_wf_pairs_concat(s1 + s2, s3);
    lemma_bv_wf_pairs_concat(s1 + s2 + s3, s4);
    lemma_bv_wf_pairs_concat(s1 + s2 + s3 + s4, s5);
    lemma_bv_wf_pairs_concat(s1 + s2 + s3 + s4 + s5, s6);
    lemma_bv_depth_pairs_concat(s1, s2);
    lemma_bv_depth_pairs_concat(s1 + s2, s3);
    lemma_bv_depth_pairs_concat(s1 + s2 + s3, s4);
    lemma_bv_depth_pairs_concat(s1 + s2 + s3 + s4, s5);
    lemma_bv_depth_pairs_concat(s1 + s2 + s3 + s4 + s5, s6);
}

/// The encoded response is a well-formed dictionary whose only
/// nesting is the `values` list.
pub proof fn lemma_resp_bv_shape(r: ResponseV)
    ensures
        bencode::bv_wf(resp_bv(r)),
        bencode::bv_depth(resp_bv(r)) <= 2,
{
    let s1 = seq![(key_id(), BvalueV::Bytes(r.sender_id))];
    let s2: Seq<(Seq<u8>, BvalueV)> = match r.nodes {
        Some(ns) => seq![(key_nodes(), BvalueV::Bytes(nodes_bytes(ns)))],
        None => seq![],
    };
    let s3: Seq<(Seq<u8>, BvalueV)> = match r.token {
        Some(b) => seq![(key_token(), BvalueV::Bytes(b))],
        None => seq![],
    };
    let s4: Seq<(Seq<u8>, BvalueV)> = match r.values {
        Some(vs) => seq![(key_values(), BvalueV::List(addrs_bv_items(vs)))],
        None => seq![],
    };
    lemma_scalar_pair(key_id(), BvalueV::Bytes(r.sender_id));
    match r.nodes {
        Some(ns) => {
            lemma_scalar_pair(key_nodes(), BvalueV::Bytes(nodes_bytes(ns)));
        },
        None => {},
    }
    match r.token {
        Some(b) => {
            lemma_scalar_pair(key_token(), BvalueV::Bytes(b));
        },
        None => {},
    }
    match r.values {
        Some(vs) => {
            lemma_addrs_bv_items_flat(vs);
            lemma_scalar_pair(key_values(), BvalueV::List(addrs_bv_items(vs)));
        },
        None => {},
    }
    lemma_bv_wf_pairs_concat(s1, s2);
    lemma_bv_wf_pairs_concat(s1 + s2, s3);
    lemma_bv_wf_pairs_concat(s1 + s2 + s3, s4);
    lemma_bv_depth_pairs_concat(s1, s2);
    lemma_bv_depth_pairs_concat(s1 + s2, s3);
    lemma_bv_depth_pairs_concat(s1 + s2 + s3, s4);
}

/// The encoded error payload is a well-formed flat list.
pub proof fn lemma_err_bv_shape(e: ErrorV)
    requires
        wf_err(e),
    ensures
        bencode::bv_wf(err_bv(e)),
        bencode::bv_depth(err_bv(e)) == 1,
{
    reveal_with_fuel(bencode::bv_wf_items, 3);
    reveal_with_fuel(bencode::bv_depth_items, 3);
    let items = err_bv(e)->List_0;
    assert(bencode::bv_wf_items(Seq::<BvalueV>::empty()));
    assert(bencode::bv_depth_items(Seq::<BvalueV>::empty()) == 0);
    assert(items.subrange(1, 2) =~= seq![
        BvalueV::Bytes(vstd::utf8::encode_utf8(e.message)),
    ]);
    assert(items.subrange(1, 2)[0] == BvalueV::Bytes(vstd::utf8::encode_utf8(e.message)));
    assert(items.subrange(1, 2).subrange(1, 1) =~= Seq::<BvalueV>::empty());
    assert(items[0] == BvalueV::Int(e.code));
    assert(bencode::bv_wf_items(items.subrange(1, 2)));
    assert(bencode::bv_depth_items(items.subrange(1, 2)) == 0);
    assert(items.len() == 2);
    assert(items.subrange(1, items.len() as int) == items.subrange(1, 2));
    assert(bencode::bv_wf_items(items));
    assert(bencode::bv_depth_items(items) == 0);
}

/// Decoding inverts encoding for every well-formed message model.
pub proof fn lemma_decode_of_encode(m: MessageV)
    requires
        wf_msg(m),
    ensures
        spec_decode(spec_encode(m)) == Ok::<MessageV, DecodeErrorV>(m),
{
    let sa: Seq<(Seq<u8>, BvalueV)> = match m.query_args {
        Some(a) => seq![(key_a(), args_bv(a))],
        None => seq![],
    };
    let se: Seq<(Seq<u8>, BvalueV)> = match m.error {
        Some(e) => seq![(key_e(), err_bv(e))],
        None => seq![],
    };
    let sq: Seq<(Seq<u8>, BvalueV)> = match m.query_type {
        Some(q) => seq![(key_q(), BvalueV::Bytes(query_type_wire(q)))],
        None => seq![],
    };
    let sr: Seq<(Seq<u8>, BvalueV)> = match m.response {
        Some(r) => seq![(key_r(), resp_bv(r))],
        None => seq![],
    };
    let st = seq![(key_t(), BvalueV::Bytes(tid_bytes(m.transaction_id)))];
    let sy = seq![(key_y(), BvalueV::Bytes(msg_type_wire(m.msg_type)))];
    // the tree is well formed and shallow, so the parser reads it back
    match m.query_args {
        Some(a) => {
            lemma_args_bv_shape(a);
            lemma_scalar_pair(key_a(), args_bv(a));
        },
        None => {},
    }
    match m.error {
        Some(e) => {
            lemma_err_bv_shape(e);
            lemma_scalar_pair(key_e(), err_bv(e));
        },
        None => {},
    }
    match m.query_type {
        Some(q) => {
            lemma_scalar_pair(key_q(), BvalueV::Bytes(query_type_wire(q)));
        },
        None => {},
    }
    match m.response {
        Some(r) => {
            lemma_resp_bv_shape(r);
            lemma_scalar_pair(key_r(), resp_bv(r));
        },
        None => {},
    }
    lemma_scalar_pair(key_t(), BvalueV::Bytes(tid_bytes(m.transaction_id)));
    lemma_scalar_pair(key_y(), BvalueV::Bytes(msg_type_wire(m.msg_type)));
    lemma_bv_wf_pairs_concat(sa, se);
    lemma_bv_wf_pairs_concat(sa + se, sq);
    lemma_bv_wf_pairs_concat(sa + se + sq, sr);
    lemma_bv_wf_pairs_concat(sa + se + sq + sr, st);
    lemma_bv_wf_pairs_concat(sa + se + sq + sr + st, sy);
    lemma_bv_depth_pairs_concat(sa, se);
    lemma_bv_depth_pairs_concat(sa + se, sq);
    lemma_bv_depth_pairs_concat(sa + se + sq, sr);
    lemma_bv_depth_pairs_concat(sa + se + sq + sr, st);
    lemma_bv_depth_pairs_concat(sa + se + sq + sr + st, sy);
    assert(bencode::bv_wf(msg_bv(m)));
    assert(bencode::bv_depth(msg_bv(m)) <= bencode::MAX_DEPTH as nat);
    bencode::lemma_parse_of_encode(msg_bv(m));
    // the walk reads the six segments back into the accumulator
    assert(key_t()[0] == 116);
    assert(key_y()[0] == 121);
    assert(key_q()[0] == 113);
    assert(key_a()[0] == 97);
    assert(key_r()[0] == 114);
    assert(key_e()[0] == 101);
    let acc0 = msg_acc0();
    let acc1 = MsgAccV { a: m.query_args, ..acc0 };
    assert(walk_msg(sa, acc0) == Ok::<MsgAccV, DecodeErrorV>(acc1)) by {
        reveal_with_fuel(walk_msg, 3);
        match m.query_args {
            Some(a) => {
                lemma_sd_args_inverse(a);
                assert(sa[0].0 != key_t());
                assert(sa[0].0 != key_y());
                assert(sa[0].0 != key_q());
                assert(sa.subrange(1, 1) =~= Seq::<(Seq<u8>, BvalueV)>::empty());
            },
            None => {},
        }
    }
    let acc2 = MsgAccV { e: m.error, ..acc1 };
    assert(walk_msg(se, acc1) == Ok::<MsgAccV, DecodeErrorV>(acc2)) by {
        reveal_with_fuel(walk_msg, 3);
        match m.error {
            Some(e) => {
                lemma_sd_error_inverse(e);
                assert(se[0].0 != key_t());
                assert(se[0].0 != key_y());
                assert(se[0].0 != key_q());
                assert(se[0].0 != key_a());
                assert(se[0].0 != key_r());
                assert(se.subrange(1, 1) =~= Seq::<(Seq<u8>, BvalueV)>::empty());
            },
            None => {},
        }
    }
    let acc3 = MsgAccV { q: m.query_type, ..acc2 };
    assert(walk_msg(sq, acc2) == Ok::<MsgAccV, DecodeErrorV>(acc3)) by {
        reveal_with_fuel(walk_msg, 3);
        match m.query_type {
            Some(q) => {
                lemma_sd_query_type_inverse(q);
                assert(sq[0].0 != key_t());
                assert(sq[0].0 != key_y());
                assert(sq.subrange(1, 1) =~= Seq::<(Seq<u8>, BvalueV)>::empty());
            },
            None => {},
        }
    }
    let acc4 = MsgAccV { r: m.response, ..acc3 };
    assert(walk_msg(sr, acc3) == Ok::<MsgAccV, DecodeErrorV>(acc4)) by {
        reveal_with_fuel(walk_msg, 3);
        match m.response {
            Some(r) => {
                lemma_sd_resp_inverse(r);
                assert(sr[0].0 != key_t());
                assert(sr[0].0 != key_y());
                assert(sr[0].0 != key_q());
                assert(sr[0].0 != key_a());
                assert(sr.subrange(1, 1) =~= Seq::<(Seq<u8>, BvalueV)>::empty());
            },
            None => {},
        }
    }
    let acc5 = MsgAccV { t: Some(m.transaction_id), ..acc4 };
    assert(walk_msg(st, acc4) == Ok::<MsgAccV, DecodeErrorV>(acc5)) by {
        reveal_with_fuel(walk_msg, 3);
        lemma_sd_tid_inverse(m.transaction_id);
        assert(st.subrange(1, 1) =~= Seq::<(Seq<u8>, BvalueV)>::empty());
    }
    let acc6 = MsgAccV { y: Some(m.msg_type), ..acc5 };
    assert(walk_msg(sy, acc5) == Ok::<MsgAccV, DecodeErrorV>(acc6)) by {
        reveal_with_fuel(walk_msg, 3);
        lemma_sd_msg_type_inverse(m.msg_type);
        assert(sy[0].0 != key_t());
        assert(sy.subrange(1, 1) =~= Seq::<(Seq<u8>, BvalueV)>::empty());
    }
    lemma_walk_msg_concat(sa, se, acc0);
    lemma_walk_msg_concat(sa + se, sq, acc0);
    lemma_walk_msg_concat(sa + se + sq, sr, acc0);
    lemma_walk_msg_concat(sa + se + sq + sr, st, acc0);
    lemma_walk_msg_concat(sa + se + sq + sr + st, sy, acc0);
    assert(walk_msg(sa + se + sq + sr + st + sy, acc0) == Ok::<MsgAccV, DecodeErrorV>(acc6));
    assert(sd_message(msg_bv(m)) == Ok::<MessageV, DecodeErrorV>(m));
}

/// Reading back the wire value of a transaction id gives the id.
pub proof fn lemma_sd_tid_inverse(t: u16)
    ensures
        sd_tid(BvalueV::Bytes(tid_bytes(t))) == Ok::<u16, DecodeErrorV>(t),
{
    vstd::arithmetic::div_mod::lemma_fundamental_div_mod(t as int, 256);
    assert(tid_bytes(t)[0] == (t / 256) as u8);
    assert(tid_bytes(t)[1] == (t % 256) as u8);
}

/// Reading back the wire byte of a message class gives the class.
pub proof fn lemma_sd_msg_type_inverse(y: MessageType)
    ensures
        sd_msg_type(BvalueV::Bytes(msg_type_wire(y))) == Ok::<MessageType, DecodeErrorV>(y),
{
    assert(msg_type_wire(MessageType::Query)[0] == 113);
    assert(msg_type_wire(MessageType::Response)[0] == 114);
    assert(msg_type_wire(MessageType::Error)[0] == 101);
}

/// Reading back the wire name of a query kind gives the kind.
pub proof fn lemma_sd_query_type_inverse(q: QueryType)
    ensures
        sd_query_type(BvalueV::Bytes(query_type_wire(q))) == Ok::<QueryType, DecodeErrorV>(q),
{
    assert(name_ping().len() == 4);
    assert(name_find_node().len() == 9);
    assert(name_get_peers().len() == 9);
    assert(name_announce_peer().len() == 13);
    assert(name_find_node()[0] == 102);
    assert(name_get_peers()[0] == 103);
}


/// Unknown-key tolerance: a top-level dictionary with an extra pair
/// whose key is none of `t`, `y`, `q`, `a`, `r`, `e` decodes exactly
/// as the same dictionary without that pair, wherever the pair stands.
pub proof fn lemma_unknown_key_ignored(
    p1: Seq<(Seq<u8>, BvalueV)>,
    k: Seq<u8>,
    v: BvalueV,
    p2: Seq<(Seq<u8>, BvalueV)>,
)
    requires
        k != key_t(),
        k != key_y(),
        k != key_q(),
        k != key_a(),
        k != key_r(),
        k != key_e(),
    ensures
        sd_message(BvalueV::Dict(p1 + seq![(k, v)] + p2)) == sd_message(BvalueV::Dict(p1 + p2)),
{
    let acc0 = msg_acc0();
    lemma_walk_msg_concat(p1 + seq![(k, v)], p2, acc0);
    lemma_walk_msg_concat(p1, seq![(k, v)], acc0);
    lemma_walk_msg_concat(p1, p2, acc0);
    match walk_msg(p1, acc0) {
        Ok(acc) => {
            assert(walk_msg(seq![(k, v)], acc) == walk_msg(
                Seq::<(Seq<u8>, BvalueV)>::empty(),
                acc,
            )) by {
                reveal_with_fuel(walk_msg, 2);
                assert(seq![(k, v)][0] == (k, v));
                assert(seq![(k, v)].subrange(1, 1) =~= Seq::<(Seq<u8>, BvalueV)>::empty());
            }
        },
        Err(e) => {},
    }
}


// ---------------------------------------------------------------------
// Decoded messages are well formed
// ---------------------------------------------------------------------
/// Every node read out of a packed byte string is well formed.
pub proof fn lemma_nodes_of_bytes_wf(b: Seq<u8>)
    ensures
        forall|i: int|
            0 <= i < nodes_of_bytes(b).len() ==> wf_node(#[trigger] nodes_of_bytes(b)[i]),
    decreases b.len(),
{
    if b.len() >= 26 {
        lemma_nodes_of_bytes_wf(b.subrange(26, b.len() as int));
        let ns = nodes_of_bytes(b);
        let head = node_of_bytes(b.subrange(0, 26));
        let rest = nodes_of_bytes(b.subrange(26, b.len() as int));
        assert(wf_node(head));
        assert forall|i: int| 0 <= i < ns.len() implies wf_node(#[trigger] ns[i]) by {
            if i > 0 {
                assert(ns[i] == rest[i - 1]);
            }
        }
    }
}

/// Every address read out of a `values` list has four octets.
pub proof fn lemma_sd_addr_items_wf(items: Seq<BvalueV>)
    ensures
        match sd_addr_items(items) {
            Ok(vs) => forall|i: int| 0 <= i < vs.len() ==> (#[trigger] vs[i]).ip.len() == 4,
            Err(e) => true,
        },
    decreases items.len(),
{
    if items.len() > 0 {
        lemma_sd_addr_items_wf(items.subrange(1, items.len() as int));
        match sd_addr_items(items) {
            Ok(vs) => {
                match sd_addr_items(items.subrange(1, items.len() as int)) {
                    Ok(rest) => {
                        assert forall|i: int|
                            0 <= i < vs.len() implies (#[trigger] vs[i]).ip.len() == 4 by {
                            if i > 0 {
                                assert(vs[i] == rest[i - 1]);
                            }
                        }
                    },
                    Err(e) => {},
                }
            },
            Err(e) => {},
        }
    }
}

/// What the arguments walk has seen keeps its widths.
pub open spec fn wf_args_acc(acc: ArgsAccV) -> bool {
    &&& match acc.sender_id {
        Some(h) => h.len() == 20,
        None => true,
    }
    &&& match acc.target {
        Some(h) => h.len() == 20,
        None => true,
    }
    &&& match acc.info_hash {
        Some(h) => h.len() == 20,
        None => true,
    }
}

/// The arguments walk preserves well-formedness of what it has seen.
pub proof fn lemma_walk_args_wf(ps: Seq<(Seq<u8>, BvalueV)>, acc: ArgsAccV)
    requires
        wf_args_acc(acc),
    ensures
        match walk_args(ps, acc) {
            Ok(acc2) => wf_args_acc(acc2),
            Err(e) => true,
        },
    decreases ps.len(),
{
    if ps.len() > 0 {
        let k = ps[0].0;
        let v = ps[0].1;
        let rest = ps.subrange(1, ps.len() as int);
        if k == key_id() {
            match sd_hash(v) {
                Ok(h) => {
                    lemma_walk_args_wf(rest, ArgsAccV { sender_id: Some(h), ..acc });
                },
                Err(e) => {},
            }
        } else if k == key_implied_port() {
            match sd_implied_port(v) {
                Ok(b) => {
                    lemma_walk_args_wf(rest, ArgsAccV { implied_port: Some(b), ..acc });
                },
                Err(e) => {},
            }
        } else if k == key_info_hash() {
            match sd_hash(v) {
                Ok(h) => {
                    lemma_walk_args_wf(rest, ArgsAccV { info_hash: Some(h), ..acc });
                },
                Err(e) => {},
            }
        } else if k == key_port() {
            match sd_port(v) {
                Ok(p) => {
                    lemma_walk_args_wf(rest, ArgsAccV { port: Some(p), ..acc });
                },
                Err(e) => {},
            }
        } else if k == key_target() {
            match sd_hash(v) {
                Ok(h) => {
                    lemma_walk_args_wf(rest, ArgsAccV { target: Some(h), ..acc });
                },
                Err(e) => {},
            }
        } else if k == key_token() {
            match sd_bytes(v) {
                Ok(b) => {
                    lemma_walk_args_wf(rest, ArgsAccV { token: Some(b), ..acc });
                },
                Err(e) => {},
            }
        } else {
            lemma_walk_args_wf(rest, acc);
        }
    }
}

/// Query arguments read from any value are well formed.
pub proof fn lemma_sd_query_args_wf(v: BvalueV)
    ensures
        match sd_query_args(v) {
            Ok(a) => wf_args(a),
            Err(e) => true,
        },
{
    match v {
        BvalueV::Dict(ps) => {
            lemma_walk_args_wf(ps, args_acc0());
        },
        _ => {},
    }
}

/// What the response walk has seen keeps its widths.
pub open spec fn wf_resp_acc(acc: RespAccV) -> bool {
    &&& match acc.sender_id {
        Some(h) => h.len() == 20,
        None => true,
    }
    &&& match acc.nodes {
        Some(ns) => forall|i: int| 0 <= i < ns.len() ==> wf_node(#[trigger] ns[i]),
        None => true,
    }
    &&& match acc.values {
        Some(vs) => forall|i: int| 0 <= i < vs.len() ==> (#[trigger] vs[i]).ip.len() == 4,
        None => true,
    }
}

/// The response walk preserves well-formedness of what it has seen.
pub proof fn lemma_walk_resp_wf(ps: Seq<(Seq<u8>, BvalueV)>, acc: RespAccV)
    requires
        wf_resp_acc(acc),
    ensures
        match walk_resp(ps, acc) {
            Ok(acc2) => wf_resp_acc(acc2),
            Err(e) => true,
        },
    decreases ps.len(),
{
    if ps.len() > 0 {
        let k = ps[0].0;
        let v = ps[0].1;
        let rest = ps.subrange(1, ps.len() as int);
        if k == key_id() {
            match sd_hash(v) {
                Ok(h) => {
                    lemma_walk_resp_wf(rest, RespAccV { sender_id: Some(h), ..acc });
                },
                Err(e) => {},
            }
        } else if k == key_nodes() {
            match sd_nodes(v) {
                Ok(ns) => {
                    match v {
                        BvalueV::Bytes(b) => {
                            lemma_nodes_of_bytes_wf(b);
                        },
                        _ => {},
                    }
                    lemma_walk_resp_wf(rest, RespAccV { nodes: Some(ns), ..acc });
                },
                Err(e) => {},
            }
        } else if k == key_values() {
            match sd_values(v) {
                Ok(vs) => {
                    match v {
                        BvalueV::List(items) => {
                            lemma_sd_addr_items_wf(items);
                        },
                        _ => {},
                    }
                    lemma_walk_resp_wf(rest, RespAccV { values: Some(vs), ..acc });
                },
                Err(e) => {},
            }
        } else if k == key_token() {
            match sd_bytes(v) {
                Ok(b) => {
                    lemma_walk_resp_wf(rest, RespAccV { token: Some(b), ..acc });
                },
                Err(e) => {},
            }
        } else {
            lemma_walk_resp_wf(rest, acc);
        }
    }
}

/// A response read from any value is well formed.
pub proof fn lemma_sd_response_wf(v: BvalueV)
    ensures
        match sd_response(v) {
            Ok(r) => wf_resp(r),
            Err(e) => true,
        },
{
    match v {
        BvalueV::Dict(ps) => {
            lemma_walk_resp_wf(ps, resp_acc0());
        },
        _ => {},
    }
}

/// An error payload read from a well-formed value has a code within
/// the wire integer's range.
pub proof fn lemma_sd_error_wf(v: BvalueV)
    requires
        bencode::bv_wf(v),
    ensures
        match sd_error(v) {
            Ok(e) => wf_err(e),
            Err(e) => true,
        },
{
    match v {
        BvalueV::List(items) => {
            if items.len() >= 1 {
                bencode::lemma_bv_wf_items_index(items, 0);
            }
        },
        _ => {},
    }
}

/// What the top-level walk has seen is well formed, provided the
/// values walked over are well formed.
pub open spec fn wf_msg_acc(acc: MsgAccV) -> bool {
    &&& match acc.a {
        Some(a) => wf_args(a),
        None => true,
    }
    &&& match acc.r {
        Some(r) => wf_resp(r),
        None => true,
    }
    &&& match acc.e {
        Some(e) => wf_err(e),
        None => true,
    }
}

/// The top-level walk of a well-formed dictionary preserves
/// well-formedness of what it has seen.
pub proof fn lemma_walk_msg_wf(ps: Seq<(Seq<u8>, BvalueV)>, acc: MsgAccV)
    requires
        bencode::bv_wf_pairs(ps),
        wf_msg_acc(acc),
    ensures
        match walk_msg(ps, acc) {
            Ok(acc2) => wf_msg_acc(acc2),
            Err(e) => true,
        },
    decreases ps.len(),
{
    if ps.len() > 0 {
        let k = ps[0].0;
        let v = ps[0].1;
        let rest = ps.subrange(1, ps.len() as int);
        if k == key_t() {
            match sd_tid(v) {
                Ok(t) => {
                    lemma_walk_msg_wf(rest, MsgAccV { t: Some(t), ..acc });
                },
                Err(e) => {},
            }
        } else if k == key_y() {
            match sd_msg_type(v) {
                Ok(y) => {
                    lemma_walk_msg_wf(rest, MsgAccV { y: Some(y), ..acc });
                },
                Err(e) => {},
            }
        } else if k == key_q() {
            match sd_query_type(v) {
                Ok(q) => {
                    lemma_walk_msg_wf(rest, MsgAccV { q: Some(q), ..acc });
                },
                Err(e) => {},
            }
        } else if k == key_a() {
            match sd_query_args(v) {
                Ok(a) => {
                    lemma_sd_query_args_wf(v);
                    lemma_walk_msg_wf(rest, MsgAccV { a: Some(a), ..acc });
                },
                Err(e) => {},
            }
        } else if k == key_r() {
            match sd_response(v) {
                Ok(r) => {
                    lemma_sd_response_wf(v);
                    lemma_walk_msg_wf(rest, MsgAccV { r: Some(r), ..acc });
                },
                Err(e) => {},
            }
        } else if k == key_e() {
            match sd_error(v) {
                Ok(e) => {
                    lemma_sd_error_wf(v);
                    lemma_walk_msg_wf(rest, MsgAccV { e: Some(e), ..acc });
                },
                Err(err) => {},
            }
        } else {
            lemma_walk_msg_wf(rest, acc);
        }
    }
}

/// Every message a byte string decodes to is well formed.
pub proof fn lemma_decode_wf(s: Seq<u8>, m: MessageV)
    requires
        spec_decode(s) == Ok::<MessageV, DecodeErrorV>(m),
    ensures
        wf_msg(m),
{
    let tree = bencode::sp_message(s)->Some_0;
    bencode::lemma_encode_of_parse(s, tree);
    match tree {
        BvalueV::Dict(ps) => {
            lemma_walk_msg_wf(ps, msg_acc0());
        },
        _ => {},
    }
}

} // verus!
