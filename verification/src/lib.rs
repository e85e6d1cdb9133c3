//! Codec for the KRPC message family used by DHT peers: typed query,
//! response and error messages mapped onto the bencode wire format.
//!
//! The [`bencode`] module holds the generic value model with its
//! verified parser and serializer; [`raw`] holds the message
//! dictionary shape; this root holds the six typed message variants,
//! whose decoding enforces each kind's required fields.
use vstd::prelude::*;

pub mod bencode;
pub mod raw;

use raw::{
    missing_v, wf_resp, DecodeError, DecodeErrorV, MessageType, Node, QueryArgs, QueryArgsV,
    QueryType,
};

verus! {

/// A `ping` query: the sender introduces itself.
#[derive(Clone, Debug, PartialEq, Eq)]
pub struct Ping {
    pub transaction_id: u16,
    pub sender_id: raw::Hash,
}

/// Model of a `ping` query.
pub struct PingV {
    pub transaction_id: u16,
    pub sender_id: Seq<u8>,
}

impl View for Ping {
    type V = PingV;

    open spec fn view(&self) -> PingV {
        PingV { transaction_id: self.transaction_id, sender_id: self.sender_id@ }
    }
}

/// The raw message a `ping` query maps to.
pub open spec fn ping_raw(p: PingV) -> raw::MessageV {
    raw::MessageV {
        transaction_id: p.transaction_id,
        msg_type: MessageType::Query,
        query_type: Some(QueryType::Ping),
        query_args: Some(
            QueryArgsV {
                sender_id: p.sender_id,
                target: None,
                info_hash: None,
                implied_port: None,
                port: None,
                token: None,
            },
        ),
        response: None,
        error: None,
    }
}

/// Reading of a `ping` query from a raw message: its `a` payload is
/// required, and only the sender is taken from it.
pub open spec fn sd_ping(rm: raw::MessageV) -> Result<PingV, DecodeErrorV> {
    match rm.query_args {
        Some(a) => Ok(PingV { transaction_id: rm.transaction_id, sender_id: a.sender_id }),
        None => Err(missing_v("a"@)),
    }
}

impl Ping {
    /// A `ping` query from its transaction id and sender.
    pub fn new(transaction_id: u16, sender_id: raw::Hash) -> (r: Ping)
        ensures
            r@ == (PingV { transaction_id, sender_id: sender_id@ }),
    {
        Ping { transaction_id, sender_id }
    }

    /// The query's canonical wire bytes.
    pub fn encode(self) -> (r: Vec<u8>)
        ensures
            r@ == raw::spec_encode(ping_raw(self@)),
    {
        let rm = raw::Message {
            transaction_id: self.transaction_id,
            msg_type: MessageType::Query,
            query_type: Some(QueryType::Ping),
            query_args: Some(
                QueryArgs {
                    sender_id: self.sender_id,
                    target: None,
                    info_hash: None,
                    implied_port: None,
                    port: None,
                    token: None,
                },
            ),
            response: None,
            error: None,
        };
        rm.encode()
    }

    /// The query read out of a raw message.
    fn from_raw_msg(rm: raw::Message) -> (r: Result<Ping, DecodeError>)
        ensures
            match r {
                Ok(p) => sd_ping(rm@) == Ok::<PingV, DecodeErrorV>(p@),
                Err(e) => sd_ping(rm@) == Err::<PingV, DecodeErrorV>(e@),
            },
    {
        match rm.query_args {
            Some(a) => Ok(Ping { transaction_id: rm.transaction_id, sender_id: a.sender_id }),
            None => Err(DecodeError::missing("a")),
        }
    }
}

/// A `find_node` query: the sender asks for nodes close to a target.
#[derive(Clone, Debug, PartialEq, Eq)]
pub struct FindNode {
    pub transaction_id: u16,
    pub sender_id: raw::Hash,
    pub target: raw::Hash,
}

/// Model of a `find_node` query.
pub struct FindNodeV {
    pub transaction_id: u16,
    pub sender_id: Seq<u8>,
    pub target: Seq<u8>,
}

impl View for FindNode {
    type V = FindNodeV;

    open spec fn view(&self) -> FindNodeV {
        FindNodeV {
            transaction_id: self.transaction_id,
            sender_id: self.sender_id@,
            target: self.target@,
        }
    }
}

/// The raw message a `find_node` query maps to.
pub open spec fn find_node_raw(p: FindNodeV) -> raw::MessageV {
    raw::MessageV {
        transaction_id: p.transaction_id,
        msg_type: MessageType::Query,
        query_type: Some(QueryType::FindNode),
        query_args: Some(
            QueryArgsV {
                sender_id: p.sender_id,
                target: Some(p.target),
                info_hash: None,
                implied_port: None,
                port: None,
                token: None,
            },
        ),
        response: None,
        error: None,
    }
}

/// Reading of a `find_node` query from a raw message: `a` and its
/// `target` are required.
pub open spec fn sd_find_node(rm: raw::MessageV) -> Result<FindNodeV, DecodeErrorV> {
    match rm.query_args {
        Some(a) => match a.target {
            Some(t) => Ok(
                FindNodeV {
                    transaction_id: rm.transaction_id,
                    sender_id: a.sender_id,
                    target: t,
                },
            ),
            None => Err(missing_v("target"@)),
        },
        None => Err(missing_v("a"@)),
    }
}

impl FindNode {
    /// A `find_node` query from its transaction id, sender and target.
    pub fn new(transaction_id: u16, sender_id: raw::Hash, target: raw::Hash) -> (r: FindNode)
        ensures
            r@ == (FindNodeV { transaction_id, sender_id: sender_id@, target: target@ }),
    {
        FindNode { transaction_id, sender_id, target }
    }

    /// The query's canonical wire bytes.
    pub fn encode(self) -> (r: Vec<u8>)
        ensures
            r@ == raw::spec_encode(find_node_raw(self@)),
    {
        let rm = raw::Message {
            transaction_id: self.transaction_id,
            msg_type: MessageType::Query,
            query_type: Some(QueryType::FindNode),
            query_args: Some(
                QueryArgs {
                    sender_id: self.sender_id,
                    target: Some(self.target),
                    info_hash: None,
                    implied_port: None,
                    port: None,
                    token: None,
                },
            ),
            response: None,
            error: None,
        };
        rm.encode()
    }

    /// The query read out of a raw message.
    fn from_raw_msg(rm: raw::Message) -> (r: Result<FindNode, DecodeError>)
        ensures
            match r {
                Ok(p) => sd_find_node(rm@) == Ok::<FindNodeV, DecodeErrorV>(p@),
                Err(e) => sd_find_node(rm@) == Err::<FindNodeV, DecodeErrorV>(e@),
            },
    {
        match rm.query_args {
            Some(a) => match a.target {
                Some(t) => Ok(
                    FindNode {
                        transaction_id: rm.transaction_id,
                        sender_id: a.sender_id,
                        target: t,
                    },
                ),
                None => Err(DecodeError::missing("target")),
            },
            None => Err(DecodeError::missing("a")),
        }
    }
}

/// A `get_peers` query: the sender asks for peers of a content hash.
#[derive(Clone, Debug, PartialEq, Eq)]
pub struct GetPeers {
    pub transaction_id: u16,
    pub sender_id: raw::Hash,
    pub info_hash: raw::Hash,
}

/// Model of a `get_peers` query.
pub struct GetPeersV {
    pub transaction_id: u16,
    pub sender_id: Seq<u8>,
    pub info_hash: Seq<u8>,
}

impl View for GetPeers {
    type V = GetPeersV;

    open spec fn view(&self) -> GetPeersV {
        GetPeersV {
            transaction_id: self.transaction_id,
            sender_id: self.sender_id@,
            info_hash: self.info_hash@,
        }
    }
}

/// The raw message a `get_peers` query maps to.
pub open spec fn get_peers_raw(p: GetPeersV) -> raw::MessageV {
    raw::MessageV {
        transaction_id: p.transaction_id,
        msg_type: MessageType::Query,
        query_type: Some(QueryType::GetPeers),
        query_args: Some(
            QueryArgsV {
                sender_id: p.sender_id,
                target: None,
                info_hash: Some(p.info_hash),
                implied_port: None,
                port: None,
                token: None,
            },
        ),
        response: None,
        error: None,
    }
}

/// Reading of a `get_peers` query from a raw message: `a` and its
/// `info_hash` are required.
pub open spec fn sd_get_peers(rm: raw::MessageV) -> Result<GetPeersV, DecodeErrorV> {
    match rm.query_args {
        Some(a) => match a.info_hash {
            Some(h) => Ok(
                GetPeersV {
                    transaction_id: rm.transaction_id,
                    sender_id: a.sender_id,
                    info_hash: h,
                },
            ),
            None => Err(missing_v("info_hash"@)),
        },
        None => Err(missing_v("a"@)),
    }
}

impl GetPeers {
    /// The query's canonical wire bytes.
    pub fn encode(self) -> (r: Vec<u8>)
        ensures
            r@ == raw::spec_encode(get_peers_raw(self@)),
    {
        let rm = raw::Message {
            transaction_id: self.transaction_id,
            msg_type: MessageType::Query,
            query_type: Some(QueryType::GetPeers),
            query_args: Some(
                QueryArgs {
                    sender_id: self.sender_id,
                    target: None,
                    info_hash: Some(self.info_hash),
                    implied_port: None,
                    port: None,
                    token: None,
                },
            ),
            response: None,
            error: None,
        };
        rm.encode()
    }

    /// The query read out of a raw message.
    fn from_raw_msg(rm: raw::Message) -> (r: Result<GetPeers, DecodeError>)
        ensures
            match r {
                Ok(p) => sd_get_peers(rm@) == Ok::<GetPeersV, DecodeErrorV>(p@),
                Err(e) => sd_get_peers(rm@) == Err::<GetPeersV, DecodeErrorV>(e@),
            },
    {
        match rm.query_args {
            Some(a) => match a.info_hash {
                Some(h) => Ok(
                    GetPeers {
                        transaction_id: rm.transaction_id,
                        sender_id: a.sender_id,
                        info_hash: h,
                    },
                ),
                None => Err(DecodeError::missing("info_hash")),
            },
            None => Err(DecodeError::missing("a")),
        }
    }
}

/// An `announce_peer` query: the sender announces that it serves a
/// content hash on a port, showing a token it was handed earlier.
#[derive(Clone, Debug, PartialEq, Eq)]
pub struct AnnouncePeer {
    pub transaction_id: u16,
    pub sender_id: raw::Hash,
    pub info_hash: raw::Hash,
    pub implied_port: Option<bool>,
    pub port: u16,
    pub token: Vec<u8>,
}

/// Model of an `announce_peer` query.
pub struct AnnouncePeerV {
    pub transaction_id: u16,
    pub sender_id: Seq<u8>,
    pub info_hash: Seq<u8>,
    pub implied_port: Option<bool>,
    pub port: u16,
    pub token: Seq<u8>,
}

impl View for AnnouncePeer {
    type V = AnnouncePeerV;

    open spec fn view(&self) -> AnnouncePeerV {
        AnnouncePeerV {
            transaction_id: self.transaction_id,
            sender_id: self.sender_id@,
            info_hash: self.info_hash@,
            implied_port: self.implied_port,
            port: self.port,
            token: self.token@,
        }
    }
}

/// The raw message an `announce_peer` query maps to.
pub open spec fn announce_peer_raw(p: AnnouncePeerV) -> raw::MessageV {
    raw::MessageV {
        transaction_id: p.transaction_id,
        msg_type: MessageType::Query,
        query_type: Some(QueryType::AnnouncePeer),
        query_args: Some(
            QueryArgsV {
                sender_id: p.sender_id,
                target: None,
                info_hash: Some(p.info_hash),
                implied_port: p.implied_port,
                port: Some(p.port),
                token: Some(p.token),
            },
        ),
        response: None,
        error: None,
    }
}

/// Reading of an `announce_peer` query from a raw message: `a` and its
/// `info_hash`, `port` and `token` are required; `implied_port` is
/// optional.
pub open spec fn sd_announce_peer(rm: raw::MessageV) -> Result<AnnouncePeerV, DecodeErrorV> {
    match rm.query_args {
        Some(a) => match a.info_hash {
            Some(h) => match a.port {
                Some(p) => match a.token {
                    Some(tk) => Ok(
                        AnnouncePeerV {
                            transaction_id: rm.transaction_id,
                            sender_id: a.sender_id,
                            info_hash: h,
                            implied_port: a.implied_port,
                            port: p,
                            token: tk,
                        },
                    ),
                    None => Err(missing_v("token"@)),
                },
                None => Err(missing_v("port"@)),
            },
            None => Err(missing_v("info_hash"@)),
        },
        None => Err(missing_v("a"@)),
    }
}

impl AnnouncePeer {
    /// The query's canonical wire bytes.
    pub fn encode(self) -> (r: Vec<u8>)
        ensures
            r@ == raw::spec_encode(announce_peer_raw(self@)),
    {
        let rm = raw::Message {
            transaction_id: self.transaction_id,
            msg_type: MessageType::Query,
            query_type: Some(QueryType::AnnouncePeer),
            query_args: Some(
                QueryArgs {
                    sender_id: self.sender_id,
                    target: None,
                    info_hash: Some(self.info_hash),
                    implied_port: self.implied_port,
                    port: Some(self.port),
                    token: Some(self.token),
                },
            ),
            response: None,
            error: None,
        };
        rm.encode()
    }

    /// The query read out of a raw message.
    fn from_raw_msg(rm: raw::Message) -> (r: Result<AnnouncePeer, DecodeError>)
        ensures
            match r {
                Ok(p) => sd_announce_peer(rm@) == Ok::<AnnouncePeerV, DecodeErrorV>(p@),
                Err(e) => sd_announce_peer(rm@) == Err::<AnnouncePeerV, DecodeErrorV>(e@),
            },
    {
        match rm.query_args {
            Some(a) => match a.info_hash {
                Some(h) => match a.port {
                    Some(p) => match a.token {
                        Some(tk) => Ok(
                            AnnouncePeer {
                                transaction_id: rm.transaction_id,
                                sender_id: a.sender_id,
                                info_hash: h,
                                implied_port: a.implied_port,
                                port: p,
                                token: tk,
                            },
                        ),
                        None => Err(DecodeError::missing("token")),
                    },
                    None => Err(DecodeError::missing("port")),
                },
                None => Err(DecodeError::missing("info_hash")),
            },
            None => Err(DecodeError::missing("a")),
        }
    }
}

/// An error message: a numeric code and a human-readable text.
#[derive(Clone, Debug, PartialEq, Eq)]
pub struct Error {
    pub transaction_id: u16,
    pub code: i64,
    pub message: String,
}

/// Model of an error message.
pub struct ErrorMsgV {
    pub transaction_id: u16,
    pub code: int,
    pub message: Seq<char>,
}

impl View for Error {
    type V = ErrorMsgV;

    open spec fn view(&self) -> ErrorMsgV {
        ErrorMsgV {
            transaction_id: self.transaction_id,
            code: self.code as int,
            message: self.message@,
        }
    }
}

/// The raw message an error maps to.
pub open spec fn error_raw(p: ErrorMsgV) -> raw::MessageV {
    raw::MessageV {
        transaction_id: p.transaction_id,
        msg_type: MessageType::Error,
        query_type: None,
        query_args: None,
        response: None,
        error: Some(raw::ErrorV { code: p.code, message: p.message }),
    }
}

/// Reading of an error from a raw message: its `e` payload is
/// required.
pub open spec fn sd_error_msg(rm: raw::MessageV) -> Result<ErrorMsgV, DecodeErrorV> {
    match rm.error {
        Some(e) => Ok(
            ErrorMsgV { transaction_id: rm.transaction_id, code: e.code, message: e.message },
        ),
        None => Err(missing_v("e"@)),
    }
}

impl Error {
    /// The message's canonical wire bytes.
    pub fn encode(self) -> (r: Vec<u8>)
        ensures
            r@ == raw::spec_encode(error_raw(self@)),
    {
        let rm = raw::Message {
            transaction_id: self.transaction_id,
            msg_type: MessageType::Error,
            query_type: None,
            query_args: None,
            response: None,
            error: Some(raw::Error { code: self.code, message: self.message }),
        };
        rm.encode()
    }

    /// The message read out of a raw message.
    fn from_raw_msg(rm: raw::Message) -> (r: Result<Error, DecodeError>)
        ensures
            match r {
                Ok(p) => sd_error_msg(rm@) == Ok::<ErrorMsgV, DecodeErrorV>(p@),
                Err(e) => sd_error_msg(rm@) == Err::<ErrorMsgV, DecodeErrorV>(e@),
            },
    {
        match rm.error {
            Some(e) => Ok(
                Error { transaction_id: rm.transaction_id, code: e.code, message: e.message },
            ),
            None => Err(DecodeError::missing("e")),
        }
    }
}

/// A response message: the responder, and whichever of a node list, a
/// peer list and a token it returns.
#[derive(Clone, Debug, PartialEq, Eq)]
pub struct Response {
    pub transaction_id: u16,
    pub sender_id: raw::Hash,
    pub nodes: Option<Vec<Node>>,
    pub values: Option<Vec<raw::CompactAddress>>,
    pub token: Option<Vec<u8>>,
}

/// Model of a response message.
pub struct ResponseMsgV {
    pub transaction_id: u16,
    pub sender_id: Seq<u8>,
    pub nodes: Option<Seq<raw::NodeV>>,
    pub values: Option<Seq<raw::AddrV>>,
    pub token: Option<Seq<u8>>,
}

impl View for Response {
    type V = ResponseMsgV;

    open spec fn view(&self) -> ResponseMsgV {
        ResponseMsgV {
            transaction_id: self.transaction_id,
            sender_id: self.sender_id@,
            nodes: raw::opt_nodes_view(self.nodes),
            values: raw::opt_addrs_view(self.values),
            token: raw::opt_bytes_view(self.token),
        }
    }
}

/// The raw message a response maps to.
pub open spec fn response_raw(p: ResponseMsgV) -> raw::MessageV {
    raw::MessageV {
        transaction_id: p.transaction_id,
        msg_type: MessageType::Response,
        query_type: None,
        query_args: None,
        response: Some(
            raw::ResponseV {
                sender_id: p.sender_id,
                nodes: p.nodes,
                values: p.values,
                token: p.token,
            },
        ),
        error: None,
    }
}

/// Reading of a response from a raw message: its `r` payload is
/// required.
pub open spec fn sd_response_msg(rm: raw::MessageV) -> Result<ResponseMsgV, DecodeErrorV> {
    match rm.response {
        Some(r) => Ok(
            ResponseMsgV {
                transaction_id: rm.transaction_id,
                sender_id: r.sender_id,
                nodes: r.nodes,
                values: r.values,
                token: r.token,
            },
        ),
        None => Err(missing_v("r"@)),
    }
}

impl Response {
    /// The message's canonical wire bytes.
    pub fn encode(self) -> (r: Vec<u8>)
        ensures
            r@ == raw::spec_encode(response_raw(self@)),
    {
        let rm = raw::Message {
            transaction_id: self.transaction_id,
            msg_type: MessageType::Response,
            query_type: None,
            query_args: None,
            response: Some(
                raw::Response {
                    sender_id: self.sender_id,
                    nodes: self.nodes,
                    values: self.values,
                    token: self.token,
                },
            ),
            error: None,
        };
        rm.encode()
    }

    /// The message read out of a raw message.
    fn from_raw_msg(rm: raw::Message) -> (r: Result<Response, DecodeError>)
        ensures
            match r {
                Ok(p) => sd_response_msg(rm@) == Ok::<ResponseMsgV, DecodeErrorV>(p@),
                Err(e) => sd_response_msg(rm@) == Err::<ResponseMsgV, DecodeErrorV>(e@),
            },
    {
        match rm.response {
            Some(r) => Ok(
                Response {
                    transaction_id: rm.transaction_id,
                    sender_id: r.sender_id,
                    nodes: r.nodes,
                    values: r.values,
                    token: r.token,
                },
            ),
            None => Err(DecodeError::missing("r")),
        }
    }
}

/// A typed KRPC message: one of the four query kinds, a response, or
/// an error.
#[derive(Clone, Debug, PartialEq, Eq)]
pub enum Message {
    Ping(Ping),
    FindNode(FindNode),
    GetPeers(GetPeers),
    AnnouncePeer(AnnouncePeer),
    Response(Response),
    Error(Error),
}

/// Model of a typed message.
pub enum MessageV {
    Ping(PingV),
    FindNode(FindNodeV),
    GetPeers(GetPeersV),
    AnnouncePeer(AnnouncePeerV),
    Response(ResponseMsgV),
    Error(ErrorMsgV),
}

impl View for Message {
    type V = MessageV;

    open spec fn view(&self) -> MessageV {
        match self {
            Message::Ping(p) => MessageV::Ping(p@),
            Message::FindNode(p) => MessageV::FindNode(p@),
            Message::GetPeers(p) => MessageV::GetPeers(p@),
            Message::AnnouncePeer(p) => MessageV::AnnouncePeer(p@),
            Message::Response(p) => MessageV::Response(p@),
            Message::Error(p) => MessageV::Error(p@),
        }
    }
}

/// The raw message a typed message maps to.
pub open spec fn message_raw(m: MessageV) -> raw::MessageV {
    match m {
        MessageV::Ping(p) => ping_raw(p),
        MessageV::FindNode(p) => find_node_raw(p),
        MessageV::GetPeers(p) => get_peers_raw(p),
        MessageV::AnnouncePeer(p) => announce_peer_raw(p),
        MessageV::Response(p) => response_raw(p),
        MessageV::Error(p) => error_raw(p),
    }
}

/// What encoding a typed message yields.
pub open spec fn spec_encode_message(m: MessageV) -> Seq<u8> {
    raw::spec_encode(message_raw(m))
}

/// Dispatch of a decoded raw message on its class and query kind, each
/// kind enforcing its own required fields.
pub open spec fn sd_dispatch(rm: raw::MessageV) -> Result<MessageV, DecodeErrorV> {
    match rm.msg_type {
        MessageType::Query => match rm.query_type {
            Some(qt) => match qt {
                QueryType::Ping => match sd_ping(rm) {
                    Ok(p) => Ok(MessageV::Ping(p)),
                    Err(e) => Err(e),
                },
                QueryType::FindNode => match sd_find_node(rm) {
                    Ok(p) => Ok(MessageV::FindNode(p)),
                    Err(e) => Err(e),
                },
                QueryType::GetPeers => match sd_get_peers(rm) {
                    Ok(p) => Ok(MessageV::GetPeers(p)),
                    Err(e) => Err(e),
                },
                QueryType::AnnouncePeer => match sd_announce_peer(rm) {
                    Ok(p) => Ok(MessageV::AnnouncePeer(p)),
                    Err(e) => Err(e),
                },
            },
            None => Err(missing_v("q"@)),
        },
        MessageType::Response => match sd_response_msg(rm) {
            Ok(p) => Ok(MessageV::Response(p)),
            Err(e) => Err(e),
        },
        MessageType::Error => match sd_error_msg(rm) {
            Ok(p) => Ok(MessageV::Error(p)),
            Err(e) => Err(e),
        },
    }
}

/// What decoding a byte string into a typed message yields.
pub open spec fn spec_decode_message(s: Seq<u8>) -> Result<MessageV, DecodeErrorV> {
    match raw::spec_decode(s) {
        Ok(rm) => sd_dispatch(rm),
        Err(e) => Err(e),
    }
}

impl Message {
    /// Reader of a typed message from its wire bytes.  Succeeds
    /// exactly when [`spec_decode_message`] does, and returns exactly
    /// its message or its error.
    pub fn decode(bytes: &[u8]) -> (r: Result<Message, DecodeError>)
        ensures
            match r {
                Ok(m) => spec_decode_message(bytes@) == Ok::<MessageV, DecodeErrorV>(m@),
                Err(e) => spec_decode_message(bytes@) == Err::<MessageV, DecodeErrorV>(e@),
            },
    {
        let rm = match raw::Message::decode(bytes) {
            Ok(rm) => rm,
            Err(e) => {
                return Err(e);
            },
        };
        match rm.msg_type {
            MessageType::Query => {
                let qt = match rm.query_type {
                    Some(qt) => qt,
                    None => {
                        return Err(DecodeError::missing("q"));
                    },
                };
                match qt {
                    QueryType::Ping => match Ping::from_raw_msg(rm) {
                        Ok(p) => Ok(Message::Ping(p)),
                        Err(e) => Err(e),
                    },
                    QueryType::FindNode => match FindNode::from_raw_msg(rm) {
                        Ok(p) => Ok(Message::FindNode(p)),
                        Err(e) => Err(e),
                    },
                    QueryType::GetPeers => match GetPeers::from_raw_msg(rm) {
                        Ok(p) => Ok(Message::GetPeers(p)),
                        Err(e) => Err(e),
                    },
                    QueryType::AnnouncePeer => match AnnouncePeer::from_raw_msg(rm) {
                        Ok(p) => Ok(Message::AnnouncePeer(p)),
                        Err(e) => Err(e),
                    },
                }
            },
            MessageType::Response => match Response::from_raw_msg(rm) {
                Ok(p) => Ok(Message::Response(p)),
                Err(e) => Err(e),
            },
            MessageType::Error => match Error::from_raw_msg(rm) {
                Ok(p) => Ok(Message::Error(p)),
                Err(e) => Err(e),
            },
        }
    }

    /// Writer of the message's canonical wire bytes.
    pub fn encode(self) -> (r: Vec<u8>)
        ensures
            r@ == spec_encode_message(self@),
    {
        match self {
            Message::Ping(p) => p.encode(),
            Message::FindNode(p) => p.encode(),
            Message::GetPeers(p) => p.encode(),
            Message::AnnouncePeer(p) => p.encode(),
            Message::Response(p) => p.encode(),
            Message::Error(p) => p.encode(),
        }
    }
}

/// Structural validity of a typed message model: hashes are 20 bytes,
/// nodes and addresses have their fixed widths, the error code fits
/// the wire integer.  The model of every executable [`Message`] value
/// satisfies it.
pub open spec fn wf_message(m: MessageV) -> bool {
    match m {
        MessageV::Ping(p) => p.sender_id.len() == 20,
        MessageV::FindNode(p) => p.sender_id.len() == 20 && p.target.len() == 20,
        MessageV::GetPeers(p) => p.sender_id.len() == 20 && p.info_hash.len() == 20,
        MessageV::AnnouncePeer(p) => p.sender_id.len() == 20 && p.info_hash.len() == 20,
        MessageV::Response(p) => wf_resp(
            raw::ResponseV {
                sender_id: p.sender_id,
                nodes: p.nodes,
                values: p.values,
                token: p.token,
            },
        ),
        MessageV::Error(p) => i64::MIN <= p.code <= i64::MAX,
    }
}

/// Round-trip identity: decoding what a well-formed message model
/// encodes to gives the model back.
pub proof fn lemma_message_round_trip(m: MessageV)
    requires
        wf_message(m),
    ensures
        spec_decode_message(spec_encode_message(m)) == Ok::<MessageV, DecodeErrorV>(m),
{
    raw::lemma_decode_of_encode(message_raw(m));
}

/// The model of every executable message value is well formed.
pub proof fn lemma_message_view_wf(m: Message)
    ensures
        wf_message(m@),
{
    broadcast use vstd::array::group_array_axioms;

    match m {
        Message::Response(p) => {
            match p.nodes {
                Some(ns) => {
                    assert forall|i: int| 0 <= i < raw::nodes_view(ns@).len() implies raw::wf_node(
                        #[trigger] raw::nodes_view(ns@)[i],
                    ) by {
                        assert(raw::nodes_view(ns@)[i] == ns@[i]@);
                    }
                },
                None => {},
            }
            match p.values {
                Some(vs) => {
                    assert forall|i: int|
                        0 <= i < raw::addrs_view(vs@).len() implies (#[trigger] raw::addrs_view(
                        vs@,
                    )[i]).ip.len() == 4 by {
                        assert(raw::addrs_view(vs@)[i] == vs@[i]@);
                    }
                },
                None => {},
            }
        },
        _ => {},
    }
}

/// Round-trip identity for every executable message value: decoding
/// its encoding gives its model back.
pub proof fn lemma_message_value_round_trip(m: Message)
    ensures
        spec_decode_message(spec_encode_message(m@)) == Ok::<MessageV, DecodeErrorV>(m@),
{
    lemma_message_view_wf(m);
    lemma_message_round_trip(m@);
}


/// Every typed message a byte string decodes to is well formed.
pub proof fn lemma_decode_message_wf(s: Seq<u8>, m: MessageV)
    requires
        spec_decode_message(s) == Ok::<MessageV, DecodeErrorV>(m),
    ensures
        wf_message(m),
{
    match raw::spec_decode(s) {
        Ok(rm) => {
            raw::lemma_decode_wf(s, rm);
        },
        Err(e) => {},
    }
}

/// Encode-after-decode identity: a decoded message re-encodes to
/// canonical bytes that decode to the same message.  (The bytes
/// themselves may differ from the input, which can carry unknown keys
/// and non-canonical key order.)
pub proof fn lemma_reencode_round_trip(s: Seq<u8>, m: MessageV)
    requires
        spec_decode_message(s) == Ok::<MessageV, DecodeErrorV>(m),
    ensures
        spec_decode_message(spec_encode_message(m)) == Ok::<MessageV, DecodeErrorV>(m),
{
    lemma_decode_message_wf(s, m);
    lemma_message_round_trip(m);
}

} // verus!
