//! Typed-message checks: byte-exact encoding, round trips, required
//! fields, enumeration validation, unknown-key tolerance, and the
//! primitive fixed-width codecs.
use krpc_codec::raw;
use krpc_codec::raw::{CompactAddress, DecodeError, Node};
use krpc_codec::{Error, FindNode, Message, Ping};

fn sender() -> raw::Hash {
    b"abcdefghij0123456789".into()
}

fn target() -> raw::Hash {
    b"mnopqrstuvwxyz123456".into()
}

#[test]
fn ping_byte_exact() {
    let bytes = Ping::new(24929, sender()).encode();
    assert_eq!(bytes, b"d1:ad2:id20:abcdefghij0123456789e1:q4:ping1:t2:aa1:y1:qe".as_slice());
}

#[test]
fn find_node_byte_exact() {
    let bytes = FindNode::new(24929, sender(), target()).encode();
    assert_eq!(
        bytes,
        b"d1:ad2:id20:abcdefghij01234567896:target20:mnopqrstuvwxyz123456e1:q9:find_node1:t2:aa1:y1:qe".as_slice()
    );
}

#[test]
fn error_byte_exact() {
    let e = Error { transaction_id: 24929, code: 201, message: "A Generic Error Ocurred".to_string() };
    assert_eq!(e.encode(), b"d1:eli201e23:A Generic Error Ocurrede1:t2:aa1:y1:ee".as_slice());
}

fn round_trips(bytes: &[u8]) {
    let m = Message::decode(bytes).unwrap();
    assert_eq!(m.encode(), bytes);
}

#[test]
fn message_round_trips() {
    round_trips(b"d1:ad2:id20:abcdefghij0123456789e1:q4:ping1:t2:aa1:y1:qe");
    round_trips(
        b"d1:ad2:id20:abcdefghij01234567896:target20:mnopqrstuvwxyz123456e1:q9:find_node1:t2:aa1:y1:qe",
    );
    round_trips(
        b"d1:ad2:id20:abcdefghij01234567899:info_hash20:mnopqrstuvwxyz123456e1:q9:get_peers1:t2:aa1:y1:qe",
    );
    round_trips(
        b"d1:ad2:id20:abcdefghij012345678912:implied_porti1e9:info_hash20:mnopqrstuvwxyz1234564:porti6881e5:token8:aoeusnthe1:q13:announce_peer1:t2:aa1:y1:qe",
    );
    round_trips(
        b"d1:rd2:id20:abcdefghij01234567895:token8:aoeusnth6:valuesl6:ABCDaa6:EFGHaaee1:t2:aa1:y1:re",
    );
    round_trips(b"d1:eli201e23:A Generic Error Ocurrede1:t2:aa1:y1:ee");
}

#[test]
fn ping_scenario_fields() {
    let m = Message::decode(b"d1:ad2:id20:abcdefghij0123456789e1:q4:ping1:t2:aa1:y1:qe").unwrap();
    match m {
        Message::Ping(p) => {
            assert_eq!(p.transaction_id, 24929);
            assert_eq!(p.sender_id, sender());
        },
        _ => panic!("expected a ping"),
    }
}

#[test]
fn find_node_scenario_fields() {
    let m = Message::decode(
        b"d1:ad2:id20:abcdefghij01234567896:target20:mnopqrstuvwxyz123456e1:q9:find_node1:t2:aa1:y1:qe",
    )
    .unwrap();
    match m {
        Message::FindNode(p) => {
            assert_eq!(p.target, target());
        },
        _ => panic!("expected a find_node"),
    }
}

#[test]
fn error_scenario_fields() {
    let m = Message::decode(b"d1:eli201e23:A Generic Error Ocurrede1:t2:aa1:y1:ee").unwrap();
    match m {
        Message::Error(e) => {
            assert_eq!(e.code, 201);
            assert_eq!(e.message, "A Generic Error Ocurred");
        },
        _ => panic!("expected an error message"),
    }
}

#[test]
fn response_scenario_fields() {
    let m = Message::decode(
        b"d1:rd2:id20:abcdefghij01234567895:token8:aoeusnth6:valuesl6:ABCDaa6:EFGHaaee1:t2:aa1:y1:re",
    )
    .unwrap();
    match m {
        Message::Response(r) => {
            assert_eq!(
                r.values,
                Some(vec![
                    CompactAddress::new([65, 66, 67, 68], 24929),
                    CompactAddress::new([69, 70, 71, 72], 24929),
                ])
            );
            assert_eq!(r.token, Some(b"aoeusnth".to_vec()));
        },
        _ => panic!("expected a response"),
    }
}

fn missing_field_of(r: Result<Message, DecodeError>) -> &'static str {
    match r {
        Err(DecodeError::MissingField { field, .. }) => field,
        other => panic!("expected a missing-field error, got {:?}", other),
    }
}

#[test]
fn find_node_requires_target() {
    let r = Message::decode(b"d1:ad2:id20:abcdefghij0123456789e1:q9:find_node1:t2:aa1:y1:qe");
    assert_eq!(missing_field_of(r), "target");
}

#[test]
fn get_peers_requires_info_hash() {
    let r = Message::decode(b"d1:ad2:id20:abcdefghij0123456789e1:q9:get_peers1:t2:aa1:y1:qe");
    assert_eq!(missing_field_of(r), "info_hash");
}

#[test]
fn announce_peer_requires_port_and_token() {
    let no_port = Message::decode(
        b"d1:ad2:id20:abcdefghij01234567899:info_hash20:mnopqrstuvwxyz1234565:token8:aoeusnthe1:q13:announce_peer1:t2:aa1:y1:qe",
    );
    assert_eq!(missing_field_of(no_port), "port");
    let no_token = Message::decode(
        b"d1:ad2:id20:abcdefghij01234567899:info_hash20:mnopqrstuvwxyz1234564:porti6881ee1:q13:announce_peer1:t2:aa1:y1:qe",
    );
    assert_eq!(missing_field_of(no_token), "token");
}

#[test]
fn query_requires_query_name_and_args() {
    let no_q = Message::decode(b"d1:ad2:id20:abcdefghij0123456789e1:t2:aa1:y1:qe");
    assert_eq!(missing_field_of(no_q), "q");
    let no_a = Message::decode(b"d1:q4:ping1:t2:aa1:y1:qe");
    assert_eq!(missing_field_of(no_a), "a");
}

#[test]
fn envelope_requires_t_and_y() {
    let no_t = Message::decode(b"d1:eli201e2:hie1:y1:ee");
    assert_eq!(missing_field_of(no_t), "t");
    let no_y = Message::decode(b"d1:eli201e2:hie1:t2:aae");
    assert_eq!(missing_field_of(no_y), "y");
}

#[test]
fn response_class_requires_r() {
    let r = Message::decode(b"d1:t2:aa1:y1:re");
    assert_eq!(missing_field_of(r), "r");
}

#[test]
fn error_class_requires_e() {
    let r = Message::decode(b"d1:t2:aa1:y1:ee");
    assert_eq!(missing_field_of(r), "e");
}

#[test]
fn args_require_id() {
    let r = Message::decode(b"d1:ade1:q4:ping1:t2:aa1:y1:qe");
    match r {
        Err(DecodeError::MissingField { context, field }) => {
            assert_eq!(context, vec!["a"]);
            assert_eq!(field, "id");
        },
        other => panic!("expected a missing-field error, got {:?}", other),
    }
}

fn is_malformed(r: Result<Message, DecodeError>) -> bool {
    matches!(r, Err(DecodeError::Malformed(_)))
}

#[test]
fn unknown_class_is_malformed() {
    assert!(is_malformed(Message::decode(b"d1:t2:aa1:y1:xe")));
    assert!(is_malformed(Message::decode(b"d1:t2:aa1:y2:qqe")));
}

#[test]
fn unknown_query_name_is_malformed() {
    assert!(is_malformed(Message::decode(
        b"d1:ad2:id20:abcdefghij0123456789e1:q4:pong1:t2:aa1:y1:qe"
    )));
}

#[test]
fn unknown_keys_are_ignored() {
    let with_extra =
        Message::decode(b"d1:ad2:id20:abcdefghij0123456789e1:q4:ping1:t2:aa1:y1:q1:z3:xyze")
            .unwrap();
    let without =
        Message::decode(b"d1:ad2:id20:abcdefghij0123456789e1:q4:ping1:t2:aa1:y1:qe").unwrap();
    assert_eq!(with_extra, without);
}

#[test]
fn top_level_must_be_dictionary() {
    assert!(is_malformed(Message::decode(b"i5e")));
    assert!(is_malformed(Message::decode(b"l1:ae")));
    assert!(is_malformed(Message::decode(b"4:ping")));
}

#[test]
fn invalid_bencode_is_malformed() {
    assert!(is_malformed(Message::decode(b"")));
    assert!(is_malformed(Message::decode(b"d1:t2:aa1:y1:q")));
    assert!(is_malformed(Message::decode(b"xyz")));
    // trailing bytes after the dictionary
    assert!(is_malformed(Message::decode(b"d1:t2:aa1:y1:e1:eli0e0:eex")));
    // non-canonical integers are refused
    assert!(is_malformed(Message::decode(
        b"d1:ad2:id20:abcdefghij01234567894:porti07ee1:q4:ping1:t2:aa1:y1:qe"
    )));
    assert!(is_malformed(Message::decode(
        b"d1:ad2:id20:abcdefghij01234567894:porti-0ee1:q4:ping1:t2:aa1:y1:qe"
    )));
}

#[test]
fn port_out_of_range_is_malformed() {
    assert!(is_malformed(Message::decode(
        b"d1:ad2:id20:abcdefghij012345678912:implied_porti1e9:info_hash20:mnopqrstuvwxyz1234564:porti70000e5:token8:aoeusnthe1:q13:announce_peer1:t2:aa1:y1:qe"
    )));
}

#[test]
fn error_message_text_is_decoded_as_utf8() {
    // "caf\u{e9}" carries a two-byte UTF-8 character on the wire
    let bytes = b"d1:eli203e5:caf\xc3\xa9e1:t2:aa1:y1:ee";
    let m = Message::decode(bytes).unwrap();
    match m {
        Message::Error(e) => {
            assert_eq!(e.message, "caf\u{e9}");
            assert_eq!(e.message.chars().count(), 4);
        },
        _ => panic!("expected an error message"),
    }
}

#[test]
fn error_message_must_be_utf8() {
    assert!(is_malformed(Message::decode(b"d1:eli203e2:\xff\xfee1:t2:aa1:y1:ee")));
}

#[test]
fn error_code_extremes_round_trip() {
    let min = Error {
        transaction_id: 1,
        code: i64::MIN,
        message: String::new(),
    };
    let bytes = min.encode();
    assert_eq!(bytes, b"d1:eli-9223372036854775808e0:e1:t2:\x00\x011:y1:ee".as_slice());
    round_trips(&bytes);
    let max = Error { transaction_id: 65535, code: i64::MAX, message: String::new() };
    round_trips(&max.encode());
}

#[test]
fn hash_decode_length() {
    assert!(raw::Hash::decode(b"").is_err());
    assert!(raw::Hash::decode(b"abcdefghij012345678").is_err());
    assert!(raw::Hash::decode(b"abcdefghij01234567890").is_err());
    let h = raw::Hash::decode(b"abcdefghij0123456789").unwrap();
    assert_eq!(h, sender());
    assert_eq!(h.encode(), b"abcdefghij0123456789".to_vec());
}

#[test]
fn compact_address_decode_length() {
    assert!(CompactAddress::decode(b"ABCDa").is_err());
    assert!(CompactAddress::decode(b"ABCDaaa").is_err());
    let a = CompactAddress::decode(b"ABCDaa").unwrap();
    assert_eq!(a, CompactAddress::new([65, 66, 67, 68], 24929));
    assert_eq!(a.encode(), b"ABCDaa".to_vec());
}

#[test]
fn node_decode_length() {
    assert!(Node::decode(b"mnopqrstuvwxyz123456ABCDa").is_err());
    assert!(Node::decode(b"mnopqrstuvwxyz123456ABCDaaa").is_err());
    let n = Node::decode(b"mnopqrstuvwxyz123456ABCDaa").unwrap();
    assert_eq!(n, Node::new(target(), CompactAddress::new([65, 66, 67, 68], 24929)));
    assert_eq!(n.encode(), b"mnopqrstuvwxyz123456ABCDaa".to_vec());
}

#[test]
fn node_list_length_must_divide() {
    assert!(raw::decode_node_list(b"mnopqrstuvwxyz123456ABCDaaextra").is_err());
    let ns = raw::decode_node_list(b"mnopqrstuvwxyz123456ABCDaa11111111111111111111EFGHaa")
        .unwrap();
    assert_eq!(ns.len(), 2);
    assert_eq!(ns[0].id, target());
    assert_eq!(ns[1].addr, CompactAddress::new([69, 70, 71, 72], 24929));
    assert_eq!(
        raw::encode_node_list(&ns),
        b"mnopqrstuvwxyz123456ABCDaa11111111111111111111EFGHaa".to_vec()
    );
    assert_eq!(raw::decode_node_list(b"").unwrap(), vec![]);
}

#[test]
fn address_list_length_must_divide() {
    assert!(raw::decode_address_list(b"ABCDaaE").is_err());
    let vs = raw::decode_address_list(b"ABCDaaEFGHaa").unwrap();
    assert_eq!(
        vs,
        vec![
            CompactAddress::new([65, 66, 67, 68], 24929),
            CompactAddress::new([69, 70, 71, 72], 24929),
        ]
    );
    assert_eq!(raw::encode_address_list(&vs), b"ABCDaaEFGHaa".to_vec());
}

#[test]
fn values_members_must_be_six_bytes() {
    let r = Message::decode(
        b"d1:rd2:id20:abcdefghij01234567896:valuesl5:ABCDaee1:t2:aa1:y1:re",
    );
    assert!(is_malformed(r));
}

#[test]
fn nodes_length_must_divide_in_message() {
    let r = Message::decode(
        b"d1:rd2:id20:abcdefghij01234567895:nodes5:ABCDae1:t2:aa1:y1:re",
    );
    assert!(is_malformed(r));
}

#[test]
fn nesting_deeper_than_the_limit_is_refused() {
    // a well-formed value nested ten lists deep under an unknown key
    let bytes = b"d1:t2:aa1:y1:e1:eli0e0:e1:zlllllllllli1eeeeeeeeeee";
    assert!(is_malformed(Message::decode(bytes)));
}

#[test]
fn implied_port_is_one_exactly() {
    let m = Message::decode(
        b"d1:ad2:id20:abcdefghij012345678912:implied_porti2e9:info_hash20:mnopqrstuvwxyz1234564:porti6881e5:token8:aoeusnthe1:q13:announce_peer1:t2:aa1:y1:qe",
    )
    .unwrap();
    match m {
        Message::AnnouncePeer(a) => assert_eq!(a.implied_port, Some(false)),
        _ => panic!("expected an announce_peer"),
    }
}

#[test]
fn get_peers_byte_exact() {
    let q = krpc_codec::GetPeers {
        transaction_id: 24929,
        sender_id: sender(),
        info_hash: target(),
    };
    assert_eq!(
        q.encode(),
        b"d1:ad2:id20:abcdefghij01234567899:info_hash20:mnopqrstuvwxyz123456e1:q9:get_peers1:t2:aa1:y1:qe".as_slice()
    );
}

#[test]
fn announce_peer_byte_exact() {
    let q = krpc_codec::AnnouncePeer {
        transaction_id: 24929,
        sender_id: sender(),
        info_hash: target(),
        implied_port: Some(true),
        port: 6881,
        token: b"aoeusnth".to_vec(),
    };
    assert_eq!(
        q.encode(),
        b"d1:ad2:id20:abcdefghij012345678912:implied_porti1e9:info_hash20:mnopqrstuvwxyz1234564:porti6881e5:token8:aoeusnthe1:q13:announce_peer1:t2:aa1:y1:qe".as_slice()
    );
}

#[test]
fn response_byte_exact() {
    let r = krpc_codec::Response {
        transaction_id: 24929,
        sender_id: sender(),
        nodes: None,
        values: Some(vec![
            CompactAddress::new([65, 66, 67, 68], 24929),
            CompactAddress::new([69, 70, 71, 72], 24929),
        ]),
        token: Some(b"aoeusnth".to_vec()),
    };
    assert_eq!(
        r.encode(),
        b"d1:rd2:id20:abcdefghij01234567895:token8:aoeusnth6:valuesl6:ABCDaa6:EFGHaaee1:t2:aa1:y1:re".as_slice()
    );
}

#[test]
fn nesting_at_the_limit_is_accepted() {
    // a value nested seven lists deep under an unknown key still fits
    let bytes = b"d1:t2:aa1:y1:e1:eli0e0:e1:zllllllli1eeeeeeeee";
    assert!(Message::decode(bytes).is_ok());
}

#[test]
fn empty_collections_round_trip() {
    // empty values list, empty token, empty nodes string
    round_trips(b"d1:rd2:id20:abcdefghij01234567895:token0:6:valueslee1:t2:aa1:y1:re");
    round_trips(b"d1:rd2:id20:abcdefghij01234567895:nodes0:e1:t2:aa1:y1:re");
}

#[test]
fn negative_error_code_round_trips() {
    round_trips(b"d1:eli-1e3:bade1:t2:aa1:y1:ee");
}
