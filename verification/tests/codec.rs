//! Bit-exact wire encodings and their round trips.

use kdht::bt_dht::BtDhtArg;
use kdht::bt_dht::BtDhtHash;
use kdht::bt_dht::BtDhtMessage;
use kdht::bt_dht::BtDhtNodeInfo;
use kdht::bt_dht::BtDhtQuery;
use kdht::bt_dht::BtDhtRes;
use kdht::kcodec::KCodec;
use kdht::krpc::KAddress;
use kdht::krpc::KError;
use kdht::krpc::KMessage;

#[test]
pub fn test_serde_ping_query() {
    let ping_query: BtDhtMessage = KMessage::Query {
        tid: b"aa".to_vec(),
        query: BtDhtQuery::Ping,
        arg: BtDhtArg::Ping {
            id: BtDhtHash::from(*b"0123456789abcdefghij"),
        },
    };

    let codec = KCodec::new();
    let ping_query_enc = codec.encode(&ping_query);

    assert_eq!(
        r#"d1:ad2:id20:0123456789abcdefghije1:q4:ping1:t2:aa1:y1:qe"#
            .as_bytes()
            .to_vec(),
        ping_query_enc
    );

    let ping_query_dec: BtDhtMessage = codec.decode(&ping_query_enc).unwrap();

    assert_eq!(ping_query_dec, ping_query);
}

#[test]
pub fn test_serde_ping_response() {
    let ping_response: BtDhtMessage = KMessage::Response {
        ip: Some(KAddress {
            ip: (1 << 24) | (2 << 16) | (3 << 8) | 4,
            port: 56789,
        }),
        tid: b"aa".to_vec(),
        res: BtDhtRes::Pong {
            id: BtDhtHash::from(*b"0123456789abcdefghij"),
        },
    };

    let codec = KCodec::new();
    let ping_response_enc = codec.encode(&ping_response);

    assert_eq!(
        vec![
            100, 50, 58, 105, 112, 54, 58, 1, 2, 3, 4, 221, 213, 49, 58, 114, 100, 50, 58, 105,
            100, 50, 48, 58, 48, 49, 50, 51, 52, 53, 54, 55, 56, 57, 97, 98, 99, 100, 101, 102,
            103, 104, 105, 106, 101, 49, 58, 116, 50, 58, 97, 97, 49, 58, 121, 49, 58, 114, 101
        ],
        ping_response_enc
    );

    let ping_response_dec: BtDhtMessage = codec.decode(&ping_response_enc).unwrap();

    assert_eq!(ping_response_dec, ping_response);
}

#[test]
pub fn test_serde_method_error() {
    let method_error: BtDhtMessage = KMessage::Error {
        ip: None,
        tid: b"55".to_vec(),
        code: KError::Method,
        message: b"Unsupported method".to_vec(),
    };

    let codec = KCodec::new();
    let method_error_enc = codec.encode(&method_error);

    assert_eq!(
        r#"d1:eli204e18:Unsupported methode1:t2:551:y1:ee"#
            .as_bytes()
            .to_vec(),
        method_error_enc
    );

    let method_error_dec: BtDhtMessage = codec.decode(&method_error_enc).unwrap();

    assert_eq!(method_error_dec, method_error);
}

#[test]
fn test_decode_rejects_garbage() {
    let codec = KCodec::new();
    assert_eq!(codec.decode(b"not bencode"), Err(KError::Protocol));
    assert_eq!(codec.decode(b""), Err(KError::Protocol));
    assert_eq!(codec.decode(b"d1:ad2:id3:abce1:q4:ping1:t2:aa1:y1:qe"), Err(KError::Protocol));
}

#[test]
fn test_find_node_roundtrip() {
    let codec = KCodec::new();
    let msg: BtDhtMessage = KMessage::Response {
        ip: None,
        tid: b"xy".to_vec(),
        res: BtDhtRes::FindNode {
            id: BtDhtHash::from(*b"0123456789abcdefghij"),
            nodes: vec![
                BtDhtNodeInfo {
                    id: BtDhtHash::from([0x11u8; 20]),
                    addr: KAddress { ip: 0x7f000001, port: 6881 },
                },
                BtDhtNodeInfo {
                    id: BtDhtHash::from([0x22u8; 20]),
                    addr: KAddress { ip: 0x0a000001, port: 51413 },
                },
            ],
        },
    };
    let enc = codec.encode(&msg);
    assert_eq!(codec.decode(&enc).unwrap(), msg);
}

#[test]
fn test_announce_peer_roundtrip() {
    let codec = KCodec::new();
    let msg: BtDhtMessage = KMessage::Query {
        tid: b"zz".to_vec(),
        query: BtDhtQuery::AnnouncePeer,
        arg: BtDhtArg::AnnouncePeer {
            id: BtDhtHash::from([0x42u8; 20]),
            implied_port: true,
            info_hash: BtDhtHash::from([0x24u8; 20]),
            port: 6881,
            token: b"tok".to_vec(),
        },
    };
    let enc = codec.encode(&msg);
    assert_eq!(
        enc,
        b"d1:ad2:id20:\x42\x42\x42\x42\x42\x42\x42\x42\x42\x42\x42\x42\x42\x42\x42\x42\x42\x42\x42\x4212:implied_porti1e9:info_hash20:\x24\x24\x24\x24\x24\x24\x24\x24\x24\x24\x24\x24\x24\x24\x24\x24\x24\x24\x24\x244:porti6881e5:token3:toke1:q13:announce_peer1:t2:zz1:y1:qe"
            .to_vec()
    );
    assert_eq!(codec.decode(&enc).unwrap(), msg);
}

#[test]
fn test_nodes_info_chunks() {
    let nodes = vec![BtDhtNodeInfo {
        id: BtDhtHash::from(*b"0123456789abcdefghij"),
        addr: KAddress { ip: 0x01020304, port: 0xddd5 },
    }];
    let ser = kdht::nodes_info::serialize(&nodes);
    assert_eq!(ser.len(), 26);
    assert_eq!(&ser[..20], b"0123456789abcdefghij");
    assert_eq!(&ser[20..], &[1, 2, 3, 4, 0xdd, 0xd5]);
    assert_eq!(kdht::nodes_info::deserialize(&ser).unwrap(), nodes);
    assert_eq!(
        kdht::nodes_info::deserialize(&ser[..25]),
        Err(KError::Protocol)
    );
}
