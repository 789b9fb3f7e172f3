use vpncloud::addr::{Addr, AddrRange, NodeId, SockAddr};
use vpncloud::codec::{decode, encode, Message, WIRE_VERSION};

const MAGIC: u32 = 0x76706e01;

fn cd_addr(bytes: &[u8]) -> Addr {
    Addr { bytes: bytes.to_vec() }
}

#[test]
fn data_round_trip_is_identity() {
    let payload = vec![0u8, 1, 2, 3, 250, 255, 42];
    let frame = encode(MAGIC, &Message::Data { payload: payload.clone() });
    match decode(MAGIC, &frame).unwrap() {
        Message::Data { payload: p } => assert_eq!(p, payload),
        _ => panic!("wrong kind"),
    }
}

#[test]
fn empty_data_round_trip() {
    let frame = encode(MAGIC, &Message::Data { payload: vec![] });
    assert_eq!(frame.len(), 6);
    match decode(MAGIC, &frame).unwrap() {
        Message::Data { payload: p } => assert!(p.is_empty()),
        _ => panic!("wrong kind"),
    }
}

#[test]
fn peers_round_trip() {
    let peers = vec![
        SockAddr::V4 { ip: 0x0a000001, port: 3210 },
        SockAddr::V6 { ip_hi: 0xfe80000000000000, ip_lo: 0x1234, port: 65535 },
        SockAddr::V4 { ip: 0xffffffff, port: 0 },
    ];
    let frame = encode(MAGIC, &Message::Peers { peers: peers.clone() });
    match decode(MAGIC, &frame).unwrap() {
        Message::Peers { peers: p } => assert_eq!(p, peers),
        _ => panic!("wrong kind"),
    }
}

#[test]
fn init_round_trip() {
    let ranges = vec![
        AddrRange { base: cd_addr(&[10, 0, 0, 0]), prefix_len: 8 },
        AddrRange { base: cd_addr(&[0xfe, 0x80, 0, 0, 0, 0, 0, 0, 0, 0, 0, 0, 0, 0, 0, 0]), prefix_len: 10 },
    ];
    let node_id = NodeId { hi: 0x0123456789abcdef, lo: 0xfedcba9876543210 };
    let frame = encode(MAGIC, &Message::Init { stage: 0, node_id, ranges: ranges.clone() });
    match decode(MAGIC, &frame).unwrap() {
        Message::Init { stage, node_id: n, ranges: r } => {
            assert_eq!(stage, 0);
            assert_eq!(n, node_id);
            assert_eq!(r, ranges);
        },
        _ => panic!("wrong kind"),
    }
}

#[test]
fn close_round_trip() {
    let frame = encode(MAGIC, &Message::Close);
    assert_eq!(frame.len(), 6);
    match decode(MAGIC, &frame).unwrap() {
        Message::Close => {},
        _ => panic!("wrong kind"),
    }
}

#[test]
fn wire_layout_of_close() {
    let frame = encode(0x11223344, &Message::Close);
    assert_eq!(frame, vec![0x11, 0x22, 0x33, 0x44, WIRE_VERSION, 3]);
}

#[test]
fn rejects_wrong_magic() {
    let frame = encode(MAGIC, &Message::Close);
    assert!(decode(MAGIC + 1, &frame).is_err());
}

#[test]
fn rejects_wrong_version() {
    let mut frame = encode(MAGIC, &Message::Close);
    frame[4] = WIRE_VERSION + 1;
    assert!(decode(MAGIC, &frame).is_err());
}

#[test]
fn rejects_unknown_kind() {
    let mut frame = encode(MAGIC, &Message::Close);
    frame[5] = 9;
    assert!(decode(MAGIC, &frame).is_err());
}

#[test]
fn rejects_truncated_frame() {
    assert!(decode(MAGIC, &[]).is_err());
    let frame = encode(MAGIC, &Message::Peers {
        peers: vec![SockAddr::V4 { ip: 1, port: 2 }],
    });
    assert!(decode(MAGIC, &frame[..frame.len() - 1]).is_err());
}

#[test]
fn rejects_trailing_bytes_after_close() {
    let mut frame = encode(MAGIC, &Message::Close);
    frame.push(0);
    assert!(decode(MAGIC, &frame).is_err());
}

#[test]
fn rejects_inconsistent_peer_count() {
    let mut frame = encode(MAGIC, &Message::Peers {
        peers: vec![SockAddr::V4 { ip: 1, port: 2 }],
    });
    // claim two addresses while only one follows
    frame[7] = 2;
    assert!(decode(MAGIC, &frame).is_err());
}

#[test]
fn rejects_bad_range_width() {
    let node_id = NodeId { hi: 1, lo: 2 };
    let ranges = vec![AddrRange { base: cd_addr(&[10, 0, 0, 0]), prefix_len: 8 }];
    let mut frame = encode(MAGIC, &Message::Init { stage: 0, node_id, ranges });
    // the range width byte sits after stage (1), node id (16) and count (1)
    frame[24] = 0;
    assert!(decode(MAGIC, &frame).is_err());
}
