//! The wire codec: each datagram is four magic bytes, one version byte and a
//! body whose first byte names the message kind.  Data carries raw frame
//! bytes; Peers carries a count and socket addresses; Init carries the
//! handshake stage, the node id and the claimed ranges; Close is empty.
//! Decoding accepts exactly the frames this grammar admits and returns the
//! message that encodes back to the very same bytes.

use vstd::prelude::*;
use crate::addr::{Addr, AddrRange, NodeId, SockAddr};

verus! {

/// The protocol version carried in every frame.
pub const WIRE_VERSION: u8 = 1;

/// A message of the mesh protocol.
pub enum Message {
    Data { payload: Vec<u8> },
    Peers { peers: Vec<SockAddr> },
    Init { stage: u8, node_id: NodeId, ranges: Vec<AddrRange> },
    Close,
}

/// Why a datagram was rejected.
#[derive(Clone, Copy, PartialEq, Eq, Structural, Debug)]
pub enum CodecError {
    WrongMagic,
    WrongVersion,
    BadKind,
    Malformed,
}

impl Message {
    /// Encodable: list lengths fit their count fields and ranges are well
    /// formed.
    pub open spec fn wf(&self) -> bool {
        match *self {
            Message::Data { payload: _ } => true,
            Message::Peers { peers } => peers@.len() <= 0xffff,
            Message::Init { stage: _, node_id: _, ranges } => ranges@.len() <= 0xff
                && forall|k: int| 0 <= k < ranges@.len() ==> (#[trigger] ranges@[k]).wf(),
            Message::Close => true,
        }
    }
}

pub open spec fn u16_be(x: u16) -> Seq<u8> {
    seq![(x / 256) as u8, (x % 256) as u8]
}

pub open spec fn u32_be(x: u32) -> Seq<u8> {
    seq![
        (x / 0x1000000) as u8,
        (x / 0x10000 % 256) as u8,
        (x / 0x100 % 256) as u8,
        (x % 256) as u8,
    ]
}

pub open spec fn u64_be(x: u64) -> Seq<u8> {
    seq![
        (x / 0x100000000000000) as u8,
        (x / 0x1000000000000 % 256) as u8,
        (x / 0x10000000000 % 256) as u8,
        (x / 0x100000000 % 256) as u8,
        (x / 0x1000000 % 256) as u8,
        (x / 0x10000 % 256) as u8,
        (x / 0x100 % 256) as u8,
        (x % 256) as u8,
    ]
}

/// One socket address on the wire: a family tag, the address bytes and the
/// port.
pub open spec fn addr_bytes(a: SockAddr) -> Seq<u8> {
    match a {
        SockAddr::V4 { ip, port } => seq![4u8] + u32_be(ip) + u16_be(port),
        SockAddr::V6 { ip_hi, ip_lo, port } => seq![6u8] + u64_be(ip_hi) + u64_be(ip_lo)
            + u16_be(port),
    }
}

pub open spec fn peers_bytes(ps: Seq<SockAddr>) -> Seq<u8>
    decreases ps.len(),
{
    if ps.len() == 0 {
        Seq::empty()
    } else {
        addr_bytes(ps[0]) + peers_bytes(ps.skip(1))
    }
}

/// One claimed range on the wire: address width, address bytes, prefix
/// length.
pub open spec fn range_bytes(r: AddrRange) -> Seq<u8> {
    seq![r.base@.len() as u8] + r.base@ + seq![r.prefix_len]
}

pub open spec fn ranges_bytes(rs: Seq<AddrRange>) -> Seq<u8>
    decreases rs.len(),
{
    if rs.len() == 0 {
        Seq::empty()
    } else {
        range_bytes(rs[0]) + ranges_bytes(rs.skip(1))
    }
}

/// The body behind the version byte, first byte the kind.
pub open spec fn body_bytes(m: Message) -> Seq<u8> {
    match m {
        Message::Data { payload } => seq![0u8] + payload@,
        Message::Peers { peers } => seq![1u8] + u16_be(peers@.len() as u16) + peers_bytes(peers@),
        Message::Init { stage, node_id, ranges } => seq![2u8, stage] + u64_be(node_id.hi)
            + u64_be(node_id.lo) + seq![ranges@.len() as u8] + ranges_bytes(ranges@),
        Message::Close => seq![3u8],
    }
}

/// The whole frame.
pub open spec fn encode_bytes(magic: u32, m: Message) -> Seq<u8> {
    u32_be(magic) + seq![WIRE_VERSION] + body_bytes(m)
}

/// A socket-address item starts here: a known family tag with enough bytes
/// behind it.
pub open spec fn addr_head_ok(b: Seq<u8>) -> bool {
    b.len() >= 1 && ((b[0] == 4 && b.len() >= 7) || (b[0] == 6 && b.len() >= 19))
}

pub open spec fn addr_head_len(b: Seq<u8>) -> int {
    if b.len() >= 1 && b[0] == 4 {
        7
    } else {
        19
    }
}

pub open spec fn peers_items_ok(b: Seq<u8>, n: nat) -> bool
    decreases n,
{
    if n == 0 {
        b.len() == 0
    } else {
        addr_head_ok(b) && peers_items_ok(b.skip(addr_head_len(b)), (n - 1) as nat)
    }
}

/// A range item starts here: a width between 1 and 16, the address bytes,
/// and a prefix length that fits the width.
pub open spec fn range_head_ok(b: Seq<u8>) -> bool {
    b.len() >= 2 && 1 <= b[0] <= 16 && b.len() >= 2 + b[0] && b[1 + b[0] as int] <= 8 * (
    b[0] as int)
}

pub open spec fn range_head_len(b: Seq<u8>) -> int {
    2 + b[0] as int
}

pub open spec fn ranges_items_ok(b: Seq<u8>, n: nat) -> bool
    decreases n,
{
    if n == 0 {
        b.len() == 0
    } else {
        range_head_ok(b) && ranges_items_ok(b.skip(range_head_len(b)), (n - 1) as nat)
    }
}

pub open spec fn peers_section_ok(b: Seq<u8>) -> bool {
    b.len() >= 2 && peers_items_ok(b.skip(2), (b[0] * 256 + b[1]) as nat)
}

pub open spec fn init_section_ok(b: Seq<u8>) -> bool {
    b.len() >= 18 && ranges_items_ok(b.skip(18), b[17] as nat)
}

/// The frames that decoding accepts: right magic, right version, a known
/// kind, and a body consistent with that kind.
pub open spec fn frame_ok(magic: u32, b: Seq<u8>) -> bool {
    &&& b.len() >= 6
    &&& b.take(4) == u32_be(magic)
    &&& b[4] == WIRE_VERSION
    &&& {
        let k = b[5];
        let body = b.skip(6);
        ||| k == 0
        ||| (k == 1 && peers_section_ok(body))
        ||| (k == 2 && init_section_ok(body))
        ||| (k == 3 && body.len() == 0)
    }
}

/// Concatenation of byte strings is associative.
pub proof fn lemma_add_assoc(a: Seq<u8>, b: Seq<u8>, c: Seq<u8>)
    ensures
        (a + b) + c == a + (b + c),
{
    assert((a + b) + c =~= a + (b + c));
}

/// Appending one address to a peer list appends its bytes.
pub proof fn lemma_peers_bytes_push(s: Seq<SockAddr>, x: SockAddr)
    ensures
        peers_bytes(s.push(x)) == peers_bytes(s) + addr_bytes(x),
    decreases s.len(),
{
    if s.len() == 0 {
        let e = Seq::<SockAddr>::empty();
        assert(s.push(x).skip(1) =~= e);
        assert(s.push(x)[0] == x);
        assert(peers_bytes(e) == Seq::<u8>::empty());
        assert(peers_bytes(s.push(x)) == addr_bytes(x) + Seq::<u8>::empty());
        Seq::add_empty_right(addr_bytes(x), Seq::<u8>::empty());
        assert(peers_bytes(s) == Seq::<u8>::empty());
        Seq::add_empty_left(peers_bytes(s), addr_bytes(x));
    } else {
        assert(s.push(x).skip(1) =~= s.skip(1).push(x));
        lemma_peers_bytes_push(s.skip(1), x);
        assert(s.push(x)[0] == s[0]);
        assert(peers_bytes(s.push(x)) == addr_bytes(s[0]) + (peers_bytes(s.skip(1))
            + addr_bytes(x)));
        lemma_add_assoc(addr_bytes(s[0]), peers_bytes(s.skip(1)), addr_bytes(x));
    }
}

/// Appending one range to a range list appends its bytes.
pub proof fn lemma_ranges_bytes_push(s: Seq<AddrRange>, x: AddrRange)
    ensures
        ranges_bytes(s.push(x)) == ranges_bytes(s) + range_bytes(x),
    decreases s.len(),
{
    if s.len() == 0 {
        let e = Seq::<AddrRange>::empty();
        assert(s.push(x).skip(1) =~= e);
        assert(s.push(x)[0] == x);
        assert(ranges_bytes(e) == Seq::<u8>::empty());
        assert(ranges_bytes(s.push(x)) == range_bytes(x) + Seq::<u8>::empty());
        Seq::add_empty_right(range_bytes(x), Seq::<u8>::empty());
        assert(ranges_bytes(s) == Seq::<u8>::empty());
        Seq::add_empty_left(ranges_bytes(s), range_bytes(x));
    } else {
        assert(s.push(x).skip(1) =~= s.skip(1).push(x));
        lemma_ranges_bytes_push(s.skip(1), x);
        assert(s.push(x)[0] == s[0]);
        assert(ranges_bytes(s.push(x)) == range_bytes(s[0]) + (ranges_bytes(s.skip(1))
            + range_bytes(x)));
        lemma_add_assoc(range_bytes(s[0]), ranges_bytes(s.skip(1)), range_bytes(x));
    }
}

fn push_u16(v: &mut Vec<u8>, x: u16)
    ensures
        final(v)@ == old(v)@ + u16_be(x),
{
    v.push((x / 256) as u8);
    v.push((x % 256) as u8);
    proof {
        assert(v@ =~= old(v)@ + u16_be(x));
    }
}

fn push_u32(v: &mut Vec<u8>, x: u32)
    ensures
        final(v)@ == old(v)@ + u32_be(x),
{
    v.push((x / 0x1000000) as u8);
    v.push((x / 0x10000 % 256) as u8);
    v.push((x / 0x100 % 256) as u8);
    v.push((x % 256) as u8);
    proof {
        assert(v@ =~= old(v)@ + u32_be(x));
    }
}

fn push_u64(v: &mut Vec<u8>, x: u64)
    ensures
        final(v)@ == old(v)@ + u64_be(x),
{
    v.push((x / 0x100000000000000) as u8);
    v.push((x / 0x1000000000000 % 256) as u8);
    v.push((x / 0x10000000000 % 256) as u8);
    v.push((x / 0x100000000 % 256) as u8);
    v.push((x / 0x1000000 % 256) as u8);
    v.push((x / 0x10000 % 256) as u8);
    v.push((x / 0x100 % 256) as u8);
    v.push((x % 256) as u8);
    proof {
        assert(v@ =~= old(v)@ + u64_be(x));
    }
}

fn append_bytes(v: &mut Vec<u8>, b: &Vec<u8>)
    ensures
        final(v)@ == old(v)@ + b@,
{
    let n = b.len();
    let mut i: usize = 0;
    while i < n
        invariant
            n == b@.len(),
            0 <= i <= n,
            v@ == old(v)@ + b@.take(i as int),
        decreases n - i,
    {
        v.push(b[i]);
        proof {
            assert(v@ =~= old(v)@ + b@.take(i as int + 1));
        }
        i += 1;
    }
    proof {
        assert(b@.take(n as int) =~= b@);
    }
}

fn push_addr(v: &mut Vec<u8>, a: SockAddr)
    ensures
        final(v)@ == old(v)@ + addr_bytes(a),
{
    match a {
        SockAddr::V4 { ip, port } => {
            v.push(4);
            push_u32(v, ip);
            push_u16(v, port);
            proof {
                assert(v@ =~= old(v)@ + addr_bytes(a));
            }
        },
        SockAddr::V6 { ip_hi, ip_lo, port } => {
            v.push(6);
            push_u64(v, ip_hi);
            push_u64(v, ip_lo);
            push_u16(v, port);
            proof {
                assert(v@ =~= old(v)@ + addr_bytes(a));
            }
        },
    }
}

fn push_range(v: &mut Vec<u8>, r: &AddrRange)
    requires
        r.wf(),
    ensures
        final(v)@ == old(v)@ + range_bytes(*r),
{
    v.push(r.base.bytes.len() as u8);
    append_bytes(v, &r.base.bytes);
    v.push(r.prefix_len);
    proof {
        assert(v@ =~= old(v)@ + range_bytes(*r));
    }
}

/// Encodes a message into a fresh frame, exactly as `encode_bytes` states.
pub fn encode(magic: u32, msg: &Message) -> (out: Vec<u8>)
    requires
        msg.wf(),
    ensures
        out@ == encode_bytes(magic, *msg),
{
    let mut out: Vec<u8> = Vec::new();
    push_u32(&mut out, magic);
    out.push(WIRE_VERSION);
    let ghost head = out@;
    match msg {
        Message::Data { payload } => {
            out.push(0);
            append_bytes(&mut out, payload);
            proof {
                assert(out@ =~= encode_bytes(magic, *msg));
            }
        },
        Message::Peers { peers } => {
            out.push(1);
            push_u16(&mut out, peers.len() as u16);
            let ghost mid = out@;
            let n = peers.len();
            let mut i: usize = 0;
            while i < n
                invariant
                    n == peers@.len(),
                    0 <= i <= n,
                    out@ == mid + peers_bytes(peers@.take(i as int)),
                decreases n - i,
            {
                proof {
                    lemma_peers_bytes_push(peers@.take(i as int), peers@[i as int]);
                    assert(peers@.take(i as int + 1) =~= peers@.take(i as int).push(
                        peers@[i as int],
                    ));
                }
                push_addr(&mut out, peers[i]);
                proof {
                    assert(out@ =~= mid + peers_bytes(peers@.take(i as int + 1)));
                }
                i += 1;
            }
            proof {
                assert(peers@.take(n as int) =~= peers@);
                assert(out@ =~= encode_bytes(magic, *msg));
            }
        },
        Message::Init { stage, node_id, ranges } => {
            out.push(2);
            out.push(*stage);
            push_u64(&mut out, node_id.hi);
            push_u64(&mut out, node_id.lo);
            out.push(ranges.len() as u8);
            let ghost mid = out@;
            let n = ranges.len();
            let mut i: usize = 0;
            while i < n
                invariant
                    n == ranges@.len(),
                    0 <= i <= n,
                    forall|k: int| 0 <= k < n ==> (#[trigger] ranges@[k]).wf(),
                    out@ == mid + ranges_bytes(ranges@.take(i as int)),
                decreases n - i,
            {
                proof {
                    lemma_ranges_bytes_push(ranges@.take(i as int), ranges@[i as int]);
                    assert(ranges@.take(i as int + 1) =~= ranges@.take(i as int).push(
                        ranges@[i as int],
                    ));
                }
                push_range(&mut out, &ranges[i]);
                proof {
                    assert(out@ =~= mid + ranges_bytes(ranges@.take(i as int + 1)));
                }
                i += 1;
            }
            proof {
                assert(ranges@.take(n as int) =~= ranges@);
                assert(out@ =~= encode_bytes(magic, *msg));
            }
        },
        Message::Close => {
            out.push(3);
            proof {
                assert(out@ =~= encode_bytes(magic, *msg));
            }
        },
    }
    out
}

fn read_u16(b: &[u8], pos: usize) -> (x: u16)
    requires
        pos + 2 <= b@.len(),
    ensures
        u16_be(x) == b@.subrange(pos as int, pos as int + 2),
        x as int == b@[pos as int] * 256 + b@[pos as int + 1],
{
    let x = (b[pos] as u16) * 256 + (b[pos + 1] as u16);
    proof {
        assert(u16_be(x) =~= b@.subrange(pos as int, pos as int + 2));
    }
    x
}

#[verifier::rlimit(50)]
fn read_u32(b: &[u8], pos: usize) -> (x: u32)
    requires
        pos + 4 <= b@.len(),
    ensures
        u32_be(x) == b@.subrange(pos as int, pos as int + 4),
{
    let b0 = b[pos];
    let b1 = b[pos + 1];
    let b2 = b[pos + 2];
    let b3 = b[pos + 3];
    let x = (b0 as u32) * 0x1000000 + (b1 as u32) * 0x10000 + (b2 as u32) * 0x100 + (b3 as u32);
    proof {
        lemma_split_div(x as int, b0 as int, b1 * 0x10000 + b2 * 0x100 + b3, 0x1000000);
        lemma_split_div(x as int, b0 * 0x100 + b1, b2 * 0x100 + b3, 0x10000);
        lemma_split_div(x as int, b0 * 0x10000 + b1 * 0x100 + b2, b3 as int, 0x100);
        assert(u32_be(x) =~= b@.subrange(pos as int, pos as int + 4));
    }
    x
}

#[verifier::rlimit(100)]
fn read_u64(b: &[u8], pos: usize) -> (x: u64)
    requires
        pos + 8 <= b@.len(),
    ensures
        u64_be(x) == b@.subrange(pos as int, pos as int + 8),
{
    let b0 = b[pos];
    let b1 = b[pos + 1];
    let b2 = b[pos + 2];
    let b3 = b[pos + 3];
    let b4 = b[pos + 4];
    let b5 = b[pos + 5];
    let b6 = b[pos + 6];
    let b7 = b[pos + 7];
    let x = (b0 as u64) * 0x100000000000000 + (b1 as u64) * 0x1000000000000 + (b2 as u64)
        * 0x10000000000 + (b3 as u64) * 0x100000000 + (b4 as u64) * 0x1000000 + (b5 as u64)
        * 0x10000 + (b6 as u64) * 0x100 + (b7 as u64);
    proof {
        lemma_u64_byte(x as int, b0 as int, b1 as int, b2 as int, b3 as int, b4 as int, b5 as int,
            b6 as int, b7 as int);
        assert(u64_be(x) =~= b@.subrange(pos as int, pos as int + 8));
    }
    x
}

/// Each big-endian byte of an eight-byte value recovers the byte it was
/// built from.
proof fn lemma_u64_byte(x: int, b0: int, b1: int, b2: int, b3: int, b4: int, b5: int, b6: int, b7: int)
    requires
        0 <= b0 < 256 && 0 <= b1 < 256 && 0 <= b2 < 256 && 0 <= b3 < 256,
        0 <= b4 < 256 && 0 <= b5 < 256 && 0 <= b6 < 256 && 0 <= b7 < 256,
        x == b0 * 0x100000000000000 + b1 * 0x1000000000000 + b2 * 0x10000000000 + b3 * 0x100000000
            + b4 * 0x1000000 + b5 * 0x10000 + b6 * 0x100 + b7,
    ensures
        x / 0x100000000000000 == b0,
        x / 0x1000000000000 % 256 == b1,
        x / 0x10000000000 % 256 == b2,
        x / 0x100000000 % 256 == b3,
        x / 0x1000000 % 256 == b4,
        x / 0x10000 % 256 == b5,
        x / 0x100 % 256 == b6,
        x % 256 == b7,
{
    lemma_split_div(x, b0, b1 * 0x1000000000000 + b2 * 0x10000000000 + b3 * 0x100000000 + b4
        * 0x1000000 + b5 * 0x10000 + b6 * 0x100 + b7, 0x100000000000000);
    lemma_split_div(x, b0 * 256 + b1, b2 * 0x10000000000 + b3 * 0x100000000 + b4 * 0x1000000 + b5
        * 0x10000 + b6 * 0x100 + b7, 0x1000000000000);
    lemma_split_div(x, b0 * 0x10000 + b1 * 256 + b2, b3 * 0x100000000 + b4 * 0x1000000 + b5
        * 0x10000 + b6 * 0x100 + b7, 0x10000000000);
    lemma_split_div(x, b0 * 0x1000000 + b1 * 0x10000 + b2 * 256 + b3, b4 * 0x1000000 + b5 * 0x10000
        + b6 * 0x100 + b7, 0x100000000);
    lemma_split_div(x, b0 * 0x100000000 + b1 * 0x1000000 + b2 * 0x10000 + b3 * 256 + b4, b5
        * 0x10000 + b6 * 0x100 + b7, 0x1000000);
    lemma_split_div(x, b0 * 0x10000000000 + b1 * 0x100000000 + b2 * 0x1000000 + b3 * 0x10000 + b4
        * 256 + b5, b6 * 0x100 + b7, 0x10000);
    lemma_split_div(x, b0 * 0x1000000000000 + b1 * 0x10000000000 + b2 * 0x100000000 + b3 * 0x1000000
        + b4 * 0x10000 + b5 * 256 + b6, b7, 0x100);
}

/// If x == q * d + r with 0 <= r < d then x / d == q.
proof fn lemma_split_div(x: int, q: int, r: int, d: int)
    requires
        d > 0,
        0 <= r < d,
        x == q * d + r,
    ensures
        x / d == q,
{
    assert(x / d == q) by (nonlinear_arith)
        requires
            d > 0,
            0 <= r < d,
            x == q * d + r,
    ;
}

fn read_addr(b: &[u8], pos: usize) -> (r: Result<(SockAddr, usize), CodecError>)
    requires
        pos <= b@.len(),
    ensures
        match r {
            Ok(p) => addr_head_ok(b@.skip(pos as int)) && p.1 == pos + addr_head_len(
                b@.skip(pos as int),
            ) && p.1 <= b@.len() && b@.subrange(pos as int, p.1 as int) == addr_bytes(p.0),
            Err(_) => !addr_head_ok(b@.skip(pos as int)),
        },
{
    let n = b.len();
    if pos >= n {
        return Err(CodecError::Malformed);
    }
    let tag = b[pos];
    proof {
        assert(b@.skip(pos as int)[0] == b@[pos as int]);
        assert(b@.skip(pos as int).len() == n - pos);
    }
    if tag == 4 {
        if n - pos < 7 {
            return Err(CodecError::Malformed);
        }
        let ip = read_u32(b, pos + 1);
        let port = read_u16(b, pos + 5);
        let a = SockAddr::V4 { ip, port };
        proof {
            assert(b@.subrange(pos as int, pos as int + 7) =~= addr_bytes(a));
        }
        Ok((a, pos + 7))
    } else if tag == 6 {
        if n - pos < 19 {
            return Err(CodecError::Malformed);
        }
        let ip_hi = read_u64(b, pos + 1);
        let ip_lo = read_u64(b, pos + 9);
        let port = read_u16(b, pos + 17);
        let a = SockAddr::V6 { ip_hi, ip_lo, port };
        proof {
            assert(b@.subrange(pos as int, pos as int + 19) =~= addr_bytes(a));
        }
        Ok((a, pos + 19))
    } else {
        Err(CodecError::Malformed)
    }
}

fn read_range(b: &[u8], pos: usize) -> (r: Result<(AddrRange, usize), CodecError>)
    requires
        pos <= b@.len(),
    ensures
        match r {
            Ok(p) => range_head_ok(b@.skip(pos as int)) && p.1 == pos + range_head_len(
                b@.skip(pos as int),
            ) && p.1 <= b@.len() && b@.subrange(pos as int, p.1 as int) == range_bytes(p.0)
                && p.0.wf(),
            Err(_) => !range_head_ok(b@.skip(pos as int)),
        },
{
    let n = b.len();
    proof {
        assert(b@.skip(pos as int).len() == n - pos);
    }
    if n - pos < 2 {
        return Err(CodecError::Malformed);
    }
    let l = b[pos];
    proof {
        assert(b@.skip(pos as int)[0] == b@[pos as int]);
    }
    if l < 1 || l > 16 {
        return Err(CodecError::Malformed);
    }
    let lu = l as usize;
    if n - pos < 2 + lu {
        return Err(CodecError::Malformed);
    }
    let pl = b[pos + 1 + lu];
    proof {
        assert(b@.skip(pos as int)[1 + l as int] == b@[pos as int + 1 + l as int]);
    }
    if pl > 8 * l {
        return Err(CodecError::Malformed);
    }
    let mut bytes: Vec<u8> = Vec::new();
    let mut k: usize = 0;
    while k < lu
        invariant
            n == b@.len(),
            lu <= 16,
            pos + 2 + lu <= n,
            0 <= k <= lu,
            bytes@ == b@.subrange(pos as int + 1, pos as int + 1 + k as int),
        decreases lu - k,
    {
        bytes.push(b[pos + 1 + k]);
        proof {
            assert(bytes@ =~= b@.subrange(pos as int + 1, pos as int + 1 + k as int + 1));
        }
        k += 1;
    }
    let a = Addr { bytes };
    let rr = AddrRange { base: a, prefix_len: pl };
    proof {
        assert(b@.subrange(pos as int, pos as int + 2 + l as int) =~= range_bytes(rr));
    }
    Ok((rr, pos + 2 + lu))
}

/// The payload carried by a Data message.
pub open spec fn data_payload(m: Message) -> Seq<u8> {
    match m {
        Message::Data { payload } => payload@,
        _ => Seq::empty(),
    }
}

/// The byte stream of a peer list is a run of well-formed address items.
pub proof fn lemma_peers_bytes_items_ok(ps: Seq<SockAddr>)
    ensures
        peers_items_ok(peers_bytes(ps), ps.len()),
    decreases ps.len(),
{
    if ps.len() > 0 {
        let head = addr_bytes(ps[0]);
        let b = peers_bytes(ps);
        assert(b == head + peers_bytes(ps.skip(1)));
        match ps[0] {
            SockAddr::V4 { ip, port } => {
                assert(head.len() == 7);
                assert(b[0] == 4);
            },
            SockAddr::V6 { ip_hi, ip_lo, port } => {
                assert(head.len() == 19);
                assert(b[0] == 6);
            },
        }
        assert(addr_head_ok(b));
        assert(addr_head_len(b) == head.len());
        assert(b.skip(head.len() as int) =~= peers_bytes(ps.skip(1)));
        lemma_peers_bytes_items_ok(ps.skip(1));
    }
}

/// The byte stream of a range list is a run of well-formed range items.
pub proof fn lemma_ranges_bytes_items_ok(rs: Seq<AddrRange>)
    requires
        forall|k: int| 0 <= k < rs.len() ==> (#[trigger] rs[k]).wf(),
    ensures
        ranges_items_ok(ranges_bytes(rs), rs.len()),
    decreases rs.len(),
{
    if rs.len() > 0 {
        let head = range_bytes(rs[0]);
        let b = ranges_bytes(rs);
        assert(rs[0].wf());
        let l = rs[0].base@.len();
        assert(head.len() == 2 + l as int);
        assert(b == head + ranges_bytes(rs.skip(1)));
        assert(b[0] == l as u8);
        assert(b[1 + l as int] == rs[0].prefix_len);
        assert(range_head_ok(b));
        assert(range_head_len(b) == head.len());
        assert(b.skip(head.len() as int) =~= ranges_bytes(rs.skip(1)));
        assert forall|k: int| 0 <= k < rs.skip(1).len() implies (#[trigger] rs.skip(
            1,
        )[k]).wf() by {
            assert(rs.skip(1)[k] == rs[k + 1]);
        }
        lemma_ranges_bytes_items_ok(rs.skip(1));
    }
}

/// Every encoding of a well-formed message is an accepted frame, so
/// decoding what was encoded succeeds.
pub proof fn lemma_encode_ok(magic: u32, m: Message)
    requires
        m.wf(),
    ensures
        frame_ok(magic, encode_bytes(magic, m)),
{
    let b = encode_bytes(magic, m);
    assert(b.take(4) =~= u32_be(magic));
    assert(b[4] == WIRE_VERSION);
    match m {
        Message::Data { payload } => {
            assert(b[5] == 0);
        },
        Message::Peers { peers } => {
            assert(b[5] == 1);
            let count = peers@.len() as u16;
            assert(b.skip(6) =~= u16_be(count) + peers_bytes(peers@));
            assert(b.skip(6)[0] == (count / 256) as u8 && b.skip(6)[1] == (count % 256) as u8);
            assert((b.skip(6)[0] * 256 + b.skip(6)[1]) as nat == count as nat);
            assert(b.skip(6).skip(2) =~= peers_bytes(peers@));
            lemma_peers_bytes_items_ok(peers@);
            assert(peers_section_ok(b.skip(6)));
        },
        Message::Init { stage, node_id, ranges } => {
            assert(b[5] == 2);
            assert(b.skip(6).len() >= 18);
            assert(b.skip(6)[17] == ranges@.len() as u8);
            assert(b.skip(6).skip(18) =~= ranges_bytes(ranges@));
            lemma_ranges_bytes_items_ok(ranges@);
            assert(init_section_ok(b.skip(6)));
        },
        Message::Close => {
            assert(b[5] == 3);
            assert(b.skip(6).len() == 0);
        },
    }
}

/// Two messages with the same encoding and a Data message among them carry
/// the identical inner byte slice: encoding then decoding a Data message
/// hands the payload back unchanged.
pub proof fn lemma_data_round_trip(magic: u32, m1: Message, m2: Message)
    requires
        m1 is Data,
        encode_bytes(magic, m1) == encode_bytes(magic, m2),
    ensures
        m2 is Data,
        data_payload(m2) == data_payload(m1),
{
    let b1 = encode_bytes(magic, m1);
    let b2 = encode_bytes(magic, m2);
    assert(b1[5] == 0);
    match m2 {
        Message::Data { payload } => {
            assert(b1.skip(6) =~= data_payload(m1));
            assert(b2.skip(6) =~= data_payload(m2));
        },
        Message::Peers { peers } => {
            assert(b2[5] == 1);
        },
        Message::Init { stage, node_id, ranges } => {
            assert(b2[5] == 2);
        },
        Message::Close => {
            assert(b2[5] == 3);
        },
    }
}

/// The peers section of the whole frame is checked through its tail: the
/// count field matches and the items follow.
proof fn lemma_peers_section_link(b: Seq<u8>, count: u16)
    requires
        b.len() >= 8,
        u16_be(count) == b.subrange(6, 8),
    ensures
        peers_section_ok(b.skip(6)) <==> peers_items_ok(b.skip(8), count as nat),
{
    assert(b.skip(6).skip(2) =~= b.skip(8));
    assert(b.skip(6)[0] == b[6] && b.skip(6)[1] == b[7]);
    assert(u16_be(count)[0] == b[6] && u16_be(count)[1] == b[7]);
    assert((b[6] * 256 + b[7]) as nat == count as nat);
}

/// The ranges section of the whole frame is checked through its tail: the
/// count byte matches and the items follow.
proof fn lemma_init_section_link(b: Seq<u8>, rcount: u8)
    requires
        b.len() >= 24,
        b[23] == rcount,
    ensures
        init_section_ok(b.skip(6)) <==> ranges_items_ok(b.skip(24), rcount as nat),
{
    assert(b.skip(6).skip(18) =~= b.skip(24));
    assert(b.skip(6)[17] == b[23]);
    assert(b.skip(6).len() >= 18);
}

/// Decodes a frame.  Succeeds exactly on the frames `frame_ok` admits, and
/// the returned message encodes back to the given bytes.
pub fn decode(magic: u32, bytes: &[u8]) -> (r: Result<Message, CodecError>)
    ensures
        r is Ok <==> frame_ok(magic, bytes@),
        r is Ok ==> r.unwrap().wf() && bytes@ == encode_bytes(magic, r.unwrap()),
{
    let n = bytes.len();
    if n < 6 {
        return Err(CodecError::WrongMagic);
    }
    let m0 = (magic / 0x1000000) as u8;
    let m1 = (magic / 0x10000 % 256) as u8;
    let m2 = (magic / 0x100 % 256) as u8;
    let m3 = (magic % 256) as u8;
    if bytes[0] != m0 || bytes[1] != m1 || bytes[2] != m2 || bytes[3] != m3 {
        proof {
            if bytes@.take(4) == u32_be(magic) {
                assert(bytes@.take(4)[0] == bytes@[0] && bytes@.take(4)[1] == bytes@[1]
                    && bytes@.take(4)[2] == bytes@[2] && bytes@.take(4)[3] == bytes@[3]);
            }
        }
        return Err(CodecError::WrongMagic);
    }
    proof {
        assert(bytes@.take(4) =~= u32_be(magic));
    }
    if bytes[4] != WIRE_VERSION {
        return Err(CodecError::WrongVersion);
    }
    let kind = bytes[5];
    if kind == 0 {
        let mut payload: Vec<u8> = Vec::new();
        let mut i: usize = 6;
        while i < n
            invariant
                n == bytes@.len(),
                6 <= i <= n,
                payload@ == bytes@.subrange(6, i as int),
            decreases n - i,
        {
            payload.push(bytes[i]);
            proof {
                assert(payload@ =~= bytes@.subrange(6, i as int + 1));
            }
            i += 1;
        }
        let m = Message::Data { payload };
        proof {
            assert(bytes@ =~= encode_bytes(magic, m));
        }
        Ok(m)
    } else if kind == 1 {
        if n < 8 {
            proof {
                assert(bytes@.skip(6).len() < 2);
            }
            return Err(CodecError::Malformed);
        }
        let count = read_u16(bytes, 6);
        proof {
            assert(bytes@.skip(6)[0] == bytes@[6] && bytes@.skip(6)[1] == bytes@[7]);
            assert(bytes@.skip(6).skip(2) =~= bytes@.skip(8));
        }
        let mut peers: Vec<SockAddr> = Vec::new();
        let mut pos: usize = 8;
        let mut j: u16 = 0;
        while j < count
            invariant
                n == bytes@.len(),
                n >= 8,
                bytes@.take(4) == u32_be(magic),
                bytes@[4] == WIRE_VERSION,
                bytes@[5] == 1,
                u16_be(count) == bytes@.subrange(6, 8),
                0 <= j <= count,
                8 <= pos <= n,
                peers@.len() == j,
                bytes@.subrange(8, pos as int) == peers_bytes(peers@),
                peers_items_ok(bytes@.skip(8), count as nat) <==> peers_items_ok(
                    bytes@.skip(pos as int),
                    (count - j) as nat,
                ),
            decreases count - j,
        {
            match read_addr(bytes, pos) {
                Err(_) => {
                    proof {
                        assert(!peers_items_ok(bytes@.skip(pos as int), (count - j) as nat));
                        lemma_peers_section_link(bytes@, count);
                    }
                    return Err(CodecError::Malformed);
                },
                Ok((a, end)) => {
                    proof {
                        let hl = addr_head_len(bytes@.skip(pos as int));
                        assert(bytes@.skip(pos as int).skip(hl) =~= bytes@.skip(pos as int + hl));
                        lemma_peers_bytes_push(peers@, a);
                        assert(bytes@.subrange(8, end as int) =~= bytes@.subrange(8, pos as int)
                            + bytes@.subrange(pos as int, end as int));
                    }
                    peers.push(a);
                    pos = end;
                    j += 1;
                },
            }
        }
        if pos != n {
            proof {
                assert(peers_items_ok(bytes@.skip(pos as int), 0) == (bytes@.skip(
                    pos as int,
                ).len() == 0));
                lemma_peers_section_link(bytes@, count);
            }
            return Err(CodecError::Malformed);
        }
        let m = Message::Peers { peers };
        proof {
            assert(bytes@.skip(pos as int).len() == 0);
            assert(peers_items_ok(bytes@.skip(8), count as nat));
            lemma_peers_section_link(bytes@, count);
            assert(peers_section_ok(bytes@.skip(6)));
            assert(u16_be(peers@.len() as u16) == u16_be(count));
            assert(bytes@ =~= encode_bytes(magic, m));
        }
        Ok(m)
    } else if kind == 2 {
        if n < 24 {
            proof {
                assert(bytes@.skip(6).len() < 18);
            }
            return Err(CodecError::Malformed);
        }
        let stage = bytes[6];
        let hi = read_u64(bytes, 7);
        let lo = read_u64(bytes, 15);
        let rcount = bytes[23];
        proof {
            assert(bytes@.skip(6)[17] == bytes@[23]);
            assert(bytes@.skip(6).skip(18) =~= bytes@.skip(24));
        }
        let node_id = NodeId { hi, lo };
        let mut ranges: Vec<AddrRange> = Vec::new();
        let mut pos: usize = 24;
        let mut j: u8 = 0;
        while j < rcount
            invariant
                n == bytes@.len(),
                n >= 24,
                bytes@.take(4) == u32_be(magic),
                bytes@[4] == WIRE_VERSION,
                bytes@[5] == 2,
                bytes@[23] == rcount,
                0 <= j <= rcount,
                24 <= pos <= n,
                ranges@.len() == j,
                forall|k: int| 0 <= k < ranges@.len() ==> (#[trigger] ranges@[k]).wf(),
                bytes@.subrange(24, pos as int) == ranges_bytes(ranges@),
                ranges_items_ok(bytes@.skip(24), rcount as nat) <==> ranges_items_ok(
                    bytes@.skip(pos as int),
                    (rcount - j) as nat,
                ),
            decreases rcount - j,
        {
            match read_range(bytes, pos) {
                Err(_) => {
                    proof {
                        assert(!ranges_items_ok(bytes@.skip(pos as int), (rcount - j) as nat));
                        lemma_init_section_link(bytes@, rcount);
                    }
                    return Err(CodecError::Malformed);
                },
                Ok((rr, end)) => {
                    proof {
                        let hl = range_head_len(bytes@.skip(pos as int));
                        assert(bytes@.skip(pos as int).skip(hl) =~= bytes@.skip(pos as int + hl));
                        lemma_ranges_bytes_push(ranges@, rr);
                        assert(bytes@.subrange(24, end as int) =~= bytes@.subrange(24, pos as int)
                            + bytes@.subrange(pos as int, end as int));
                    }
                    ranges.push(rr);
                    pos = end;
                    j += 1;
                },
            }
        }
        if pos != n {
            proof {
                assert(ranges_items_ok(bytes@.skip(pos as int), 0) == (bytes@.skip(
                    pos as int,
                ).len() == 0));
                lemma_init_section_link(bytes@, rcount);
            }
            return Err(CodecError::Malformed);
        }
        let m = Message::Init { stage, node_id, ranges };
        proof {
            assert(bytes@.skip(pos as int).len() == 0);
            assert(ranges_items_ok(bytes@.skip(24), rcount as nat));
            lemma_init_section_link(bytes@, rcount);
            assert(init_section_ok(bytes@.skip(6)));
            assert(bytes@ =~= encode_bytes(magic, m));
        }
        Ok(m)
    } else if kind == 3 {
        if n != 6 {
            proof {
                assert(bytes@.skip(6).len() != 0);
            }
            return Err(CodecError::Malformed);
        }
        let m = Message::Close;
        proof {
            assert(bytes@ =~= encode_bytes(magic, m));
        }
        Ok(m)
    } else {
        Err(CodecError::BadKind)
    }
}

} // verus!
