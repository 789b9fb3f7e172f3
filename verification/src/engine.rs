//! The cloud engine: the protocol state machine behind the event loop.  It
//! owns the peer set, the claim table, the reconnect list and the traffic
//! counters, and decides, for every received message and every housekeeping
//! tick, which datagrams to send, what to write to the device and what to
//! forget.  The caller performs the I/O: it decodes received datagrams,
//! parses inner frames, resolves names, reads the clock, and carries out the
//! sends the engine hands back.

use vstd::prelude::*;
use crate::addr::{Addr, AddrRange, NodeId, SockAddr};
use crate::claim_table::{
    ClaimTable, claims_without_peer, cache_without_peer, claims_unexpired, cache_unexpired,
    clone_addr, has_cache_in, cache_index_in,
};
use crate::codec::Message;
use crate::peer_list::{
    PeerList, PeerRecord, peers_wf, addr_known_in, has_node_in, is_primary_in, owner_index_in,
    make_primary_rel, rec_has_addr, refresh_rel, peers_unexpired, peers_expired, primaries_of,
};
use crate::reconnect::ReconnectEntry;
use crate::rng::{random_node_id, sample_indices};
use crate::traffic::TrafficStats;

verus! {

/// Times handed to the engine stay below this bound, so that adding any
/// configured interval never overflows.
pub const MAX_TIME: u64 = 0x1000000000000000;

/// Configured intervals stay below this bound.
pub const MAX_INTERVAL: u64 = 0x100000000;

/// Seconds between writes of the stats report.
pub const STATS_INTERVAL: u64 = 60;

/// The gossip fan-out cap: no Peers broadcast carries more addresses.
pub const GOSSIP_CAP: usize = 20;

/// How many own addresses a stored beacon carries at most.
pub const BEACON_CAP: usize = 3;

/// What the engine consumes from the configuration.
#[derive(Clone, Copy, PartialEq, Eq, Structural, Debug)]
pub struct Config {
    pub port: u16,
    pub magic: u32,
    pub peer_timeout: u64,
    pub switch_timeout: u64,
    pub keepalive: u64,
    pub beacon_interval: u64,
    pub learning: bool,
    pub broadcast: bool,
    pub has_beacon_store: bool,
    pub has_beacon_load: bool,
    pub has_stats_file: bool,
}

impl Config {
    pub open spec fn wf(&self) -> bool {
        &&& 0 < self.peer_timeout <= MAX_INTERVAL
        &&& 0 < self.switch_timeout <= MAX_INTERVAL
        &&& 0 < self.keepalive <= MAX_INTERVAL
        &&& 0 < self.beacon_interval <= MAX_INTERVAL
    }
}

/// The stage of an Init message, if it is one.
pub open spec fn init_stage_of(m: Message) -> u8 {
    match m {
        Message::Init { stage, node_id: _, ranges: _ } => stage,
        _ => 0,
    }
}

pub open spec fn init_node_of(m: Message) -> NodeId {
    match m {
        Message::Init { stage: _, node_id, ranges: _ } => node_id,
        _ => NodeId { hi: 0, lo: 0 },
    }
}

pub open spec fn peers_list_of(m: Message) -> Seq<SockAddr> {
    match m {
        Message::Peers { peers } => peers@,
        _ => Seq::empty(),
    }
}

pub open spec fn init_ranges_of(m: Message) -> Seq<AddrRange> {
    match m {
        Message::Init { stage: _, node_id: _, ranges } => ranges@,
        _ => Seq::empty(),
    }
}

/// The two range lists describe the same subnets.
pub open spec fn ranges_view_eq(a: Seq<AddrRange>, b: Seq<AddrRange>) -> bool {
    a.len() == b.len() && forall|k: int|
        0 <= k < a.len() ==> (#[trigger] a[k]).base@ == b[k].base@ && a[k].prefix_len
            == b[k].prefix_len
}

/// A dial: an Init of stage 0 bearing the node's own identity and its own
/// claimed ranges.
pub open spec fn is_dial_msg(m: Message, nid: NodeId, own: Seq<AddrRange>) -> bool {
    m is Init && init_stage_of(m) == 0 && init_node_of(m) == nid && ranges_view_eq(
        init_ranges_of(m),
        own,
    )
}

/// The engine state.
pub struct CloudEngine {
    pub config: Config,
    pub node_id: NodeId,
    pub peers: PeerList,
    pub table: ClaimTable,
    pub reconnect: Vec<ReconnectEntry>,
    pub own_addresses: Vec<SockAddr>,
    pub own_ranges: Vec<AddrRange>,
    pub traffic: TrafficStats,
    pub next_peerlist: u64,
    pub next_stats_out: u64,
    pub next_beacon: u64,
    pub next_housekeep: u64,
    pub wait_failed_once: bool,
}

/// Checks whether a plain vector of addresses holds one.
pub fn contains_sockaddr(v: &Vec<SockAddr>, a: SockAddr) -> (r: bool)
    ensures
        r == v@.contains(a),
{
    let n = v.len();
    let mut i: usize = 0;
    while i < n
        invariant
            n == v@.len(),
            0 <= i <= n,
            forall|k: int| 0 <= k < i ==> v@[k] != a,
        decreases n - i,
    {
        if v[i] == a {
            return true;
        }
        i += 1;
    }
    false
}

/// Clones a range list, value for value.
fn clone_ranges(rs: &Vec<AddrRange>) -> (out: Vec<AddrRange>)
    ensures
        out@.len() == rs@.len(),
        forall|k: int|
            0 <= k < rs@.len() ==> (#[trigger] out@[k]).base@ == rs@[k].base@
                && out@[k].prefix_len == rs@[k].prefix_len,
{
    let n = rs.len();
    let mut out: Vec<AddrRange> = Vec::new();
    let mut i: usize = 0;
    while i < n
        invariant
            n == rs@.len(),
            0 <= i <= n,
            out@.len() == i,
            forall|k: int|
                0 <= k < i ==> (#[trigger] out@[k]).base@ == rs@[k].base@ && out@[k].prefix_len
                    == rs@[k].prefix_len,
        decreases n - i,
    {
        let base = clone_addr(&rs[i].base);
        out.push(AddrRange { base, prefix_len: rs[i].prefix_len });
        i += 1;
    }
    out
}

impl CloudEngine {
    pub open spec fn wf(&self) -> bool {
        &&& self.config.wf()
        &&& self.peers.wf()
        &&& self.peers.peer_timeout == self.config.peer_timeout
        &&& self.table.wf()
        &&& self.table.cache_timeout == self.config.switch_timeout
        &&& self.table.claim_timeout == self.config.peer_timeout
        &&& self.traffic.wf()
        &&& forall|i: int| 0 <= i < self.reconnect@.len() ==> (#[trigger] self.reconnect@[i]).wf()
        &&& forall|i: int| 0 <= i < self.own_ranges@.len() ==> (#[trigger] self.own_ranges@[i]).wf()
        &&& self.own_ranges@.len() <= 0xff
        &&& self.peers@.len() <= 0xffff
    }

    /// A fresh engine with a fixed node identity: used by the public
    /// constructor and directly where the identity must be chosen.
    pub fn new_with_node_id(
        config: Config,
        own_ranges: Vec<AddrRange>,
        node_id: NodeId,
        now: u64,
    ) -> (r: CloudEngine)
        requires
            config.wf(),
            forall|i: int| 0 <= i < own_ranges@.len() ==> (#[trigger] own_ranges@[i]).wf(),
            own_ranges@.len() <= 0xff,
            now <= MAX_TIME,
        ensures
            r.wf(),
            r.config == config,
            r.node_id == node_id,
            r.peers@.len() == 0,
            r.table.claims@.len() == 0,
            r.table.cache@.len() == 0,
            r.reconnect@.len() == 0,
            r.own_addresses@.len() == 0,
            r.own_ranges == own_ranges,
            r.next_peerlist == now,
            r.next_housekeep == now,
            r.next_stats_out == now + STATS_INTERVAL,
            r.next_beacon == now,
            !r.wait_failed_once,
    {
        CloudEngine {
            config,
            node_id,
            peers: PeerList::new(config.peer_timeout),
            table: ClaimTable::new(config.switch_timeout, config.peer_timeout),
            reconnect: Vec::new(),
            own_addresses: Vec::new(),
            own_ranges,
            traffic: TrafficStats::new(),
            next_peerlist: now,
            next_stats_out: now + STATS_INTERVAL,
            next_beacon: now,
            next_housekeep: now,
            wait_failed_once: false,
        }
    }

    /// A fresh engine with a random node identity.
    pub fn new(config: Config, own_ranges: Vec<AddrRange>, now: u64) -> (r: CloudEngine)
        requires
            config.wf(),
            forall|i: int| 0 <= i < own_ranges@.len() ==> (#[trigger] own_ranges@[i]).wf(),
            own_ranges@.len() <= 0xff,
            now <= MAX_TIME,
        ensures
            r.wf(),
            r.config == config,
            r.peers@.len() == 0,
            r.table.claims@.len() == 0,
            r.table.cache@.len() == 0,
            r.reconnect@.len() == 0,
            r.own_addresses@.len() == 0,
            r.own_ranges == own_ranges,
            r.next_peerlist == now,
            r.next_housekeep == now,
            r.next_stats_out == now + STATS_INTERVAL,
            r.next_beacon == now,
            !r.wait_failed_once,
    {
        let node_id = random_node_id();
        Self::new_with_node_id(config, own_ranges, node_id, now)
    }

    pub fn peer_count(&self) -> (r: usize)
        ensures
            r == self.peers@.len(),
    {
        self.peers.len()
    }

    /// Learns a socket address as one of this node's own.
    pub fn add_own_address(&mut self, addr: SockAddr)
        requires
            old(self).wf(),
        ensures
            final(self).wf(),
            final(self).own_addresses@.contains(addr),
            old(self).own_addresses@.contains(addr) ==> final(self).own_addresses@ == old(self).own_addresses@,
            !old(self).own_addresses@.contains(addr) ==> final(self).own_addresses@ == old(self).own_addresses@.push(addr),
            final(self).peers == old(self).peers,
            final(self).table == old(self).table,
            final(self).config == old(self).config,
            final(self).node_id == old(self).node_id,
    {
        if !contains_sockaddr(&self.own_addresses, addr) {
            self.own_addresses.push(addr);
            proof {
                assert(self.own_addresses@[self.own_addresses@.len() - 1] == addr);
            }
        }
    }

    /// Adds a named remote to the reconnect list.
    pub fn add_reconnect_peer(&mut self, address: String, now: u64)
        requires
            old(self).wf(),
        ensures
            final(self).wf(),
            final(self).reconnect@.len() == old(self).reconnect@.len() + 1,
            final(self).reconnect@.drop_last() == old(self).reconnect@,
            final(self).reconnect@.last().backoff == 1,
            final(self).reconnect@.last().tries == 0,
            final(self).reconnect@.last().address@ == address@,
            final(self).reconnect@.last().resolved@.len() == 0,
            final(self).reconnect@.last().next_resolve == now,
            final(self).reconnect@.last().next == now,
            final(self).peers == old(self).peers,
            final(self).table == old(self).table,
    {
        let e = ReconnectEntry::new(address, now);
        self.reconnect.push(e);
        proof {
            assert(self.reconnect@.drop_last() =~= old(self).reconnect@);
        }
    }

    /// The dial message for an address, or nothing when the address is
    /// already a known peer address or one of this node's own: self-dial
    /// suppression.
    pub fn connect_sock(&self, addr: SockAddr) -> (r: Option<Message>)
        requires
            self.wf(),
        ensures
            r is Some <==> (!addr_known_in(self.peers@, addr) && !self.own_addresses@.contains(
                addr,
            )),
            r is Some ==> is_dial_msg(r.unwrap(), self.node_id, self.own_ranges@) && r.unwrap().wf(),
    {
        if self.peers.contains_addr(addr) || contains_sockaddr(&self.own_addresses, addr) {
            return None;
        }
        let ranges = clone_ranges(&self.own_ranges);
        Some(Message::Init { stage: 0, node_id: self.node_id, ranges })
    }

    /// Dial messages for every address that is neither known nor own: those
    /// and no others.
    pub fn connect(&self, addrs: &Vec<SockAddr>) -> (out: Vec<(SockAddr, Message)>)
        requires
            self.wf(),
        ensures
            forall|i: int|
                0 <= i < out@.len() ==> !self.own_addresses@.contains(
                    (#[trigger] out@[i]).0,
                ) && !addr_known_in(self.peers@, out@[i].0) && is_dial_msg(
                    out@[i].1,
                    self.node_id,
                    self.own_ranges@,
                ) && out@[i].1.wf(),
            forall|k: int|
                0 <= k < addrs@.len() && !addr_known_in(self.peers@, #[trigger] addrs@[k])
                    && !self.own_addresses@.contains(addrs@[k]) ==> exists|j: int|
                    0 <= j < out@.len() && (#[trigger] out@[j]).0 == addrs@[k],
    {
        let n = addrs.len();
        let mut out: Vec<(SockAddr, Message)> = Vec::new();
        let mut i: usize = 0;
        while i < n
            invariant
                self.wf(),
                n == addrs@.len(),
                0 <= i <= n,
                forall|k: int|
                    0 <= k < out@.len() ==> !self.own_addresses@.contains(
                        (#[trigger] out@[k]).0,
                    ) && !addr_known_in(self.peers@, out@[k].0) && is_dial_msg(
                        out@[k].1,
                        self.node_id,
                        self.own_ranges@,
                    ) && out@[k].1.wf(),
                forall|k: int|
                    0 <= k < i && !addr_known_in(self.peers@, #[trigger] addrs@[k])
                        && !self.own_addresses@.contains(addrs@[k]) ==> exists|j: int|
                        0 <= j < out@.len() && (#[trigger] out@[j]).0 == addrs@[k],
            decreases n - i,
        {
            let ghost preout = out@;
            match self.connect_sock(addrs[i]) {
                Some(m) => {
                    out.push((addrs[i], m));
                },
                None => {},
            }
            proof {
                assert forall|k: int|
                    0 <= k < i + 1 && !addr_known_in(self.peers@, #[trigger] addrs@[k])
                        && !self.own_addresses@.contains(addrs@[k]) implies exists|j: int|
                    0 <= j < out@.len() && (#[trigger] out@[j]).0 == addrs@[k] by {
                    if k < i as int {
                        let j = choose|j: int|
                            0 <= j < preout.len() && (#[trigger] preout[j]).0 == addrs@[k];
                        assert(out@[j].0 == addrs@[k]);
                    } else {
                        assert(out@[out@.len() - 1].0 == addrs@[k]);
                    }
                }
            }
            i += 1;
        }
        out
    }

    /// A Data message arrived from `peer`, already parsed to its inner
    /// source and destination.  The in-payload counters for (src, dst) grow
    /// by `nbytes` and, in learning mode, the source address is cached
    /// against the sender.  The peer set is left exactly as it was: data
    /// does not refresh a peer.
    pub fn handle_data(&mut self, peer: SockAddr, src: &Addr, dst: &Addr, nbytes: u64, now: u64)
        requires
            old(self).wf(),
            now <= MAX_TIME,
        ensures
            final(self).wf(),
            final(self).peers == old(self).peers,
            final(self).own_addresses == old(self).own_addresses,
            final(self).table.claims@ == old(self).table.claims@,
            final(self).config == old(self).config,
            final(self).node_id == old(self).node_id,
            crate::traffic::payload_counted(
                old(self).traffic.payload@,
                final(self).traffic.payload@,
                src@,
                dst@,
                nbytes,
                false,
            ),
            final(self).traffic.peers@ == old(self).traffic.peers@,
            final(self).traffic.dropped == old(self).traffic.dropped,
            final(self).traffic.invalid == old(self).traffic.invalid,
            !old(self).config.learning ==> final(self).table == old(self).table,
            old(self).config.learning ==> {
                &&& has_cache_in(final(self).table.cache@, src@)
                &&& final(self).table.cache@[cache_index_in(final(self).table.cache@, src@)].peer
                    == peer
                &&& final(self).table.cache@[cache_index_in(final(self).table.cache@, src@)].expiry
                    == now + old(self).config.switch_timeout
            },
    {
        self.traffic.count_in_payload(src, dst, nbytes);
        if self.config.learning {
            let ghost oldcache = self.table.cache@;
            self.table.cache(src, peer, now);
            proof {
                let c = self.table.cache@;
                if has_cache_in(oldcache, src@) {
                    let i = cache_index_in(oldcache, src@);
                    assert(c[i].addr@ == src@);
                    assert(has_cache_in(c, src@)) by {
                        assert(c[i].addr@ == src@);
                    }
                    let j = cache_index_in(c, src@);
                    assert(c[j].addr@ == src@);
                    if i != j {
                        assert(c[i].addr@ != c[j].addr@);
                        assert(false);
                    }
                } else {
                    let i = c.len() - 1;
                    assert(c[i].addr@ == src@);
                    assert(has_cache_in(c, src@)) by {
                        assert(c[i].addr@ == src@);
                    }
                    let j = cache_index_in(c, src@);
                    assert(c[j].addr@ == src@);
                    if j < i {
                        assert(c.drop_last()[j] == c[j]);
                        assert(old(self).table.cache@[j].addr@ == src@);
                        assert(has_cache_in(old(self).table.cache@, src@));
                        assert(false);
                    }
                }
            }
        }
    }

    /// A Close message arrived: the peer and everything it owned go.
    pub fn handle_close(&mut self, peer: SockAddr)
        requires
            old(self).wf(),
        ensures
            final(self).wf(),
            final(self).peers@ == crate::peer_list::peers_without_primary(old(self).peers@, peer),
            final(self).table.claims@ == claims_without_peer(old(self).table.claims@, peer),
            final(self).table.cache@ == cache_without_peer(old(self).table.cache@, peer),
            final(self).own_addresses == old(self).own_addresses,
            final(self).config == old(self).config,
            final(self).node_id == old(self).node_id,
    {
        proof {
            crate::peer_list::lemma_peers_without_primary_is_filter(
                self.peers@,
                peer,
                |r: PeerRecord| r.primary != peer,
            );
            
        }
        let ghost oldlen = self.peers@.len();
        self.peers.remove(peer);
        proof {
            self.peers@.lemma_filter_len(|r: PeerRecord| r.primary != peer);
            assert(old(self).peers@.filter(|r: PeerRecord| r.primary != peer).len()
                <= oldlen) by {
                old(self).peers@.lemma_filter_len(|r: PeerRecord| r.primary != peer);
            }
        }
        self.table.remove_all(peer);
    }

    /// An Init message arrived.  A handshake bearing this node's own id
    /// marks the source as an own address and changes nothing else.  A known
    /// node migrates its primary address; an unknown one is added together
    /// with its claimed ranges.  A stage-0 handshake is answered with a
    /// stage-1 Init and a Peers list from which own addresses are filtered.
    pub fn handle_init(
        &mut self,
        peer: SockAddr,
        stage: u8,
        node_id: NodeId,
        ranges: Vec<AddrRange>,
        now: u64,
    ) -> (replies: Vec<(SockAddr, Message)>)
        requires
            old(self).wf(),
            now <= MAX_TIME,
            forall|i: int| 0 <= i < ranges@.len() ==> (#[trigger] ranges@[i]).wf(),
        ensures
            final(self).wf(),
            final(self).config == old(self).config,
            final(self).node_id == old(self).node_id,
            // self-suppression: the own id adds an own address and nothing more
            node_id == old(self).node_id ==> {
                &&& final(self).peers == old(self).peers
                &&& final(self).table == old(self).table
                &&& final(self).own_addresses@.contains(peer)
                &&& replies@.len() == 0
            },
            node_id != old(self).node_id ==> final(self).own_addresses == old(self).own_addresses,
            // a known node migrates; the table keeps its claims
            node_id != old(self).node_id && has_node_in(old(self).peers@, node_id) ==> {
                &&& make_primary_rel(old(self).peers@, final(self).peers@, node_id, peer)
                &&& final(self).table == old(self).table
            },
            // an unknown node is added, with its claims
            node_id != old(self).node_id && !has_node_in(old(self).peers@, node_id) ==> {
                let claimed = addr_known_in(old(self).peers@, peer) || old(self).peers@.len()
                    < 0xffff;
                &&& !addr_known_in(old(self).peers@, peer) && old(self).peers@.len() < 0xffff
                    ==> final(self).peers@.len() == old(self).peers@.len() + 1 && final(self).peers@.last().node_id == node_id && final(self).peers@.last().primary == peer
                    && final(self).peers@.last().expiry == now + old(self).config.peer_timeout
                    && final(self).peers@.last().alternates@.len() == 0
                    && final(self).peers@.drop_last() == old(self).peers@
                &&& addr_known_in(old(self).peers@, peer) ==> final(self).peers@ == old(self).peers@
                &&& final(self).table.cache@ == old(self).table.cache@
                &&& !claimed ==> final(self).table == old(self).table
                &&& claimed ==> final(self).table.claims@ == claims_without_peer(
                    old(self).table.claims@,
                    peer,
                ) + crate::claim_table::claims_of(
                    peer,
                    ranges@,
                    (now + old(self).config.peer_timeout) as u64,
                )
            },
            // a stage-0 handshake from another node is answered
            node_id != old(self).node_id && stage == 0 ==> {
                &&& replies@.len() == 2
                &&& replies@[0].0 == peer
                &&& replies@[0].1 is Init
                &&& init_stage_of(replies@[0].1) == 1
                &&& init_node_of(replies@[0].1) == old(self).node_id
                &&& ranges_view_eq(init_ranges_of(replies@[0].1), old(self).own_ranges@)
                &&& replies@[0].1.wf()
                &&& replies@[1].0 == peer
                &&& replies@[1].1 is Peers
                &&& replies@[1].1.wf()
                &&& forall|a: SockAddr|
                    peers_list_of(replies@[1].1).contains(a) ==> !final(self).own_addresses@.contains(a) && addr_known_in(final(self).peers@, a)
                &&& peers_list_of(replies@[1].1).len() < 0xffff ==> forall|a: SockAddr|
                    addr_known_in(final(self).peers@, a) && !final(self).own_addresses@.contains(
                        a,
                    ) ==> peers_list_of(replies@[1].1).contains(a)
            },
            node_id != old(self).node_id && stage != 0 ==> replies@.len() == 0,
    {
        if node_id == self.node_id {
            self.add_own_address(peer);
            return Vec::new();
        }
        if self.peers.contains_node(node_id) {
            self.peers.make_primary(node_id, peer);
        } else {
            let full = self.peers.len() >= 0xffff;
            if !full {
                self.peers.add(node_id, peer, now);
            }
            proof {
                if !addr_known_in(old(self).peers@, peer) && !full {
                    let ln = self.peers@.len() - 1;
                    assert(rec_has_addr(self.peers@[ln], peer));
                    assert(addr_known_in(self.peers@, peer));
                }
            }
            if self.peers.contains_addr(peer) {
                self.table.set_claims(peer, ranges, now);
            }
        }
        let mut replies: Vec<(SockAddr, Message)> = Vec::new();
        if stage == 0 {
            let own_ranges = clone_ranges(&self.own_ranges);
            proof {
                assert forall|k: int| 0 <= k < own_ranges@.len() implies (#[trigger] own_ranges@[k]).wf() by {
                    assert(self.own_ranges@[k].wf());
                }
            }
            let init = Message::Init { stage: 1, node_id: self.node_id, ranges: own_ranges };
            replies.push((peer, init));
            let known = self.peers.as_vec();
            let mut list: Vec<SockAddr> = Vec::new();
            let n = known.len();
            let mut i: usize = 0;
            while i < n
                invariant
                    self.wf(),
                    n == known@.len(),
                    0 <= i <= n,
                    forall|a: SockAddr| known@.contains(a) ==> addr_known_in(self.peers@, a),
                    list@.len() <= i,
                    list@.len() <= 0xffff,
                    forall|k: int|
                        0 <= k < list@.len() ==> !self.own_addresses@.contains(
                            (#[trigger] list@[k]),
                        ) && addr_known_in(self.peers@, list@[k]),
                    list@.len() == 0xffff || forall|k: int|
                        0 <= k < i && !self.own_addresses@.contains(#[trigger] known@[k])
                            ==> list@.contains(known@[k]),
                decreases n - i,
            {
                let ghost prelist = list@;
                if list.len() < 0xffff && !contains_sockaddr(&self.own_addresses, known[i]) {
                    proof {
                        assert(known@.contains(known@[i as int])) by {
                            assert(known@[i as int] == known@[i as int]);
                        }
                    }
                    list.push(known[i]);
                }
                proof {
                    if list@.len() < 0xffff || (list@.len() == 0xffff && prelist.len() < 0xffff) {
                        if prelist.len() != 0xffff {
                            assert forall|k: int|
                                0 <= k < i + 1 && !self.own_addresses@.contains(
                                    #[trigger] known@[k],
                                ) implies list@.contains(known@[k]) by {
                                if k < i as int {
                                    assert(prelist.contains(known@[k]));
                                    let j = choose|j: int|
                                        0 <= j < prelist.len() && prelist[j] == known@[k];
                                    assert(list@[j] == known@[k]);
                                } else {
                                    assert(list@[list@.len() - 1] == known@[i as int]);
                                }
                            }
                        }
                    }
                }
                i += 1;
            }
            let pm = Message::Peers { peers: list };
            proof {
                assert forall|a: SockAddr| peers_list_of(pm).contains(a) implies !self
                    .own_addresses@.contains(a) && addr_known_in(self.peers@, a) by {
                    let k = choose|k: int|
                        0 <= k < peers_list_of(pm).len() && peers_list_of(pm)[k] == a;
                    assert(peers_list_of(pm)[k] == a);
                }
                if peers_list_of(pm).len() < 0xffff {
                    assert forall|a: SockAddr|
                        addr_known_in(self.peers@, a) && !self.own_addresses@.contains(
                            a,
                        ) implies peers_list_of(pm).contains(a) by {
                        assert(known@.contains(a));
                        let k = choose|k: int| 0 <= k < known@.len() && known@[k] == a;
                        assert(!self.own_addresses@.contains(known@[k]));
                    }
                }
            }
            replies.push((peer, pm));
        }
        replies
    }

    /// A Peers message arrived: dial the sender if unknown, make the sender
    /// address the node's primary, dial every listed address that is neither
    /// known nor own, and refresh the sender.  No listed address is ever
    /// dialled when it is one of this node's own: gossip never points the
    /// node at itself.
    pub fn handle_peers(&mut self, peer: SockAddr, list: &Vec<SockAddr>, now: u64) -> (dials: Vec<
        (SockAddr, Message),
    >)
        requires
            old(self).wf(),
            now <= MAX_TIME,
        ensures
            final(self).wf(),
            final(self).config == old(self).config,
            final(self).node_id == old(self).node_id,
            final(self).own_addresses == old(self).own_addresses,
            final(self).table == old(self).table,
            final(self).peers@.len() == old(self).peers@.len(),
            forall|i: int|
                0 <= i < dials@.len() ==> !old(self).own_addresses@.contains(
                    (#[trigger] dials@[i]).0,
                ) && is_dial_msg(dials@[i].1, old(self).node_id, old(self).own_ranges@) && dials@[i].1.wf(),
            forall|k: int|
                0 <= k < list@.len() && !addr_known_in(final(self).peers@, #[trigger] list@[k])
                    && !old(self).own_addresses@.contains(list@[k]) ==> exists|j: int|
                    0 <= j < dials@.len() && (#[trigger] dials@[j]).0 == list@[k],
            (!addr_known_in(old(self).peers@, peer) && !old(self).own_addresses@.contains(peer))
                ==> dials@.len() > 0 && dials@[0].0 == peer,
            forall|i: int|
                0 <= i < dials@.len() && (#[trigger] dials@[i]).0 != peer ==> list@.contains(
                    dials@[i].0,
                ) && !addr_known_in(final(self).peers@, dials@[i].0),
            exists|mid: Seq<PeerRecord>|
                {
                    &&& #[trigger] peers_wf(mid)
                    &&& (addr_known_in(old(self).peers@, peer) ==> make_primary_rel(
                        old(self).peers@,
                        mid,
                        old(self).peers@[owner_index_in(old(self).peers@, peer)].node_id,
                        peer,
                    ))
                    &&& (!addr_known_in(old(self).peers@, peer) ==> mid == old(self).peers@)
                    &&& refresh_rel(
                        mid,
                        final(self).peers@,
                        peer,
                        (now + old(self).config.peer_timeout) as u64,
                    )
                },
    {
        let mut dials: Vec<(SockAddr, Message)> = Vec::new();
        match self.connect_sock(peer) {
            Some(m) => {
                dials.push((peer, m));
            },
            None => {},
        }
        match self.peers.get_node_id(peer) {
            Some(nid) => {
                self.peers.make_primary(nid, peer);
            },
            None => {},
        }
        let ghost mid = self.peers@;
        let n = list.len();
        let mut i: usize = 0;
        while i < n
            invariant
                self.wf(),
                self.own_addresses == old(self).own_addresses,
                self.node_id == old(self).node_id,
                n == list@.len(),
                0 <= i <= n,
                self.peers@ == mid,
                self.table == old(self).table,
                self.config == old(self).config,
                self.traffic == old(self).traffic,
                self.reconnect == old(self).reconnect,
                self.own_ranges == old(self).own_ranges,
                forall|k: int|
                    0 <= k < dials@.len() ==> !self.own_addresses@.contains(
                        (#[trigger] dials@[k]).0,
                    ) && is_dial_msg(dials@[k].1, self.node_id, self.own_ranges@) && dials@[k].1.wf(),
                forall|k: int|
                    0 <= k < i && !addr_known_in(self.peers@, #[trigger] list@[k])
                        && !self.own_addresses@.contains(list@[k]) ==> exists|j: int|
                        0 <= j < dials@.len() && (#[trigger] dials@[j]).0 == list@[k],
                (!addr_known_in(old(self).peers@, peer) && !self.own_addresses@.contains(peer))
                    ==> dials@.len() > 0 && dials@[0].0 == peer,
                forall|k: int|
                    0 <= k < dials@.len() && (#[trigger] dials@[k]).0 != peer ==> list@.contains(
                        dials@[k].0,
                    ) && !addr_known_in(self.peers@, dials@[k].0),
            decreases n - i,
        {
            let ghost predials = dials@;
            match self.connect_sock(list[i]) {
                Some(m) => {
                    dials.push((list[i], m));
                    proof {
                        assert(list@.contains(list@[i as int])) by {
                            assert(list@[i as int] == list@[i as int]);
                        }
                    }
                },
                None => {},
            }
            proof {
                assert forall|k: int|
                    0 <= k < i + 1 && !addr_known_in(self.peers@, #[trigger] list@[k])
                        && !self.own_addresses@.contains(list@[k]) implies exists|j: int|
                    0 <= j < dials@.len() && (#[trigger] dials@[j]).0 == list@[k] by {
                    if k < i as int {
                        let j = choose|j: int|
                            0 <= j < predials.len() && (#[trigger] predials[j]).0 == list@[k];
                        assert(dials@[j].0 == list@[k]);
                    } else {
                        assert(dials@[dials@.len() - 1].0 == list@[k]);
                    }
                }
            }
            i += 1;
        }
        let ghost premid = self.peers@;
        self.peers.refresh(peer, now);
        proof {
            // refreshing an expiry moves no address, so reachability is
            // unchanged and the dial set is complete for the final state too
            assert forall|a: SockAddr| #[trigger]
                addr_known_in(self.peers@, a) == addr_known_in(premid, a) by {
                if is_primary_in(premid, peer) {
                    let pi = crate::peer_list::primary_index_in(premid, peer);
                    if addr_known_in(self.peers@, a) {
                        let w = owner_index_in(self.peers@, a);
                        assert(rec_has_addr(self.peers@[w], a));
                        assert(rec_has_addr(premid[w], a));
                        assert(addr_known_in(premid, a));
                    }
                    if addr_known_in(premid, a) {
                        let w = owner_index_in(premid, a);
                        assert(rec_has_addr(premid[w], a));
                        assert(rec_has_addr(self.peers@[w], a));
                        assert(addr_known_in(self.peers@, a));
                    }
                }
            }
        }
        dials
    }
}

/// What to do with one frame read from the local device.
pub enum ForwardPlan {
    /// Send the frame to this peer; `redial` carries a dial message when
    /// the peer behind a stale table entry is gone.
    Unicast { dst: SockAddr, redial: Option<Message> },
    /// Fan the frame out to every peer.
    Broadcast,
    /// No destination and no broadcast mode: drop the frame.
    Drop,
}

/// What handling one network message asks the caller to do.
pub struct NetEffects {
    pub sends: Vec<(SockAddr, Message)>,
    pub write_device: bool,
}

/// What one housekeeping run asks the caller to do.
pub struct HousekeepPlan {
    /// The address list of a Peers gossip broadcast, when one is due.
    pub gossip: Option<Vec<SockAddr>>,
    /// Dial messages for reconnect entries that are due.
    pub dials: Vec<(SockAddr, Message)>,
    /// A traffic period closed this tick: after writing any report, the
    /// caller closes the period with `close_stats_period`.
    pub stats_due: bool,
    /// Write the stats report now, before closing the period.
    pub write_stats: bool,
    /// Store a beacon carrying these own addresses.
    pub store_beacon: Option<Vec<SockAddr>>,
    /// Load the beacon and dial what it holds.
    pub load_beacon: bool,
}

impl CloudEngine {
    /// A frame was read from the device, parsed to inner source and
    /// destination.  The claim table decides where it goes; a stale entry
    /// whose peer is gone is dropped and its peer redialled; without a
    /// match the frame is broadcast or dropped by mode.
    pub fn handle_interface_data(&mut self, src: &Addr, dst: &Addr, nbytes: u64, now: u64) -> (plan:
        ForwardPlan)
        requires
            old(self).wf(),
            dst.wf(),
            now <= MAX_TIME,
        ensures
            final(self).wf(),
            final(self).peers == old(self).peers,
            final(self).own_addresses == old(self).own_addresses,
            final(self).config == old(self).config,
            final(self).node_id == old(self).node_id,
            final(self).table.claims@ == old(self).table.claims@,
            crate::traffic::payload_counted(
                old(self).traffic.payload@,
                final(self).traffic.payload@,
                dst@,
                src@,
                nbytes,
                true,
            ),
            final(self).traffic.peers@ == old(self).traffic.peers@,
            final(self).traffic.invalid == old(self).traffic.invalid,
            ({
                let lk = old(self).table.spec_lookup(dst@, now);
                &&& lk is Some ==> plan is Unicast && plan->Unicast_dst == lk.unwrap()
                &&& (lk is Some && addr_known_in(old(self).peers@, lk.unwrap())) ==> final(self).table == old(self).table && plan->Unicast_redial is None
                &&& (lk is Some && !addr_known_in(old(self).peers@, lk.unwrap())) ==> {
                    &&& final(self).table.cache@ == crate::claim_table::cache_without_addr(
                        old(self).table.cache@,
                        dst@,
                    )
                    &&& (plan->Unicast_redial is Some <==> !old(self).own_addresses@.contains(
                        lk.unwrap(),
                    ))
                    &&& plan->Unicast_redial is Some ==> is_dial_msg(
                        plan->Unicast_redial.unwrap(),
                        old(self).node_id,
                        old(self).own_ranges@,
                    )
                }
                &&& lk is None ==> final(self).table == old(self).table && (
                old(self).config.broadcast ==> plan is Broadcast) && (!old(self).config.broadcast
                    ==> plan is Drop)
                &&& (lk is None && !old(self).config.broadcast) ==> final(self).traffic.dropped
                    == crate::traffic::bump(old(self).traffic.dropped, false, nbytes)
                &&& !(lk is None && !old(self).config.broadcast) ==> final(self).traffic.dropped
                    == old(self).traffic.dropped
            }),
    {
        self.traffic.count_out_payload(dst, src, nbytes);
        match self.table.lookup(dst, now) {
            Some(addr) => {
                if !self.peers.contains_addr(addr) {
                    self.table.remove_addr(dst);
                    let redial = self.connect_sock(addr);
                    ForwardPlan::Unicast { dst: addr, redial }
                } else {
                    ForwardPlan::Unicast { dst: addr, redial: None }
                }
            },
            None => {
                if self.config.broadcast {
                    ForwardPlan::Broadcast
                } else {
                    self.traffic.count_dropped_payload(nbytes);
                    ForwardPlan::Drop
                }
            },
        }
    }

    /// One decoded message from the network, `nbytes` its payload size.
    /// For a Data message the caller passes the parsed inner addresses, or
    /// nothing when the inner frame did not parse; the payload is then only
    /// counted as invalid.  Each kind behaves exactly as its dedicated
    /// handler states; the state clauses here restate those guarantees, so
    /// a caller of this one entry point sees them all.
    pub fn handle_net_message(
        &mut self,
        peer: SockAddr,
        msg: Message,
        inner: Option<(Addr, Addr)>,
        nbytes: u64,
        now: u64,
    ) -> (out: NetEffects)
        requires
            old(self).wf(),
            msg.wf(),
            now <= MAX_TIME,
        ensures
            final(self).wf(),
            final(self).config == old(self).config,
            final(self).node_id == old(self).node_id,
            msg is Data ==> {
                &&& final(self).peers == old(self).peers
                &&& final(self).own_addresses == old(self).own_addresses
                &&& out.sends@.len() == 0
                &&& (out.write_device <==> inner is Some)
                &&& final(self).table.claims@ == old(self).table.claims@
                &&& (!(old(self).config.learning && inner is Some) ==> final(self).table == old(self).table)
                &&& (old(self).config.learning && inner is Some ==> {
                    let cache = final(self).table.cache@;
                    &&& has_cache_in(cache, inner.unwrap().0@)
                    &&& cache[cache_index_in(cache, inner.unwrap().0@)].peer == peer
                    &&& cache[cache_index_in(cache, inner.unwrap().0@)].expiry == now + old(self).config.switch_timeout
                })
                &&& (inner is Some ==> crate::traffic::payload_counted(
                    old(self).traffic.payload@,
                    final(self).traffic.payload@,
                    inner.unwrap().0@,
                    inner.unwrap().1@,
                    nbytes,
                    false,
                ) && final(self).traffic.invalid == old(self).traffic.invalid)
                &&& (inner is None ==> final(self).traffic.invalid == crate::traffic::bump(
                    old(self).traffic.invalid,
                    false,
                    nbytes,
                ) && final(self).traffic.payload@ == old(self).traffic.payload@)
                &&& final(self).traffic.peers@ == old(self).traffic.peers@
                &&& final(self).traffic.dropped == old(self).traffic.dropped
            },
            msg is Peers ==> {
                &&& final(self).own_addresses == old(self).own_addresses
                &&& final(self).table == old(self).table
                &&& final(self).peers@.len() == old(self).peers@.len()
                &&& !out.write_device
                &&& forall|i: int|
                    0 <= i < out.sends@.len() ==> !old(self).own_addresses@.contains(
                        (#[trigger] out.sends@[i]).0,
                    ) && is_dial_msg(out.sends@[i].1, old(self).node_id, old(self).own_ranges@)
                // the unknown sender is dialled
                &&& (!addr_known_in(old(self).peers@, peer) && !old(self).own_addresses@.contains(
                    peer,
                )) ==> out.sends@.len() > 0 && out.sends@[0].0 == peer
                // every listed unknown non-own address is dialled, and
                // nothing else is
                &&& forall|k: int|
                    0 <= k < peers_list_of(msg).len() && !addr_known_in(
                        final(self).peers@,
                        #[trigger] peers_list_of(msg)[k],
                    ) && !old(self).own_addresses@.contains(peers_list_of(msg)[k]) ==> exists|j: int|
                        0 <= j < out.sends@.len() && (#[trigger] out.sends@[j]).0
                            == peers_list_of(msg)[k]
                &&& forall|i: int|
                    0 <= i < out.sends@.len() && (#[trigger] out.sends@[i]).0 != peer
                        ==> peers_list_of(msg).contains(out.sends@[i].0) && !addr_known_in(
                        final(self).peers@,
                        out.sends@[i].0,
                    )
                // the sender's node migrates to this address and is refreshed
                &&& exists|mid: Seq<PeerRecord>|
                    {
                        &&& #[trigger] peers_wf(mid)
                        &&& (addr_known_in(old(self).peers@, peer) ==> make_primary_rel(
                            old(self).peers@,
                            mid,
                            old(self).peers@[owner_index_in(old(self).peers@, peer)].node_id,
                            peer,
                        ))
                        &&& (!addr_known_in(old(self).peers@, peer) ==> mid == old(self).peers@)
                        &&& refresh_rel(
                            mid,
                            final(self).peers@,
                            peer,
                            (now + old(self).config.peer_timeout) as u64,
                        )
                    }
            },
            msg is Init ==> {
                &&& !out.write_device
                &&& (init_node_of(msg) == old(self).node_id ==> final(self).peers == old(self).peers && final(self).table == old(self).table && final(self).own_addresses@.contains(peer) && out.sends@.len() == 0)
                &&& (init_node_of(msg) != old(self).node_id ==> final(self).own_addresses == old(self).own_addresses)
                // a known node migrates; its claims stay
                &&& (init_node_of(msg) != old(self).node_id && has_node_in(
                    old(self).peers@,
                    init_node_of(msg),
                ) ==> make_primary_rel(
                    old(self).peers@,
                    final(self).peers@,
                    init_node_of(msg),
                    peer,
                ) && final(self).table == old(self).table)
                // an unknown node is added with its claims and a fresh expiry
                &&& (init_node_of(msg) != old(self).node_id && !has_node_in(
                    old(self).peers@,
                    init_node_of(msg),
                ) ==> {
                    let claimed = addr_known_in(old(self).peers@, peer) || old(self).peers@.len()
                        < 0xffff;
                    &&& !addr_known_in(old(self).peers@, peer) && old(self).peers@.len() < 0xffff
                        ==> final(self).peers@.len() == old(self).peers@.len() + 1 && final(self).peers@.last().node_id == init_node_of(msg) && final(self).peers@.last().primary
                        == peer && final(self).peers@.last().expiry == now + old(self).config.peer_timeout && final(self).peers@.drop_last() == old(self).peers@
                    &&& addr_known_in(old(self).peers@, peer) ==> final(self).peers@ == old(self).peers@
                    &&& final(self).table.cache@ == old(self).table.cache@
                    &&& !claimed ==> final(self).table == old(self).table
                    &&& claimed ==> final(self).table.claims@ == claims_without_peer(
                        old(self).table.claims@,
                        peer,
                    ) + crate::claim_table::claims_of(
                        peer,
                        init_ranges_of(msg),
                        (now + old(self).config.peer_timeout) as u64,
                    )
                })
                &&& (init_node_of(msg) != old(self).node_id && init_stage_of(msg) == 0 ==> {
                    &&& out.sends@.len() == 2
                    &&& out.sends@[0].0 == peer
                    &&& out.sends@[0].1 is Init
                    &&& init_stage_of(out.sends@[0].1) == 1
                    &&& init_node_of(out.sends@[0].1) == old(self).node_id
                    &&& ranges_view_eq(init_ranges_of(out.sends@[0].1), old(self).own_ranges@)
                    &&& out.sends@[1].0 == peer
                    &&& out.sends@[1].1 is Peers
                    &&& forall|a: SockAddr|
                        peers_list_of(out.sends@[1].1).contains(a) ==> !final(self).own_addresses@.contains(a) && addr_known_in(final(self).peers@, a)
                    &&& peers_list_of(out.sends@[1].1).len() < 0xffff ==> forall|a: SockAddr|
                        addr_known_in(final(self).peers@, a) && !final(self).own_addresses@.contains(a) ==> peers_list_of(out.sends@[1].1).contains(a)
                })
                &&& (init_node_of(msg) != old(self).node_id && init_stage_of(msg) != 0
                    ==> out.sends@.len() == 0)
            },
            msg is Close ==> {
                &&& final(self).peers@ == crate::peer_list::peers_without_primary(
                    old(self).peers@,
                    peer,
                )
                &&& final(self).table.claims@ == claims_without_peer(old(self).table.claims@, peer)
                &&& final(self).table.cache@ == cache_without_peer(old(self).table.cache@, peer)
                &&& final(self).own_addresses == old(self).own_addresses
                &&& out.sends@.len() == 0
                &&& !out.write_device
            },
    {
        match msg {
            Message::Data { payload: _ } => {
                match inner {
                    Some((src, dst)) => {
                        self.handle_data(peer, &src, &dst, nbytes, now);
                        NetEffects { sends: Vec::new(), write_device: true }
                    },
                    None => {
                        self.traffic.count_invalid_protocol(nbytes);
                        NetEffects { sends: Vec::new(), write_device: false }
                    },
                }
            },
            Message::Peers { peers: list } => {
                let sends = self.handle_peers(peer, &list, now);
                NetEffects { sends, write_device: false }
            },
            Message::Init { stage, node_id, ranges } => {
                let sends = self.handle_init(peer, stage, node_id, ranges, now);
                NetEffects { sends, write_device: false }
            },
            Message::Close => {
                self.handle_close(peer);
                NetEffects { sends: Vec::new(), write_device: false }
            },
        }
    }

    /// The multiplexer wait failed: the first failure asks for a retry, a
    /// second consecutive one is fatal.  A completed housekeeping run
    /// resets the latch.
    pub fn note_wait_error(&mut self) -> (fatal: bool)
        requires
            old(self).wf(),
        ensures
            final(self).wf(),
            fatal == old(self).wait_failed_once,
            final(self).wait_failed_once,
            final(self).peers == old(self).peers,
            final(self).table == old(self).table,
    {
        let fatal = self.wait_failed_once;
        self.wait_failed_once = true;
        fatal
    }

    /// Housekeeping is due when `now` has reached the scheduled time.
    pub fn due_housekeep(&self, now: u64) -> (r: bool)
        ensures
            r == (self.next_housekeep <= now),
    {
        self.next_housekeep <= now
    }

    /// The reconnect entries whose resolution is stale: the caller resolves
    /// their names and hands the results to `housekeep`.
    pub fn due_resolves(&self, now: u64) -> (out: Vec<usize>)
        ensures
            forall|i: int|
                0 <= i < out@.len() ==> (#[trigger] out@[i]) < self.reconnect@.len()
                    && self.reconnect@[out@[i] as int].next_resolve <= now,
            forall|k: int|
                0 <= k < self.reconnect@.len() && (#[trigger] self.reconnect@[k]).next_resolve
                    <= now ==> out@.contains(k as usize),
    {
        let n = self.reconnect.len();
        let mut out: Vec<usize> = Vec::new();
        let mut i: usize = 0;
        while i < n
            invariant
                n == self.reconnect@.len(),
                0 <= i <= n,
                forall|k: int|
                    0 <= k < out@.len() ==> (#[trigger] out@[k]) < n && self.reconnect@[
                        out@[k] as int
                    ].next_resolve <= now,
                forall|k: int|
                    0 <= k < i && (#[trigger] self.reconnect@[k]).next_resolve <= now
                        ==> out@.contains(k as usize),
            decreases n - i,
        {
            let ghost preout = out@;
            if self.reconnect[i].next_resolve <= now {
                out.push(i);
            }
            proof {
                crate::seq_help::lemma_push_contains(preout, i);
                assert forall|k: int|
                    0 <= k < i + 1 && (#[trigger] self.reconnect@[k]).next_resolve <= now
                        implies out@.contains(k as usize) by {
                    if k < i as int {
                        assert(preout.contains(k as usize));
                        let j = choose|j: int| 0 <= j < preout.len() && preout[j] == k as usize;
                        assert(out@[j] == k as usize);
                    } else {
                        assert(out@[out@.len() - 1] == i);
                    }
                }
            }
            i += 1;
        }
        out
    }

    /// The name of one reconnect entry, for the caller to resolve.
    pub fn reconnect_address(&self, i: usize) -> (r: &String)
        requires
            i < self.reconnect@.len(),
        ensures
            r == &self.reconnect@[i as int].address,
    {
        &self.reconnect[i].address
    }

    /// The primary addresses of all peers: the targets of a broadcast.
    pub fn peer_primaries(&self) -> (out: Vec<SockAddr>)
        ensures
            out@ == primaries_of(self.peers@),
    {
        let n = self.peers.records.len();
        let mut out: Vec<SockAddr> = Vec::new();
        let mut i: usize = 0;
        while i < n
            invariant
                n == self.peers@.len(),
                0 <= i <= n,
                out@.len() == i,
                forall|k: int| 0 <= k < i ==> out@[k] == self.peers@[k].primary,
            decreases n - i,
        {
            out.push(self.peers.records[i].primary);
            i += 1;
        }
        proof {
            assert(out@ =~= primaries_of(self.peers@));
        }
        out
    }
}

/// Elements of `claims_without_peer` come from the given sequence and
/// never belong to the removed peer.
proof fn lemma_cwp_elements(s: Seq<crate::claim_table::Claim>, p: SockAddr)
    ensures
        forall|i: int|
            0 <= i < claims_without_peer(s, p).len() ==> s.contains(
                #[trigger] claims_without_peer(s, p)[i],
            ) && claims_without_peer(s, p)[i].peer != p,
{
    let pred = |c: crate::claim_table::Claim| c.peer != p;
    crate::claim_table::lemma_claims_without_peer_is_filter(s, p, pred);
    crate::seq_help::lemma_filter_membership(s, pred);
}

proof fn lemma_cachewp_elements(s: Seq<crate::claim_table::CacheEntry>, p: SockAddr)
    ensures
        forall|i: int|
            0 <= i < cache_without_peer(s, p).len() ==> s.contains(
                #[trigger] cache_without_peer(s, p)[i],
            ) && cache_without_peer(s, p)[i].peer != p,
{
    let pred = |e: crate::claim_table::CacheEntry| e.peer != p;
    crate::claim_table::lemma_cache_without_peer_is_filter(s, p, pred);
    crate::seq_help::lemma_filter_membership(s, pred);
}

proof fn lemma_claims_unexpired_elements(s: Seq<crate::claim_table::Claim>, now: u64)
    ensures
        forall|i: int|
            0 <= i < claims_unexpired(s, now).len() ==> s.contains(
                #[trigger] claims_unexpired(s, now)[i],
            ) && claims_unexpired(s, now)[i].expiry >= now,
{
    let pred = |c: crate::claim_table::Claim| c.expiry >= now;
    crate::claim_table::lemma_claims_unexpired_is_filter(s, now, pred);
    crate::seq_help::lemma_filter_membership(s, pred);
}

proof fn lemma_cache_unexpired_elements(s: Seq<crate::claim_table::CacheEntry>, now: u64)
    ensures
        forall|i: int|
            0 <= i < cache_unexpired(s, now).len() ==> s.contains(
                #[trigger] cache_unexpired(s, now)[i],
            ) && cache_unexpired(s, now)[i].expiry >= now,
{
    let pred = |e: crate::claim_table::CacheEntry| e.expiry >= now;
    crate::claim_table::lemma_cache_unexpired_is_filter(s, now, pred);
    crate::seq_help::lemma_filter_membership(s, pred);
}

/// Some resolved address of the entry is currently a known peer address.
pub open spec fn entry_connected(e: ReconnectEntry, peers: Seq<PeerRecord>) -> bool {
    exists|k: int|
        0 <= k < e.resolved@.len() && #[trigger] addr_known_in(peers, e.resolved@[k])
}

/// How one housekeeping run evolves one reconnect entry.  A connected entry
/// resets its failures and backoff; a due unconnected entry takes one
/// failure step from its previous counters; an entry not yet due keeps
/// them.  The resolved addresses and the resolve schedule are pinned only
/// where no resolution can arrive, since the caller supplies resolutions.
pub open spec fn reconnect_tick_rel(
    pre: ReconnectEntry,
    post: ReconnectEntry,
    peers: Seq<PeerRecord>,
    now: u64,
) -> bool {
    if entry_connected(pre, peers) {
        crate::reconnect::success_rel(pre, post, now)
    } else if pre.next <= now {
        &&& post.next == now + pre.backoff
        &&& (pre.tries < 9 ==> post.tries == pre.tries + 1 && post.backoff == pre.backoff)
        &&& (pre.tries >= 9 ==> post.tries == 0 && post.backoff == (if pre.backoff <= 1800 {
            (2 * pre.backoff) as u16
        } else {
            3600u16
        }))
        &&& post.address == pre.address
    } else {
        &&& post.address == pre.address
        &&& post.tries == pre.tries
        &&& post.backoff == pre.backoff
        &&& post.next == pre.next
    }
}

/// Takes the resolution handed in for the entry at `idx`, if any.
fn take_resolution(rs: &mut Vec<(usize, Vec<SockAddr>)>, idx: usize) -> (r: Option<Vec<SockAddr>>)
{
    let n = rs.len();
    let mut j: usize = 0;
    while j < n
        invariant
            0 <= j <= n,
            n == rs@.len(),
        decreases n - j,
    {
        if rs[j].0 == idx {
            let pair = rs.remove(j);
            return Some(pair.1);
        }
        j += 1;
    }
    None
}

impl CloudEngine {
    /// One housekeeping run, at most once per second.  Expired peers are
    /// evicted with everything they owned; the table ages; a Peers gossip
    /// capped at the fan-out bound and free of own addresses is emitted
    /// when due; reconnect entries are resolved, dialled and backed off;
    /// the stats period closes and the beacon is scheduled when due.
    pub fn housekeep(&mut self, now: u64, resolutions: Vec<(usize, Vec<SockAddr>)>) -> (plan:
        HousekeepPlan)
        requires
            old(self).wf(),
            now <= MAX_TIME,
        ensures
            final(self).wf(),
            final(self).config == old(self).config,
            final(self).node_id == old(self).node_id,
            final(self).own_addresses == old(self).own_addresses,
            final(self).peers@ == peers_unexpired(old(self).peers@, now),
            forall|i: int|
                0 <= i < final(self).table.claims@.len() ==> {
                    let c = #[trigger] final(self).table.claims@[i];
                    &&& old(self).table.claims@.contains(c)
                    &&& c.expiry >= now
                    &&& !primaries_of(peers_expired(old(self).peers@, now)).contains(c.peer)
                },
            forall|i: int|
                0 <= i < final(self).table.cache@.len() ==> {
                    let e = #[trigger] final(self).table.cache@[i];
                    &&& old(self).table.cache@.contains(e)
                    &&& e.expiry >= now
                    &&& !primaries_of(peers_expired(old(self).peers@, now)).contains(e.peer)
                },
            (plan.gossip is Some) <==> old(self).next_peerlist <= now,
            old(self).next_peerlist <= now ==> final(self).next_peerlist == now + old(self).config.keepalive,
            old(self).next_peerlist > now ==> final(self).next_peerlist == old(self).next_peerlist,
            plan.gossip is Some ==> {
                let gl = plan.gossip.unwrap()@;
                &&& gl.len() <= GOSSIP_CAP
                &&& forall|i: int|
                    0 <= i < gl.len() ==> is_primary_in(final(self).peers@, #[trigger] gl[i])
                        && !old(self).own_addresses@.contains(gl[i])
                &&& forall|i: int, j: int| 0 <= i < j < gl.len() ==> gl[i] != gl[j]
                &&& (forall|a: SockAddr|
                    is_primary_in(final(self).peers@, a) ==> !old(self).own_addresses@.contains(
                        a,
                    )) ==> gl.len() == (if final(self).peers@.len() <= GOSSIP_CAP {
                    final(self).peers@.len() as int
                } else {
                    GOSSIP_CAP as int
                })
            },
            forall|i: int|
                0 <= i < plan.dials@.len() ==> !old(self).own_addresses@.contains(
                    (#[trigger] plan.dials@[i]).0,
                ) && is_dial_msg(plan.dials@[i].1, old(self).node_id, old(self).own_ranges@) && plan.dials@[i].1.wf(),
            final(self).reconnect@.len() == old(self).reconnect@.len(),
            forall|i: int|
                0 <= i < old(self).reconnect@.len() ==> reconnect_tick_rel(
                    #[trigger] old(self).reconnect@[i],
                    final(self).reconnect@[i],
                    final(self).peers@,
                    now,
                ),
            forall|i: int, k: int|
                #![trigger old(self).reconnect@[i].resolved@[k]]
                0 <= i < old(self).reconnect@.len() && old(self).reconnect@[i].next <= now && 0 <= k
                    < old(self).reconnect@[i].resolved@.len() && !addr_known_in(
                    final(self).peers@,
                    old(self).reconnect@[i].resolved@[k],
                ) && !old(self).own_addresses@.contains(old(self).reconnect@[i].resolved@[k])
                    ==> exists|j: int|
                    0 <= j < plan.dials@.len() && (#[trigger] plan.dials@[j]).0 == old(self).reconnect@[i].resolved@[k],
            final(self).traffic == old(self).traffic,
            plan.stats_due == (old(self).next_stats_out <= now),
            old(self).next_stats_out <= now ==> final(self).next_stats_out == now + STATS_INTERVAL
                && (plan.write_stats == old(self).config.has_stats_file),
            old(self).next_stats_out > now ==> final(self).next_stats_out == old(self).next_stats_out && !plan.write_stats,
            old(self).next_beacon <= now ==> final(self).next_beacon == now + old(self).config.beacon_interval && ((plan.store_beacon is Some) == old(self).config.has_beacon_store) && (plan.load_beacon == old(self).config.has_beacon_load),
            old(self).next_beacon > now ==> final(self).next_beacon == old(self).next_beacon
                && plan.store_beacon is None && !plan.load_beacon,
            plan.store_beacon is Some ==> {
                let bl = plan.store_beacon.unwrap()@;
                &&& bl.len() <= BEACON_CAP
                &&& forall|i: int|
                    0 <= i < bl.len() ==> old(self).own_addresses@.contains(#[trigger] bl[i])
            },
            final(self).next_housekeep == now + 1,
            !final(self).wait_failed_once,
    {
        // 1. evict timed-out peers, dropping what they owned
        let expired = self.peers.timeout(now);
        let ghost deadlist = expired@;
        proof {
            let pred = |r: PeerRecord| r.expiry >= now;
            crate::peer_list::lemma_peers_unexpired_is_filter(old(self).peers@, now, pred);
            old(self).peers@.lemma_filter_len(pred);
        }
        let n1 = expired.len();
        let mut i: usize = 0;
        while i < n1
            invariant
                self.wf(),
                n1 == deadlist.len(),
                expired@ == deadlist,
                0 <= i <= n1,
                self.peers@ == peers_unexpired(old(self).peers@, now),
                self.config == old(self).config,
                self.node_id == old(self).node_id,
                self.own_addresses == old(self).own_addresses,
                self.own_ranges == old(self).own_ranges,
                self.traffic == old(self).traffic,
                self.reconnect == old(self).reconnect,
                self.next_peerlist == old(self).next_peerlist,
                self.next_stats_out == old(self).next_stats_out,
                self.next_beacon == old(self).next_beacon,
                self.next_housekeep == old(self).next_housekeep,
                self.wait_failed_once == old(self).wait_failed_once,
                forall|ci: int|
                    0 <= ci < self.table.claims@.len() ==> old(self).table.claims@.contains(
                        #[trigger] self.table.claims@[ci],
                    ),
                forall|ci: int, k: int|
                    #![trigger self.table.claims@[ci], deadlist[k]]
                    0 <= ci < self.table.claims@.len() && 0 <= k < i ==> self.table.claims@[ci].peer != deadlist[k],
                forall|ci: int|
                    0 <= ci < self.table.cache@.len() ==> old(self).table.cache@.contains(
                        #[trigger] self.table.cache@[ci],
                    ),
                forall|ci: int, k: int|
                    #![trigger self.table.cache@[ci], deadlist[k]]
                    0 <= ci < self.table.cache@.len() && 0 <= k < i ==> self.table.cache@[ci].peer != deadlist[k],
            decreases n1 - i,
        {
            let ghost preclaims = self.table.claims@;
            let ghost precache = self.table.cache@;
            let p = expired[i];
            self.table.remove_all(p);
            proof {
                lemma_cwp_elements(preclaims, p);
                lemma_cachewp_elements(precache, p);
                assert forall|ci: int|
                    0 <= ci < self.table.claims@.len() implies old(self).table.claims@.contains(
                    #[trigger] self.table.claims@[ci],
                ) by {
                    assert(preclaims.contains(self.table.claims@[ci]));
                    let w = choose|w: int|
                        0 <= w < preclaims.len() && preclaims[w] == self.table.claims@[ci];
                    assert(old(self).table.claims@.contains(preclaims[w]));
                }
                assert forall|ci: int, k: int|
                    #![trigger self.table.claims@[ci], deadlist[k]]
                    0 <= ci < self.table.claims@.len() && 0 <= k < i + 1 implies self.table.claims@[ci].peer != deadlist[k] by {
                    if k < i as int {
                        assert(preclaims.contains(self.table.claims@[ci]));
                        let w = choose|w: int|
                            0 <= w < preclaims.len() && preclaims[w] == self.table.claims@[ci];
                        assert(preclaims[w].peer != deadlist[k]);
                    }
                }
                assert forall|ci: int|
                    0 <= ci < self.table.cache@.len() implies old(self).table.cache@.contains(
                    #[trigger] self.table.cache@[ci],
                ) by {
                    assert(precache.contains(self.table.cache@[ci]));
                    let w = choose|w: int|
                        0 <= w < precache.len() && precache[w] == self.table.cache@[ci];
                    assert(old(self).table.cache@.contains(precache[w]));
                }
                assert forall|ci: int, k: int|
                    #![trigger self.table.cache@[ci], deadlist[k]]
                    0 <= ci < self.table.cache@.len() && 0 <= k < i + 1 implies self.table.cache@[ci].peer != deadlist[k] by {
                    if k < i as int {
                        assert(precache.contains(self.table.cache@[ci]));
                        let w = choose|w: int|
                            0 <= w < precache.len() && precache[w] == self.table.cache@[ci];
                        assert(precache[w].peer != deadlist[k]);
                    }
                }
            }
            i += 1;
        }
        // 2. age the table
        let ghost midclaims = self.table.claims@;
        let ghost midcache = self.table.cache@;
        self.table.housekeep(now);
        proof {
            lemma_claims_unexpired_elements(midclaims, now);
            lemma_cache_unexpired_elements(midcache, now);
            assert forall|ci: int| 0 <= ci < self.table.claims@.len() implies {
                let c = #[trigger] self.table.claims@[ci];
                &&& old(self).table.claims@.contains(c)
                &&& c.expiry >= now
                &&& !primaries_of(peers_expired(old(self).peers@, now)).contains(c.peer)
            } by {
                assert(midclaims.contains(self.table.claims@[ci]));
                let w = choose|w: int|
                    0 <= w < midclaims.len() && midclaims[w] == self.table.claims@[ci];
                assert(old(self).table.claims@.contains(midclaims[w]));
                if primaries_of(peers_expired(old(self).peers@, now)).contains(
                    self.table.claims@[ci].peer,
                ) {
                    let k = choose|k: int|
                        0 <= k < deadlist.len() && deadlist[k] == self.table.claims@[ci].peer;
                    assert(midclaims[w].peer != deadlist[k]);
                }
            }
            assert forall|ci: int| 0 <= ci < self.table.cache@.len() implies {
                let e = #[trigger] self.table.cache@[ci];
                &&& old(self).table.cache@.contains(e)
                &&& e.expiry >= now
                &&& !primaries_of(peers_expired(old(self).peers@, now)).contains(e.peer)
            } by {
                assert(midcache.contains(self.table.cache@[ci]));
                let w = choose|w: int|
                    0 <= w < midcache.len() && midcache[w] == self.table.cache@[ci];
                assert(old(self).table.cache@.contains(midcache[w]));
                if primaries_of(peers_expired(old(self).peers@, now)).contains(
                    self.table.cache@[ci].peer,
                ) {
                    let k = choose|k: int|
                        0 <= k < deadlist.len() && deadlist[k] == self.table.cache@[ci].peer;
                    assert(midcache[w].peer != deadlist[k]);
                }
            }
        }
        // 3. gossip, capped and free of own addresses
        let gossip: Option<Vec<SockAddr>> = if self.next_peerlist <= now {
            let pl = self.peers.len();
            let k = if pl <= GOSSIP_CAP {
                pl
            } else {
                GOSSIP_CAP
            };
            let sample = self.peers.subset(k);
            let m = sample.len();
            let mut gl: Vec<SockAddr> = Vec::new();
            let mut si: usize = 0;
            while si < m
                invariant
                    self.wf(),
                    m == sample@.len(),
                    m <= GOSSIP_CAP,
                    0 <= si <= m,
                    forall|a: int| 0 <= a < m ==> is_primary_in(self.peers@, #[trigger] sample@[a]),
                    forall|a: int, b: int| 0 <= a < b < m ==> sample@[a] != sample@[b],
                    gl@.len() <= si,
                    forall|a: int|
                        0 <= a < gl@.len() ==> is_primary_in(self.peers@, #[trigger] gl@[a])
                            && !self.own_addresses@.contains(gl@[a]),
                    forall|a: int|
                        0 <= a < gl@.len() ==> exists|w: int|
                            0 <= w < si && #[trigger] gl@[a] == sample@[w],
                    forall|a: int, b: int| 0 <= a < b < gl@.len() ==> gl@[a] != gl@[b],
                    (forall|a: SockAddr|
                        is_primary_in(self.peers@, a) ==> !self.own_addresses@.contains(a))
                        ==> gl@.len() == si,
                decreases m - si,
            {
                if !contains_sockaddr(&self.own_addresses, sample[si]) {
                    proof {
                        assert forall|a: int, b: int|
                            0 <= a < b < gl@.len() + 1 implies (gl@.push(sample@[si as int]))[a]
                            != (gl@.push(sample@[si as int]))[b] by {
                            if b < gl@.len() {
                                assert(gl@[a] != gl@[b]);
                            } else {
                                let w = choose|w: int|
                                    0 <= w < si && #[trigger] gl@[a] == sample@[w];
                                assert(sample@[w] != sample@[si as int]);
                            }
                        }
                    }
                    gl.push(sample[si]);
                }
                si += 1;
            }
            self.next_peerlist = now + self.config.keepalive;
            Some(gl)
        } else {
            None
        };
        // 4. reconnect entries: dial, settle, resolve, back off
        let mut resolutions = resolutions;
        let mut dials: Vec<(SockAddr, Message)> = Vec::new();
        let total = self.reconnect.len();
        let mut done: Vec<ReconnectEntry> = Vec::new();
        let mut idx: usize = 0;
        let ghost tmid = self.table;
        let ghost npl = self.next_peerlist;
        let ghost oldrec = self.reconnect@;
        while self.reconnect.len() > 0
            invariant
                self.wf(),
                done@.len() == idx,
                idx + self.reconnect@.len() == total,
                total == oldrec.len(),
                oldrec == old(self).reconnect@,
                self.reconnect@ == oldrec.skip(idx as int),
                now <= MAX_TIME,
                self.peers@ == peers_unexpired(old(self).peers@, now),
                self.config == old(self).config,
                self.node_id == old(self).node_id,
                self.own_addresses == old(self).own_addresses,
                self.own_ranges == old(self).own_ranges,
                self.table == tmid,
                self.traffic == old(self).traffic,
                self.next_peerlist == npl,
                self.next_stats_out == old(self).next_stats_out,
                self.next_beacon == old(self).next_beacon,
                self.next_housekeep == old(self).next_housekeep,
                self.wait_failed_once == old(self).wait_failed_once,
                forall|a: int| 0 <= a < done@.len() ==> (#[trigger] done@[a]).wf(),
                forall|a: int|
                    0 <= a < dials@.len() ==> !self.own_addresses@.contains(
                        (#[trigger] dials@[a]).0,
                    ) && is_dial_msg(dials@[a].1, self.node_id, self.own_ranges@) && dials@[a].1.wf(),
                forall|a: int|
                    0 <= a < idx ==> reconnect_tick_rel(
                        #[trigger] oldrec[a],
                        done@[a],
                        self.peers@,
                        now,
                    ),
                forall|a: int, k: int|
                    #![trigger oldrec[a].resolved@[k]]
                    0 <= a < idx && oldrec[a].next <= now && 0 <= k < oldrec[a].resolved@.len()
                        && !addr_known_in(self.peers@, oldrec[a].resolved@[k])
                        && !self.own_addresses@.contains(oldrec[a].resolved@[k]) ==> exists|j: int|
                        0 <= j < dials@.len() && (#[trigger] dials@[j]).0
                            == oldrec[a].resolved@[k],
            decreases self.reconnect@.len(),
        {
            proof {
                assert(oldrec.skip(idx as int)[0] == oldrec[idx as int]);
                assert(oldrec.skip(idx as int).remove(0) =~= oldrec.skip(idx as int + 1));
            }
            let mut e = self.reconnect.remove(0);
            let ghost pre = oldrec[idx as int];
            if e.next <= now {
                let ghost predials = dials@;
                let mut tmp = self.connect(&e.resolved);
                let ghost tmpv = tmp@;
                dials.append(&mut tmp);
                proof {
                    assert forall|a: int, k: int|
                        #![trigger oldrec[a].resolved@[k]]
                        0 <= a < idx + 1 && oldrec[a].next <= now && 0 <= k
                            < oldrec[a].resolved@.len() && !addr_known_in(self.peers@, oldrec[a].resolved@[k])
                            && !self.own_addresses@.contains(oldrec[a].resolved@[k]) implies exists|
                        j: int,
                    |
                        0 <= j < dials@.len() && (#[trigger] dials@[j]).0
                            == oldrec[a].resolved@[k] by {
                        if a < idx as int {
                            let j = choose|j: int|
                                0 <= j < predials.len() && (#[trigger] predials[j]).0
                                    == oldrec[a].resolved@[k];
                            assert(dials@[j].0 == oldrec[a].resolved@[k]);
                        } else {
                            assert(pre.resolved@[k] == e.resolved@[k]);
                            let j = choose|j: int|
                                0 <= j < tmpv.len() && (#[trigger] tmpv[j]).0
                                    == e.resolved@[k];
                            assert(dials@[predials.len() + j].0 == oldrec[a].resolved@[k]);
                        }
                    }
                }
            }
            let connected = self.peers.is_connected(&e.resolved);
            proof {
                assert(connected == entry_connected(pre, self.peers@)) by {
                    if connected {
                        let k = choose|k: int|
                            0 <= k < e.resolved@.len() && #[trigger] addr_known_in(
                                self.peers@,
                                e.resolved@[k],
                            );
                        assert(addr_known_in(self.peers@, pre.resolved@[k]));
                    }
                    if entry_connected(pre, self.peers@) {
                        let k = choose|k: int|
                            0 <= k < pre.resolved@.len() && #[trigger] addr_known_in(
                                self.peers@,
                                pre.resolved@[k],
                            );
                        assert(addr_known_in(self.peers@, e.resolved@[k]));
                    }
                }
            }
            if connected {
                e.success_step(now);
            } else {
                match take_resolution(&mut resolutions, idx) {
                    Some(addrs) => {
                        e.apply_resolution(addrs, now);
                    },
                    None => {},
                }
                if e.next <= now {
                    e.fail_step(now);
                }
            }
            proof {
                assert(reconnect_tick_rel(pre, e, self.peers@, now));
            }
            done.push(e);
            idx += 1;
        }
        self.reconnect = done;
        // 5. stats schedule: the caller writes the report of a due tick and
        // then closes the period, so the report shows the period's counters
        let stats_due = self.next_stats_out <= now;
        let write_stats = if stats_due {
            self.next_stats_out = now + STATS_INTERVAL;
            self.config.has_stats_file
        } else {
            false
        };
        // 6. beacon
        let mut store_beacon: Option<Vec<SockAddr>> = None;
        let mut load_beacon = false;
        if self.next_beacon <= now {
            if self.config.has_beacon_store {
                let ol = self.own_addresses.len();
                let k = if ol <= BEACON_CAP {
                    ol
                } else {
                    BEACON_CAP
                };
                let picks = sample_indices(ol, k);
                let m = picks.len();
                let mut bl: Vec<SockAddr> = Vec::new();
                let mut bi: usize = 0;
                while bi < m
                    invariant
                        m == picks@.len(),
                        m <= BEACON_CAP,
                        0 <= bi <= m,
                        ol == self.own_addresses@.len(),
                        forall|a: int| 0 <= a < m ==> (#[trigger] picks@[a]) < ol,
                        bl@.len() == bi,
                        forall|a: int|
                            0 <= a < bl@.len() ==> self.own_addresses@.contains(#[trigger] bl@[a]),
                    decreases m - bi,
                {
                    let w = picks[bi];
                    bl.push(self.own_addresses[w]);
                    proof {
                        assert(self.own_addresses@[w as int] == bl@[bi as int]);
                    }
                    bi += 1;
                }
                store_beacon = Some(bl);
            }
            load_beacon = self.config.has_beacon_load;
            self.next_beacon = now + self.config.beacon_interval;
        }
        // 7. schedule the next run and clear the wait-error latch
        self.next_housekeep = now + 1;
        self.wait_failed_once = false;
        let ghost dialsv = dials@;
        let plan = HousekeepPlan { gossip, dials, stats_due, write_stats, store_beacon, load_beacon };
        proof {
            assert forall|i: int, k: int|
                #![trigger old(self).reconnect@[i].resolved@[k]]
                0 <= i < old(self).reconnect@.len() && old(self).reconnect@[i].next <= now && 0 <= k
                    < old(self).reconnect@[i].resolved@.len() && !addr_known_in(
                    self.peers@,
                    old(self).reconnect@[i].resolved@[k],
                ) && !old(self).own_addresses@.contains(old(self).reconnect@[i].resolved@[k])
                    implies exists|j: int|
                    0 <= j < plan.dials@.len() && (#[trigger] plan.dials@[j]).0 == old(self).reconnect@[i].resolved@[k] by {
                let x = old(self).reconnect@[i].resolved@[k];
                assert(oldrec[i].resolved@[k] == x);
                assert(!self.own_addresses@.contains(x));
                let j = choose|j: int| 0 <= j < dialsv.len() && (#[trigger] dialsv[j]).0 == x;
                assert(plan.dials@[j].0 == x);
            }
        }
        plan
    }

    /// Closes one traffic counting period: counters reset and idle rows
    /// age out, exactly as `period_peers`/`period_payload` state.  Called
    /// by the event loop right after a due tick's report is written, so the
    /// report shows the counters before the reset.
    pub fn close_stats_period(&mut self)
        requires
            old(self).wf(),
        ensures
            final(self).wf(),
            final(self).traffic.peers@ == crate::traffic::period_peers(
                old(self).traffic.peers@,
                Some(60u64),
            ),
            final(self).traffic.payload@ == crate::traffic::period_payload(
                old(self).traffic.payload@,
                Some(60u64),
            ),
            final(self).traffic.dropped == old(self).traffic.dropped,
            final(self).traffic.invalid == old(self).traffic.invalid,
            final(self).peers == old(self).peers,
            final(self).table == old(self).table,
            final(self).reconnect == old(self).reconnect,
            final(self).own_addresses == old(self).own_addresses,
            final(self).config == old(self).config,
            final(self).node_id == old(self).node_id,
            final(self).next_peerlist == old(self).next_peerlist,
            final(self).next_stats_out == old(self).next_stats_out,
            final(self).next_beacon == old(self).next_beacon,
            final(self).next_housekeep == old(self).next_housekeep,
            final(self).wait_failed_once == old(self).wait_failed_once,
    {
        self.traffic.period(Some(60));
    }
}

} // verus!
