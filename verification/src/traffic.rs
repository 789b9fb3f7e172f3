//! Traffic counters: per peer-socket byte and packet counters, per
//! inner-address-pair payload counters, and counters for dropped payload and
//! invalid protocol data.  Counters are reset each period; entries idle for
//! enough periods are evicted.

use vstd::prelude::*;
use crate::addr::{Addr, SockAddr, addr_eq};

verus! {

/// One counter set.  `idle` counts the consecutive finished periods in
/// which nothing was counted.
#[derive(Clone, Copy, PartialEq, Eq, Structural, Debug)]
pub struct TrafficEntry {
    pub in_bytes: u64,
    pub in_packets: u64,
    pub out_bytes: u64,
    pub out_packets: u64,
    pub idle: u64,
}

pub open spec fn zero_entry() -> TrafficEntry {
    TrafficEntry { in_bytes: 0, in_packets: 0, out_bytes: 0, out_packets: 0, idle: 0 }
}

/// Addition that stops at the counter's ceiling.
pub open spec fn sat_add(a: u64, b: u64) -> u64 {
    if a + b > u64::MAX {
        u64::MAX
    } else {
        (a + b) as u64
    }
}

fn sat_add_exec(a: u64, b: u64) -> (r: u64)
    ensures
        r == sat_add(a, b),
{
    if a <= u64::MAX - b {
        a + b
    } else {
        u64::MAX
    }
}

/// Something was counted against this entry in the current period.
pub open spec fn entry_active(e: TrafficEntry) -> bool {
    e.in_bytes > 0 || e.in_packets > 0 || e.out_bytes > 0 || e.out_packets > 0
}

/// What a period boundary does to one entry: counters reset, idle bumped or
/// cleared.
pub open spec fn entry_period(e: TrafficEntry) -> TrafficEntry {
    TrafficEntry {
        in_bytes: 0,
        in_packets: 0,
        out_bytes: 0,
        out_packets: 0,
        idle: if entry_active(e) {
            0
        } else {
            sat_add(e.idle, 1)
        },
    }
}

/// A peer-socket counter row.
pub struct PeerTraffic {
    pub peer: SockAddr,
    pub entry: TrafficEntry,
}

/// A payload counter row, keyed by the remote and local inner addresses.
pub struct PayloadTraffic {
    pub remote: Addr,
    pub local: Addr,
    pub entry: TrafficEntry,
}

/// A finished period applied to every row, dropping rows idle for at least
/// `cleanup` periods when a bound is given.
pub open spec fn period_peers(s: Seq<PeerTraffic>, cleanup: Option<u64>) -> Seq<PeerTraffic>
    decreases s.len(),
{
    if s.len() == 0 {
        s
    } else {
        let rest = period_peers(s.drop_last(), cleanup);
        let e = entry_period(s.last().entry);
        let keep = match cleanup {
            None => true,
            Some(c) => e.idle < c,
        };
        if keep {
            rest.push(PeerTraffic { peer: s.last().peer, entry: e })
        } else {
            rest
        }
    }
}

pub open spec fn period_payload(s: Seq<PayloadTraffic>, cleanup: Option<u64>) -> Seq<
    PayloadTraffic,
>
    decreases s.len(),
{
    if s.len() == 0 {
        s
    } else {
        let rest = period_payload(s.drop_last(), cleanup);
        let e = entry_period(s.last().entry);
        let keep = match cleanup {
            None => true,
            Some(c) => e.idle < c,
        };
        if keep {
            rest.push(PayloadTraffic { remote: s.last().remote, local: s.last().local, entry: e })
        } else {
            rest
        }
    }
}

proof fn lemma_period_peers_take_succ(s: Seq<PeerTraffic>, cleanup: Option<u64>, i: int)
    requires
        0 <= i < s.len(),
    ensures
        period_peers(s.take(i + 1), cleanup) == {
            let rest = period_peers(s.take(i), cleanup);
            let e = entry_period(s[i].entry);
            let keep = match cleanup {
                None => true,
                Some(c) => e.idle < c,
            };
            if keep {
                rest.push(PeerTraffic { peer: s[i].peer, entry: e })
            } else {
                rest
            }
        },
{
    assert(s.take(i + 1).drop_last() =~= s.take(i));
    assert(s.take(i + 1).last() == s[i]);
}

proof fn lemma_period_payload_take_succ(s: Seq<PayloadTraffic>, cleanup: Option<u64>, i: int)
    requires
        0 <= i < s.len(),
    ensures
        period_payload(s.take(i + 1), cleanup) == {
            let rest = period_payload(s.take(i), cleanup);
            let e = entry_period(s[i].entry);
            let keep = match cleanup {
                None => true,
                Some(c) => e.idle < c,
            };
            if keep {
                rest.push(PayloadTraffic { remote: s[i].remote, local: s[i].local, entry: e })
            } else {
                rest
            }
        },
{
    assert(s.take(i + 1).drop_last() =~= s.take(i));
    assert(s.take(i + 1).last() == s[i]);
}

pub open spec fn has_peer_row(s: Seq<PeerTraffic>, p: SockAddr) -> bool {
    exists|i: int| 0 <= i < s.len() && s[i].peer == p
}

pub open spec fn peer_row_index(s: Seq<PeerTraffic>, p: SockAddr) -> int {
    choose|i: int| 0 <= i < s.len() && s[i].peer == p
}

pub open spec fn has_payload_row(s: Seq<PayloadTraffic>, r: Seq<u8>, l: Seq<u8>) -> bool {
    exists|i: int| 0 <= i < s.len() && s[i].remote@ == r && s[i].local@ == l
}

pub open spec fn payload_row_index(s: Seq<PayloadTraffic>, r: Seq<u8>, l: Seq<u8>) -> int {
    choose|i: int| 0 <= i < s.len() && s[i].remote@ == r && s[i].local@ == l
}

/// What counting one payload datagram between `remote` and `local` does to
/// the payload rows: the matching row is bumped in the given direction, or
/// a fresh row is appended; every other row stays.
pub open spec fn payload_counted(
    pre: Seq<PayloadTraffic>,
    post: Seq<PayloadTraffic>,
    remote: Seq<u8>,
    local: Seq<u8>,
    bytes: u64,
    out: bool,
) -> bool {
    &&& has_payload_row(pre, remote, local) ==> {
        let i = payload_row_index(pre, remote, local);
        &&& post.len() == pre.len()
        &&& (forall|j: int| 0 <= j < pre.len() && j != i ==> post[j] == pre[j])
        &&& post[i].remote@ == remote
        &&& post[i].local@ == local
        &&& post[i].entry == bump(pre[i].entry, out, bytes)
    }
    &&& !has_payload_row(pre, remote, local) ==> {
        &&& post.len() == pre.len() + 1
        &&& post.drop_last() == pre
        &&& post.last().remote@ == remote
        &&& post.last().local@ == local
        &&& post.last().entry == bump(zero_entry(), out, bytes)
    }
}

/// All traffic counters of the node.
pub struct TrafficStats {
    pub peers: Vec<PeerTraffic>,
    pub payload: Vec<PayloadTraffic>,
    pub dropped: TrafficEntry,
    pub invalid: TrafficEntry,
}

/// What counting `bytes` in the given direction does to one entry.
pub open spec fn bump(e: TrafficEntry, out: bool, bytes: u64) -> TrafficEntry {
    if out {
        TrafficEntry {
            out_bytes: sat_add(e.out_bytes, bytes),
            out_packets: sat_add(e.out_packets, 1),
            ..e
        }
    } else {
        TrafficEntry {
            in_bytes: sat_add(e.in_bytes, bytes),
            in_packets: sat_add(e.in_packets, 1),
            ..e
        }
    }
}

impl TrafficStats {
    /// One row per peer socket; one row per inner address pair.
    pub open spec fn wf(&self) -> bool {
        &&& forall|p: int, q: int| 0 <= p < q < self.peers@.len() ==> self.peers@[p].peer
            != self.peers@[q].peer
        &&& forall|p: int, q: int|
            0 <= p < q < self.payload@.len() ==> !(self.payload@[p].remote@
                == self.payload@[q].remote@ && self.payload@[p].local@ == self.payload@[q].local@)
    }

    pub fn new() -> (r: TrafficStats)
        ensures
            r.wf(),
            r.peers@.len() == 0,
            r.payload@.len() == 0,
            r.dropped == zero_entry(),
            r.invalid == zero_entry(),
    {
        TrafficStats {
            peers: Vec::new(),
            payload: Vec::new(),
            dropped: TrafficEntry {
                in_bytes: 0,
                in_packets: 0,
                out_bytes: 0,
                out_packets: 0,
                idle: 0,
            },
            invalid: TrafficEntry {
                in_bytes: 0,
                in_packets: 0,
                out_bytes: 0,
                out_packets: 0,
                idle: 0,
            },
        }
    }

    fn index_of_peer(&self, p: SockAddr) -> (r: Option<usize>)
        requires
            self.wf(),
        ensures
            match r {
                Some(i) => has_peer_row(self.peers@, p) && i == peer_row_index(self.peers@, p) && 0
                    <= i < self.peers@.len() && self.peers@[i as int].peer == p,
                None => !has_peer_row(self.peers@, p),
            },
    {
        let n = self.peers.len();
        let mut i: usize = 0;
        while i < n
            invariant
                self.wf(),
                n == self.peers@.len(),
                0 <= i <= n,
                forall|k: int| 0 <= k < i ==> (#[trigger] self.peers@[k]).peer != p,
            decreases n - i,
        {
            if self.peers[i].peer == p {
                proof {
                    assert(has_peer_row(self.peers@, p)) by {
                        assert(self.peers@[i as int].peer == p);
                    }
                    let c = peer_row_index(self.peers@, p);
                    assert(0 <= c < self.peers@.len() && self.peers@[c].peer == p);
                    if c < i as int {
                        assert(false);
                    } else if c > i as int {
                        assert(self.peers@[i as int].peer != self.peers@[c].peer);
                        assert(false);
                    }
                }
                return Some(i);
            }
            i += 1;
        }
        None
    }

    /// Counts one datagram of `bytes` bytes against the peer, in the given
    /// direction.
    fn count_traffic(&mut self, peer: SockAddr, bytes: u64, out: bool)
        requires
            old(self).wf(),
        ensures
            final(self).wf(),
            final(self).payload@ == old(self).payload@,
            final(self).dropped == old(self).dropped,
            final(self).invalid == old(self).invalid,
            has_peer_row(old(self).peers@, peer) ==> {
                let i = peer_row_index(old(self).peers@, peer);
                &&& final(self).peers@.len() == old(self).peers@.len()
                &&& forall|j: int|
                    0 <= j < old(self).peers@.len() && j != i ==> final(self).peers@[j] == old(
                        self,
                    ).peers@[j]
                &&& final(self).peers@[i].peer == peer
                &&& final(self).peers@[i].entry == bump(old(self).peers@[i].entry, out, bytes)
            },
            !has_peer_row(old(self).peers@, peer) ==> {
                &&& final(self).peers@.len() == old(self).peers@.len() + 1
                &&& final(self).peers@.drop_last() == old(self).peers@
                &&& final(self).peers@.last().peer == peer
                &&& final(self).peers@.last().entry == bump(zero_entry(), out, bytes)
            },
    {
        match self.index_of_peer(peer) {
            Some(i) => {
                let ghost olds = self.peers@;
                let mut row = self.peers.remove(i);
                if out {
                    row.entry.out_bytes = sat_add_exec(row.entry.out_bytes, bytes);
                    row.entry.out_packets = sat_add_exec(row.entry.out_packets, 1);
                } else {
                    row.entry.in_bytes = sat_add_exec(row.entry.in_bytes, bytes);
                    row.entry.in_packets = sat_add_exec(row.entry.in_packets, 1);
                }
                self.peers.insert(i, row);
                proof {
                    assert forall|j: int|
                        0 <= j < olds.len() && j != i as int implies self.peers@[j] == olds[j] by {
                        if j < i as int {
                            assert(self.peers@[j] == olds.remove(i as int).insert(
                                i as int,
                                self.peers@[i as int],
                            )[j]);
                        }
                    }
                    assert forall|p: int, q: int| 0 <= p < q < self.peers@.len() implies self.peers@[p].peer != self.peers@[q].peer by {
                        assert(self.peers@[p].peer == olds[p].peer);
                        assert(self.peers@[q].peer == olds[q].peer);
                    }
                }
            },
            None => {
                let ghost olds = self.peers@;
                let entry = TrafficEntry {
                    in_bytes: 0,
                    in_packets: 0,
                    out_bytes: 0,
                    out_packets: 0,
                    idle: 0,
                };
                let mut row = PeerTraffic { peer, entry };
                if out {
                    row.entry.out_bytes = sat_add_exec(row.entry.out_bytes, bytes);
                    row.entry.out_packets = sat_add_exec(row.entry.out_packets, 1);
                } else {
                    row.entry.in_bytes = sat_add_exec(row.entry.in_bytes, bytes);
                    row.entry.in_packets = sat_add_exec(row.entry.in_packets, 1);
                }
                self.peers.push(row);
                proof {
                    assert(self.peers@.drop_last() =~= olds);
                    assert forall|p: int, q: int| 0 <= p < q < self.peers@.len() implies self.peers@[p].peer != self.peers@[q].peer by {
                        if q < olds.len() {
                            assert(self.peers@[p].peer == olds[p].peer);
                            assert(self.peers@[q].peer == olds[q].peer);
                        } else {
                            assert(self.peers@[p].peer == olds[p].peer);
                            if olds[p].peer == peer {
                                assert(has_peer_row(olds, peer));
                            }
                        }
                    }
                }
            },
        }
    }

    /// Counts a sent datagram against the peer.
    pub fn count_out_traffic(&mut self, peer: SockAddr, bytes: u64)
        requires
            old(self).wf(),
        ensures
            final(self).wf(),
            final(self).payload@ == old(self).payload@,
            final(self).dropped == old(self).dropped,
            final(self).invalid == old(self).invalid,
            has_peer_row(old(self).peers@, peer) ==> {
                let i = peer_row_index(old(self).peers@, peer);
                &&& final(self).peers@.len() == old(self).peers@.len()
                &&& forall|j: int|
                    0 <= j < old(self).peers@.len() && j != i ==> final(self).peers@[j] == old(
                        self,
                    ).peers@[j]
                &&& final(self).peers@[i].peer == peer
                &&& final(self).peers@[i].entry == bump(old(self).peers@[i].entry, true, bytes)
            },
            !has_peer_row(old(self).peers@, peer) ==> {
                &&& final(self).peers@.len() == old(self).peers@.len() + 1
                &&& final(self).peers@.drop_last() == old(self).peers@
                &&& final(self).peers@.last().peer == peer
                &&& final(self).peers@.last().entry == bump(zero_entry(), true, bytes)
            },
    {
        self.count_traffic(peer, bytes, true)
    }

    /// Counts a received datagram against the peer.
    pub fn count_in_traffic(&mut self, peer: SockAddr, bytes: u64)
        requires
            old(self).wf(),
        ensures
            final(self).wf(),
            final(self).payload@ == old(self).payload@,
            final(self).dropped == old(self).dropped,
            final(self).invalid == old(self).invalid,
            has_peer_row(old(self).peers@, peer) ==> {
                let i = peer_row_index(old(self).peers@, peer);
                &&& final(self).peers@.len() == old(self).peers@.len()
                &&& forall|j: int|
                    0 <= j < old(self).peers@.len() && j != i ==> final(self).peers@[j] == old(
                        self,
                    ).peers@[j]
                &&& final(self).peers@[i].peer == peer
                &&& final(self).peers@[i].entry == bump(old(self).peers@[i].entry, false, bytes)
            },
            !has_peer_row(old(self).peers@, peer) ==> {
                &&& final(self).peers@.len() == old(self).peers@.len() + 1
                &&& final(self).peers@.drop_last() == old(self).peers@
                &&& final(self).peers@.last().peer == peer
                &&& final(self).peers@.last().entry == bump(zero_entry(), false, bytes)
            },
    {
        self.count_traffic(peer, bytes, false)
    }

    fn index_of_payload(&self, remote: &Addr, local: &Addr) -> (r: Option<usize>)
        requires
            self.wf(),
        ensures
            match r {
                Some(i) => has_payload_row(self.payload@, remote@, local@) && i == payload_row_index(
                    self.payload@,
                    remote@,
                    local@,
                ) && 0 <= i < self.payload@.len() && self.payload@[i as int].remote@ == remote@
                    && self.payload@[i as int].local@ == local@,
                None => !has_payload_row(self.payload@, remote@, local@),
            },
    {
        let n = self.payload.len();
        let mut i: usize = 0;
        while i < n
            invariant
                self.wf(),
                n == self.payload@.len(),
                0 <= i <= n,
                forall|k: int|
                    0 <= k < i ==> !((#[trigger] self.payload@[k]).remote@ == remote@
                        && self.payload@[k].local@ == local@),
            decreases n - i,
        {
            if addr_eq(&self.payload[i].remote, remote) && addr_eq(&self.payload[i].local, local) {
                proof {
                    assert(has_payload_row(self.payload@, remote@, local@)) by {
                        assert(self.payload@[i as int].remote@ == remote@ && self.payload@[i as int].local@ == local@);
                    }
                    let c = payload_row_index(self.payload@, remote@, local@);
                    assert(0 <= c < self.payload@.len() && self.payload@[c].remote@ == remote@
                        && self.payload@[c].local@ == local@);
                    if c != i as int {
                        assert(false);
                    }
                }
                return Some(i);
            }
            i += 1;
        }
        None
    }

    /// Counts payload bytes between a remote and a local inner address.
    fn count_payload(&mut self, remote: &Addr, local: &Addr, bytes: u64, out: bool)
        requires
            old(self).wf(),
        ensures
            final(self).wf(),
            final(self).peers@ == old(self).peers@,
            final(self).dropped == old(self).dropped,
            final(self).invalid == old(self).invalid,
            has_payload_row(old(self).payload@, remote@, local@) ==> {
                let i = payload_row_index(old(self).payload@, remote@, local@);
                &&& final(self).payload@.len() == old(self).payload@.len()
                &&& forall|j: int|
                    0 <= j < old(self).payload@.len() && j != i ==> final(self).payload@[j] == old(
                        self,
                    ).payload@[j]
                &&& final(self).payload@[i].remote@ == remote@
                &&& final(self).payload@[i].local@ == local@
                &&& final(self).payload@[i].entry == bump(
                    old(self).payload@[i].entry,
                    out,
                    bytes,
                )
            },
            !has_payload_row(old(self).payload@, remote@, local@) ==> {
                &&& final(self).payload@.len() == old(self).payload@.len() + 1
                &&& final(self).payload@.drop_last() == old(self).payload@
                &&& final(self).payload@.last().remote@ == remote@
                &&& final(self).payload@.last().local@ == local@
                &&& final(self).payload@.last().entry == bump(zero_entry(), out, bytes)
            },
    {
        match self.index_of_payload(remote, local) {
            Some(i) => {
                let ghost olds = self.payload@;
                let mut row = self.payload.remove(i);
                if out {
                    row.entry.out_bytes = sat_add_exec(row.entry.out_bytes, bytes);
                    row.entry.out_packets = sat_add_exec(row.entry.out_packets, 1);
                } else {
                    row.entry.in_bytes = sat_add_exec(row.entry.in_bytes, bytes);
                    row.entry.in_packets = sat_add_exec(row.entry.in_packets, 1);
                }
                self.payload.insert(i, row);
                proof {
                    assert forall|j: int|
                        0 <= j < olds.len() && j != i as int implies self.payload@[j]
                        == olds[j] by {
                        if j < i as int {
                            assert(self.payload@[j] == olds.remove(i as int).insert(
                                i as int,
                                self.payload@[i as int],
                            )[j]);
                        }
                    }
                    assert forall|p: int, q: int|
                        #![trigger self.payload@[p], self.payload@[q]]
                        0 <= p < q < self.payload@.len() implies !(self.payload@[p].remote@ == self.payload@[q].remote@ && self.payload@[p].local@ == self.payload@[q].local@) by {
                        assert(self.payload@[p].remote@ == olds[p].remote@ && self.payload@[p].local@ == olds[p].local@);
                        assert(self.payload@[q].remote@ == olds[q].remote@ && self.payload@[q].local@ == olds[q].local@);
                    }
                }
            },
            None => {
                let ghost olds = self.payload@;
                let entry = TrafficEntry {
                    in_bytes: 0,
                    in_packets: 0,
                    out_bytes: 0,
                    out_packets: 0,
                    idle: 0,
                };
                let r2 = crate::claim_table::clone_addr(remote);
                let l2 = crate::claim_table::clone_addr(local);
                let mut row = PayloadTraffic { remote: r2, local: l2, entry };
                if out {
                    row.entry.out_bytes = sat_add_exec(row.entry.out_bytes, bytes);
                    row.entry.out_packets = sat_add_exec(row.entry.out_packets, 1);
                } else {
                    row.entry.in_bytes = sat_add_exec(row.entry.in_bytes, bytes);
                    row.entry.in_packets = sat_add_exec(row.entry.in_packets, 1);
                }
                self.payload.push(row);
                proof {
                    assert(self.payload@.drop_last() =~= olds);
                    assert forall|p: int, q: int|
                        #![trigger self.payload@[p], self.payload@[q]]
                        0 <= p < q < self.payload@.len() implies !(self.payload@[p].remote@ == self.payload@[q].remote@ && self.payload@[p].local@ == self.payload@[q].local@) by {
                        if q < olds.len() {
                            assert(self.payload@[p].remote@ == olds[p].remote@ && self.payload@[p].local@ == olds[p].local@);
                            assert(self.payload@[q].remote@ == olds[q].remote@ && self.payload@[q].local@ == olds[q].local@);
                        } else {
                            assert(self.payload@[p].remote@ == olds[p].remote@ && self.payload@[p].local@ == olds[p].local@);
                            if olds[p].remote@ == remote@ && olds[p].local@ == local@ {
                                assert(has_payload_row(olds, remote@, local@));
                            }
                        }
                    }
                }
            },
        }
    }

    /// Counts payload sent towards the remote inner address.
    pub fn count_out_payload(&mut self, remote: &Addr, local: &Addr, bytes: u64)
        requires
            old(self).wf(),
        ensures
            final(self).wf(),
            final(self).peers@ == old(self).peers@,
            final(self).dropped == old(self).dropped,
            final(self).invalid == old(self).invalid,
            payload_counted(old(self).payload@, final(self).payload@, remote@, local@, bytes, true),
    {
        self.count_payload(remote, local, bytes, true)
    }

    /// Counts payload received from the remote inner address.
    pub fn count_in_payload(&mut self, remote: &Addr, local: &Addr, bytes: u64)
        requires
            old(self).wf(),
        ensures
            final(self).wf(),
            final(self).peers@ == old(self).peers@,
            final(self).dropped == old(self).dropped,
            final(self).invalid == old(self).invalid,
            payload_counted(
                old(self).payload@,
                final(self).payload@,
                remote@,
                local@,
                bytes,
                false,
            ),
    {
        self.count_payload(remote, local, bytes, false)
    }

    /// Counts payload dropped for want of a destination.
    pub fn count_dropped_payload(&mut self, bytes: u64)
        requires
            old(self).wf(),
        ensures
            final(self).wf(),
            final(self).peers@ == old(self).peers@,
            final(self).payload@ == old(self).payload@,
            final(self).invalid == old(self).invalid,
            final(self).dropped == bump(old(self).dropped, false, bytes),
    {
        self.dropped.in_bytes = sat_add_exec(self.dropped.in_bytes, bytes);
        self.dropped.in_packets = sat_add_exec(self.dropped.in_packets, 1);
    }

    /// Counts data whose inner protocol could not be parsed.
    pub fn count_invalid_protocol(&mut self, bytes: u64)
        requires
            old(self).wf(),
        ensures
            final(self).wf(),
            final(self).peers@ == old(self).peers@,
            final(self).payload@ == old(self).payload@,
            final(self).dropped == old(self).dropped,
            final(self).invalid == bump(old(self).invalid, false, bytes),
    {
        self.invalid.in_bytes = sat_add_exec(self.invalid.in_bytes, bytes);
        self.invalid.in_packets = sat_add_exec(self.invalid.in_packets, 1);
    }

    /// Closes a counting period: every row's counters reset, idle rows aged
    /// and, with a bound given, evicted.
    pub fn period(&mut self, cleanup_idle: Option<u64>)
        requires
            old(self).wf(),
        ensures
            final(self).wf(),
            final(self).dropped == old(self).dropped,
            final(self).invalid == old(self).invalid,
            final(self).peers@ == period_peers(old(self).peers@, cleanup_idle),
            final(self).payload@ == period_payload(old(self).payload@, cleanup_idle),
    {
        let ghost oldp = self.peers@;
        let mut keptp: Vec<PeerTraffic> = Vec::new();
        let ghost mut i: int = 0;
        while self.peers.len() > 0
            invariant
                0 <= i <= oldp.len(),
                self.peers@ == oldp.skip(i),
                keptp@ == period_peers(oldp.take(i), cleanup_idle),
                self.payload@ == old(self).payload@,
                self.dropped == old(self).dropped,
                self.invalid == old(self).invalid,
            decreases self.peers@.len(),
        {
            proof {
                lemma_period_peers_take_succ(oldp, cleanup_idle, i);
                assert(oldp.skip(i)[0] == oldp[i]);
                assert(oldp.skip(i).remove(0) =~= oldp.skip(i + 1));
            }
            let mut row = self.peers.remove(0);
            let active = row.entry.in_bytes > 0 || row.entry.in_packets > 0 || row.entry.out_bytes
                > 0 || row.entry.out_packets > 0;
            let idle = if active {
                0
            } else {
                sat_add_exec(row.entry.idle, 1)
            };
            row.entry = TrafficEntry {
                in_bytes: 0,
                in_packets: 0,
                out_bytes: 0,
                out_packets: 0,
                idle,
            };
            let keep = match cleanup_idle {
                None => true,
                Some(c) => idle < c,
            };
            if keep {
                keptp.push(row);
            }
            proof {
                i = i + 1;
            }
        }
        proof {
            assert(i == oldp.len());
            assert(oldp.take(i) =~= oldp);
        }
        self.peers = keptp;
        let ghost oldq = self.payload@;
        let mut keptq: Vec<PayloadTraffic> = Vec::new();
        let ghost mut j: int = 0;
        while self.payload.len() > 0
            invariant
                0 <= j <= oldq.len(),
                self.payload@ == oldq.skip(j),
                keptq@ == period_payload(oldq.take(j), cleanup_idle),
                self.peers@ == period_peers(oldp, cleanup_idle),
                self.dropped == old(self).dropped,
                self.invalid == old(self).invalid,
            decreases self.payload@.len(),
        {
            proof {
                lemma_period_payload_take_succ(oldq, cleanup_idle, j);
                assert(oldq.skip(j)[0] == oldq[j]);
                assert(oldq.skip(j).remove(0) =~= oldq.skip(j + 1));
            }
            let mut row = self.payload.remove(0);
            let active = row.entry.in_bytes > 0 || row.entry.in_packets > 0 || row.entry.out_bytes
                > 0 || row.entry.out_packets > 0;
            let idle = if active {
                0
            } else {
                sat_add_exec(row.entry.idle, 1)
            };
            row.entry = TrafficEntry {
                in_bytes: 0,
                in_packets: 0,
                out_bytes: 0,
                out_packets: 0,
                idle,
            };
            let keep = match cleanup_idle {
                None => true,
                Some(c) => idle < c,
            };
            if keep {
                keptq.push(row);
            }
            proof {
                j = j + 1;
            }
        }
        proof {
            assert(j == oldq.len());
            assert(oldq.take(j) =~= oldq);
            lemma_period_peers_distinct(oldp, cleanup_idle);
            lemma_period_payload_distinct(oldq, cleanup_idle);
        }
        self.payload = keptq;
    }

    /// The sum of all peer-socket counters, each field saturating.
    pub fn total_peer_traffic(&self) -> (r: TrafficEntry)
        ensures
            r == total_peers(self.peers@),
    {
        let n = self.peers.len();
        let mut acc = TrafficEntry { in_bytes: 0, in_packets: 0, out_bytes: 0, out_packets: 0, idle: 0 };
        let mut i: usize = 0;
        while i < n
            invariant
                n == self.peers@.len(),
                0 <= i <= n,
                acc == total_peers(self.peers@.take(i as int)),
            decreases n - i,
        {
            proof {
                lemma_total_peers_take_succ(self.peers@, i as int);
            }
            acc = entry_add(acc, self.peers[i].entry);
            i += 1;
        }
        proof {
            assert(self.peers@.take(n as int) =~= self.peers@);
        }
        acc
    }

    /// The sum of all payload counters, each field saturating.
    pub fn total_payload_traffic(&self) -> (r: TrafficEntry)
        ensures
            r == total_payload(self.payload@),
    {
        let n = self.payload.len();
        let mut acc = TrafficEntry { in_bytes: 0, in_packets: 0, out_bytes: 0, out_packets: 0, idle: 0 };
        let mut i: usize = 0;
        while i < n
            invariant
                n == self.payload@.len(),
                0 <= i <= n,
                acc == total_payload(self.payload@.take(i as int)),
            decreases n - i,
        {
            proof {
                lemma_total_payload_take_succ(self.payload@, i as int);
            }
            acc = entry_add(acc, self.payload[i].entry);
            i += 1;
        }
        proof {
            assert(self.payload@.take(n as int) =~= self.payload@);
        }
        acc
    }

    pub fn peer_rows(&self) -> (r: usize)
        ensures
            r == self.peers@.len(),
    {
        self.peers.len()
    }

    pub fn payload_rows(&self) -> (r: usize)
        ensures
            r == self.payload@.len(),
    {
        self.payload.len()
    }
}

/// The saturating field-wise sum of two counter sets; idle is not summed.
pub open spec fn spec_entry_add(a: TrafficEntry, b: TrafficEntry) -> TrafficEntry {
    TrafficEntry {
        in_bytes: sat_add(a.in_bytes, b.in_bytes),
        in_packets: sat_add(a.in_packets, b.in_packets),
        out_bytes: sat_add(a.out_bytes, b.out_bytes),
        out_packets: sat_add(a.out_packets, b.out_packets),
        idle: 0,
    }
}

fn entry_add(a: TrafficEntry, b: TrafficEntry) -> (r: TrafficEntry)
    ensures
        r == spec_entry_add(a, b),
{
    TrafficEntry {
        in_bytes: sat_add_exec(a.in_bytes, b.in_bytes),
        in_packets: sat_add_exec(a.in_packets, b.in_packets),
        out_bytes: sat_add_exec(a.out_bytes, b.out_bytes),
        out_packets: sat_add_exec(a.out_packets, b.out_packets),
        idle: 0,
    }
}

/// The running total over all peer rows, folded front to back.
pub open spec fn total_peers(s: Seq<PeerTraffic>) -> TrafficEntry
    decreases s.len(),
{
    if s.len() == 0 {
        TrafficEntry { in_bytes: 0, in_packets: 0, out_bytes: 0, out_packets: 0, idle: 0 }
    } else {
        spec_entry_add(total_peers(s.drop_last()), s.last().entry)
    }
}

/// The running total over all payload rows, folded front to back.
pub open spec fn total_payload(s: Seq<PayloadTraffic>) -> TrafficEntry
    decreases s.len(),
{
    if s.len() == 0 {
        TrafficEntry { in_bytes: 0, in_packets: 0, out_bytes: 0, out_packets: 0, idle: 0 }
    } else {
        spec_entry_add(total_payload(s.drop_last()), s.last().entry)
    }
}

proof fn lemma_total_peers_take_succ(s: Seq<PeerTraffic>, i: int)
    requires
        0 <= i < s.len(),
    ensures
        total_peers(s.take(i + 1)) == spec_entry_add(total_peers(s.take(i)), s[i].entry),
{
    assert(s.take(i + 1).drop_last() =~= s.take(i));
    assert(s.take(i + 1).last() == s[i]);
}

proof fn lemma_total_payload_take_succ(s: Seq<PayloadTraffic>, i: int)
    requires
        0 <= i < s.len(),
    ensures
        total_payload(s.take(i + 1)) == spec_entry_add(total_payload(s.take(i)), s[i].entry),
{
    assert(s.take(i + 1).drop_last() =~= s.take(i));
    assert(s.take(i + 1).last() == s[i]);
}

/// Distinct peer keys survive a period.
proof fn lemma_period_peers_distinct(s: Seq<PeerTraffic>, cleanup: Option<u64>)
    requires
        forall|p: int, q: int| 0 <= p < q < s.len() ==> s[p].peer != s[q].peer,
    ensures
        forall|p: int, q: int|
            0 <= p < q < period_peers(s, cleanup).len() ==> period_peers(s, cleanup)[p].peer
                != period_peers(s, cleanup)[q].peer,
        forall|p: int|
            0 <= p < period_peers(s, cleanup).len() ==> exists|w: int|
                0 <= w < s.len() && #[trigger] period_peers(s, cleanup)[p].peer == s[w].peer,
    decreases s.len(),
{
    if s.len() > 0 {
        let dl = s.drop_last();
        assert forall|p: int, q: int| 0 <= p < q < dl.len() implies dl[p].peer != dl[q].peer by {
            assert(s[p] == dl[p] && s[q] == dl[q]);
        }
        lemma_period_peers_distinct(dl, cleanup);
        let f = period_peers(s, cleanup);
        let fd = period_peers(dl, cleanup);
        assert forall|p: int| 0 <= p < f.len() implies exists|w: int|
            0 <= w < s.len() && #[trigger] f[p].peer == s[w].peer by {
            if p < fd.len() {
                assert(fd[p].peer == f[p].peer);
                let w = choose|w: int| 0 <= w < dl.len() && fd[p].peer == dl[w].peer;
                assert(f[p].peer == s[w].peer);
            } else {
                assert(f[p].peer == s[s.len() - 1].peer);
            }
        }
        assert forall|p: int, q: int| 0 <= p < q < f.len() implies f[p].peer != f[q].peer by {
            if q < fd.len() {
                assert(f[p] == fd[p] && f[q] == fd[q]);
            } else if q == fd.len() && f.len() > fd.len() {
                assert(f[q].peer == s[s.len() - 1].peer);
                assert(fd[p].peer == f[p].peer);
                let w = choose|w: int| 0 <= w < dl.len() && fd[p].peer == dl[w].peer;
                assert(s[w].peer != s[s.len() - 1].peer);
            }
        }
    }
}

/// Distinct payload keys survive a period.
proof fn lemma_period_payload_distinct(s: Seq<PayloadTraffic>, cleanup: Option<u64>)
    requires
        forall|p: int, q: int|
            0 <= p < q < s.len() ==> !(s[p].remote@ == s[q].remote@ && s[p].local@ == s[q].local@),
    ensures
        forall|p: int, q: int|
            0 <= p < q < period_payload(s, cleanup).len() ==> !(period_payload(s, cleanup)[p].remote@
                == period_payload(s, cleanup)[q].remote@ && period_payload(s, cleanup)[p].local@
                == period_payload(s, cleanup)[q].local@),
    decreases s.len(),
{
    if s.len() > 0 {
        let dl = s.drop_last();
        assert forall|p: int, q: int| 0 <= p < q < dl.len() implies !(dl[p].remote@ == dl[q].remote@
            && dl[p].local@ == dl[q].local@) by {
            assert(s[p] == dl[p] && s[q] == dl[q]);
        }
        lemma_period_payload_distinct(dl, cleanup);
        lemma_period_payload_origin(dl, cleanup);
        let f = period_payload(s, cleanup);
        let fd = period_payload(dl, cleanup);
        assert forall|p: int, q: int| 0 <= p < q < f.len() implies !(f[p].remote@ == f[q].remote@
            && f[p].local@ == f[q].local@) by {
            if q < fd.len() {
                assert(f[p] == fd[p] && f[q] == fd[q]);
            } else if q == fd.len() && f.len() > fd.len() {
                assert(f[q].remote@ == s[s.len() - 1].remote@ && f[q].local@ == s[s.len()
                    - 1].local@);
                assert(fd[p] == f[p]);
                let w = choose|w: int|
                    0 <= w < dl.len() && #[trigger] dl[w].remote@ == fd[p].remote@ && dl[w].local@
                        == fd[p].local@;
                assert(!(s[w].remote@ == s[s.len() - 1].remote@ && s[w].local@ == s[s.len()
                    - 1].local@));
            }
        }
    }
}

/// Every surviving payload row keeps the key of a row it came from.
proof fn lemma_period_payload_origin(s: Seq<PayloadTraffic>, cleanup: Option<u64>)
    ensures
        forall|p: int|
            0 <= p < period_payload(s, cleanup).len() ==> exists|w: int|
                0 <= w < s.len() && (#[trigger] s[w]).remote@ == (#[trigger] period_payload(
                    s,
                    cleanup,
                )[p]).remote@ && s[w].local@ == period_payload(s, cleanup)[p].local@,
    decreases s.len(),
{
    if s.len() > 0 {
        let dl = s.drop_last();
        lemma_period_payload_origin(dl, cleanup);
        let f = period_payload(s, cleanup);
        let fd = period_payload(dl, cleanup);
        assert forall|p: int| 0 <= p < f.len() implies exists|w: int|
            0 <= w < s.len() && (#[trigger] s[w]).remote@ == (#[trigger] f[p]).remote@
                && s[w].local@ == f[p].local@ by {
            if p < fd.len() {
                assert(fd[p] == f[p]);
                let w = choose|w: int|
                    0 <= w < dl.len() && #[trigger] dl[w].remote@ == fd[p].remote@ && dl[w].local@
                        == fd[p].local@;
                assert(s[w].remote@ == f[p].remote@ && s[w].local@ == f[p].local@);
            } else {
                assert(s[s.len() - 1].remote@ == f[p].remote@ && s[s.len() - 1].local@
                    == f[p].local@);
            }
        }
    }
}

} // verus!
