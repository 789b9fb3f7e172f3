//! The peer set: one record per node, reachable through a primary socket
//! address and any number of alternate addresses.  Every mutating operation
//! keeps the three logical indices — primary address to record, node id to
//! primary address, any known address to node id — in agreement; here they
//! are all derived from one well-formed sequence of records.

use vstd::prelude::*;
use crate::addr::{NodeId, SockAddr};
use crate::rng::sample_indices;
use crate::seq_help::{
    lemma_filter_take_succ, lemma_filter_take_all, lemma_filter_membership,
    lemma_filter_all_true, lemma_filter_skips_one, lemma_push_contains,
};

verus! {

/// One peer: its node id, primary address, expiry time and alternate
/// addresses.
pub struct PeerRecord {
    pub node_id: NodeId,
    pub primary: SockAddr,
    pub expiry: u64,
    pub alternates: Vec<SockAddr>,
}

/// The record reaches the address: it is the primary or an alternate.
pub open spec fn rec_has_addr(r: PeerRecord, a: SockAddr) -> bool {
    r.primary == a || r.alternates@.contains(a)
}

/// The alternate list holds no duplicates and not the primary.
pub open spec fn rec_wf(r: PeerRecord) -> bool {
    &&& !r.alternates@.contains(r.primary)
    &&& forall|p: int, q: int|
        0 <= p < q < r.alternates@.len() ==> r.alternates@[p] != r.alternates@[q]
}

pub open spec fn has_node_in(s: Seq<PeerRecord>, n: NodeId) -> bool {
    exists|i: int| 0 <= i < s.len() && s[i].node_id == n
}

pub open spec fn node_index_in(s: Seq<PeerRecord>, n: NodeId) -> int {
    choose|i: int| 0 <= i < s.len() && s[i].node_id == n
}

pub open spec fn is_primary_in(s: Seq<PeerRecord>, a: SockAddr) -> bool {
    exists|i: int| 0 <= i < s.len() && s[i].primary == a
}

pub open spec fn primary_index_in(s: Seq<PeerRecord>, a: SockAddr) -> int {
    choose|i: int| 0 <= i < s.len() && s[i].primary == a
}

/// The address is reachable: some record has it as primary or alternate.
pub open spec fn addr_known_in(s: Seq<PeerRecord>, a: SockAddr) -> bool {
    exists|i: int| 0 <= i < s.len() && rec_has_addr(s[i], a)
}

pub open spec fn owner_index_in(s: Seq<PeerRecord>, a: SockAddr) -> int {
    choose|i: int| 0 <= i < s.len() && rec_has_addr(s[i], a)
}

/// Coherence of the peer set: node ids are unique, no address is reachable
/// through two records, and every record is well formed.  Uniqueness of
/// primary addresses follows, so the three indices derived from the sequence
/// agree.
pub open spec fn peers_wf(s: Seq<PeerRecord>) -> bool {
    &&& forall|i: int, j: int| 0 <= i < j < s.len() ==> s[i].node_id != s[j].node_id
    &&& forall|i: int, j: int, a: SockAddr|
        #![trigger rec_has_addr(s[i], a), rec_has_addr(s[j], a)]
        0 <= i < s.len() && 0 <= j < s.len() && i != j ==> !(rec_has_addr(s[i], a)
            && rec_has_addr(s[j], a))
    &&& forall|i: int| 0 <= i < s.len() ==> rec_wf(#[trigger] s[i])
}

/// Well-formedness carries over to any filtered subsequence.
pub proof fn lemma_peers_wf_filter(s: Seq<PeerRecord>, pred: spec_fn(PeerRecord) -> bool)
    requires
        peers_wf(s),
    ensures
        peers_wf(s.filter(pred)),
    decreases s.len(),
{
    reveal(Seq::filter);
    if s.len() > 0 {
        let dl = s.drop_last();
        assert forall|i: int, j: int| 0 <= i < j < dl.len() implies dl[i].node_id
            != dl[j].node_id by {
            assert(s[i] == dl[i] && s[j] == dl[j]);
        }
        assert forall|i: int, j: int, a: SockAddr|
            0 <= i < dl.len() && 0 <= j < dl.len() && i != j implies !(#[trigger] rec_has_addr(
            dl[i],
            a,
        ) && #[trigger] rec_has_addr(dl[j], a)) by {
            assert(rec_has_addr(s[i], a) == rec_has_addr(dl[i], a));
            assert(rec_has_addr(s[j], a) == rec_has_addr(dl[j], a));
        }
        assert forall|i: int| 0 <= i < dl.len() implies rec_wf(#[trigger] dl[i]) by {
            assert(dl[i] == s[i]);
        }
        lemma_peers_wf_filter(dl, pred);
        lemma_filter_membership(dl, pred);
        let f = s.filter(pred);
        let fd = dl.filter(pred);
        if pred(s.last()) {
            assert(f == fd.push(s.last()));
            let last = s.last();
            assert forall|i: int, j: int| 0 <= i < j < f.len() implies f[i].node_id
                != f[j].node_id by {
                if j < fd.len() {
                    assert(fd[i] == f[i] && fd[j] == f[j]);
                } else {
                    assert(f[j] == last);
                    assert(fd[i] == f[i]);
                    assert(dl.contains(fd[i]));
                    let k = choose|k: int| 0 <= k < dl.len() && dl[k] == fd[i];
                    assert(s[k] == fd[i]);
                    assert(s[k].node_id != s[s.len() - 1].node_id);
                }
            }
            assert forall|i: int, j: int, a: SockAddr|
                0 <= i < f.len() && 0 <= j < f.len() && i != j implies !(#[trigger] rec_has_addr(
                f[i],
                a,
            ) && #[trigger] rec_has_addr(f[j], a)) by {
                if i < fd.len() && j < fd.len() {
                    assert(rec_has_addr(fd[i], a) == rec_has_addr(f[i], a));
                    assert(rec_has_addr(fd[j], a) == rec_has_addr(f[j], a));
                } else {
                    let (fi, fj) = if i < j { (i, j) } else { (j, i) };
                    assert(f[fj] == last);
                    assert(dl.contains(fd[fi]));
                    let k = choose|k: int| 0 <= k < dl.len() && dl[k] == fd[fi];
                    assert(s[k] == f[fi]);
                    assert(rec_has_addr(s[k], a) == rec_has_addr(f[fi], a));
                    assert(rec_has_addr(s[s.len() - 1], a) == rec_has_addr(last, a));
                }
            }
            assert forall|i: int| 0 <= i < f.len() implies rec_wf(#[trigger] f[i]) by {
                if i < fd.len() {
                    assert(f[i] == fd[i]);
                } else {
                    assert(f[i] == last && last == s[s.len() - 1]);
                }
            }
        }
    }
}

/// The record sequence with the record whose primary is `a` dropped.
pub open spec fn peers_without_primary(s: Seq<PeerRecord>, a: SockAddr) -> Seq<PeerRecord>
    decreases s.len(),
{
    if s.len() == 0 {
        s
    } else {
        let rest = peers_without_primary(s.drop_last(), a);
        if s.last().primary != a {
            rest.push(s.last())
        } else {
            rest
        }
    }
}

/// `peers_without_primary` is a filter by any pointwise-equivalent predicate.
pub proof fn lemma_peers_without_primary_is_filter(
    s: Seq<PeerRecord>,
    a: SockAddr,
    pred: spec_fn(PeerRecord) -> bool,
)
    requires
        forall|r: PeerRecord| #[trigger] pred(r) <==> r.primary != a,
    ensures
        peers_without_primary(s, a) == s.filter(pred),
    decreases s.len(),
{
    reveal(Seq::filter);
    if s.len() > 0 {
        lemma_peers_without_primary_is_filter(s.drop_last(), a, pred);
        assert(pred(s.last()) <==> s.last().primary != a);
    }
}

/// The records whose expiry is not yet past.
pub open spec fn peers_unexpired(s: Seq<PeerRecord>, now: u64) -> Seq<PeerRecord>
    decreases s.len(),
{
    if s.len() == 0 {
        s
    } else {
        let rest = peers_unexpired(s.drop_last(), now);
        if s.last().expiry >= now {
            rest.push(s.last())
        } else {
            rest
        }
    }
}

pub proof fn lemma_peers_unexpired_is_filter(
    s: Seq<PeerRecord>,
    now: u64,
    pred: spec_fn(PeerRecord) -> bool,
)
    requires
        forall|r: PeerRecord| #[trigger] pred(r) <==> r.expiry >= now,
    ensures
        peers_unexpired(s, now) == s.filter(pred),
    decreases s.len(),
{
    reveal(Seq::filter);
    if s.len() > 0 {
        lemma_peers_unexpired_is_filter(s.drop_last(), now, pred);
        assert(pred(s.last()) <==> s.last().expiry >= now);
    }
}

/// The records whose expiry lies before `now`.
pub open spec fn peers_expired(s: Seq<PeerRecord>, now: u64) -> Seq<PeerRecord>
    decreases s.len(),
{
    if s.len() == 0 {
        s
    } else {
        let rest = peers_expired(s.drop_last(), now);
        if s.last().expiry < now {
            rest.push(s.last())
        } else {
            rest
        }
    }
}

pub proof fn lemma_peers_expired_is_filter(
    s: Seq<PeerRecord>,
    now: u64,
    pred: spec_fn(PeerRecord) -> bool,
)
    requires
        forall|r: PeerRecord| #[trigger] pred(r) <==> r.expiry < now,
    ensures
        peers_expired(s, now) == s.filter(pred),
    decreases s.len(),
{
    reveal(Seq::filter);
    if s.len() > 0 {
        lemma_peers_expired_is_filter(s.drop_last(), now, pred);
        assert(pred(s.last()) <==> s.last().expiry < now);
    }
}

/// The primary addresses of the records, in order.
pub open spec fn primaries_of(s: Seq<PeerRecord>) -> Seq<SockAddr> {
    Seq::new(s.len(), |i: int| s[i].primary)
}

/// The peer list: the shared timeout applied to new and refreshed records,
/// and the records themselves.
pub struct PeerList {
    pub peer_timeout: u64,
    pub records: Vec<PeerRecord>,
}

impl View for PeerList {
    type V = Seq<PeerRecord>;

    open spec fn view(&self) -> Seq<PeerRecord> {
        self.records@
    }
}

/// The sequence with every occurrence of `a` dropped, order kept.
pub open spec fn without_addr(s: Seq<SockAddr>, a: SockAddr) -> Seq<SockAddr>
    decreases s.len(),
{
    if s.len() == 0 {
        s
    } else {
        let rest = without_addr(s.drop_last(), a);
        if s.last() != a {
            rest.push(s.last())
        } else {
            rest
        }
    }
}

/// One step of `without_addr` over a growing prefix.
pub proof fn lemma_without_addr_take_succ(s: Seq<SockAddr>, a: SockAddr, j: int)
    requires
        0 <= j < s.len(),
    ensures
        without_addr(s.take(j + 1), a) == if s[j] != a {
            without_addr(s.take(j), a).push(s[j])
        } else {
            without_addr(s.take(j), a)
        },
{
    assert(s.take(j + 1).drop_last() =~= s.take(j));
    assert(s.take(j + 1).last() == s[j]);
}

/// Membership and duplicate-freedom of `without_addr`.
pub proof fn lemma_without_addr_props(s: Seq<SockAddr>, a: SockAddr)
    ensures
        forall|x: SockAddr| #[trigger]
            without_addr(s, a).contains(x) <==> (s.contains(x) && x != a),
        (forall|p: int, q: int| 0 <= p < q < s.len() ==> s[p] != s[q]) ==> (forall|p: int, q: int|
            0 <= p < q < without_addr(s, a).len() ==> without_addr(s, a)[p] != without_addr(
                s,
                a,
            )[q]),
    decreases s.len(),
{
    if s.len() == 0 {
        assert forall|x: SockAddr| #[trigger]
            without_addr(s, a).contains(x) <==> (s.contains(x) && x != a) by {
            assert(!s.contains(x));
        }
    } else {
        let dl = s.drop_last();
        lemma_without_addr_props(dl, a);
        let wa = without_addr(s, a);
        let wd = without_addr(dl, a);
        assert forall|x: SockAddr| #[trigger] wa.contains(x) implies (s.contains(x) && x
            != a) by {
            if s.last() != a && wa == wd.push(s.last()) {
                lemma_push_contains(wd, s.last());
            }
            if dl.contains(x) {
                let k = choose|k: int| 0 <= k < dl.len() && dl[k] == x;
                assert(s[k] == x);
            }
            if x == s.last() {
                assert(s[s.len() - 1] == x);
            }
        }
        assert forall|x: SockAddr| (s.contains(x) && x != a) implies #[trigger] wa.contains(
            x,
        ) by {
            let k = choose|k: int| 0 <= k < s.len() && s[k] == x;
            if k < s.len() - 1 {
                assert(dl[k] == x);
                assert(wd.contains(x));
                if s.last() != a {
                    lemma_push_contains(wd, s.last());
                }
            } else {
                assert(x == s.last());
                assert(wa == wd.push(s.last()));
                lemma_push_contains(wd, s.last());
            }
        }
        if forall|p: int, q: int| 0 <= p < q < s.len() ==> s[p] != s[q] {
            assert forall|p: int, q: int| 0 <= p < q < dl.len() implies dl[p] != dl[q] by {
                assert(s[p] == dl[p] && s[q] == dl[q]);
            }
            assert forall|p: int, q: int| 0 <= p < q < wa.len() implies wa[p] != wa[q] by {
                if s.last() != a {
                    assert(wa == wd.push(s.last()));
                    if q < wd.len() {
                        assert(wa[p] == wd[p] && wa[q] == wd[q]);
                    } else {
                        assert(wa[q] == s.last());
                        assert(wa[p] == wd[p]);
                        assert(wd.contains(wd[p]));
                        assert(dl.contains(wd[p]));
                        let k = choose|k: int| 0 <= k < dl.len() && dl[k] == wd[p];
                        assert(s[k] == wd[p]);
                        assert(s[k] != s[s.len() - 1]);
                    }
                } else {
                    assert(wa == wd);
                }
            }
        }
    }
}

/// A change-of-primary step: a no-op when `a` is already some primary, when
/// the node is unknown, or when `a` is reachable through another node's
/// record; otherwise the node's record keeps its expiry, gets `a` as primary,
/// loses `a` from the alternates and gains the old primary as an alternate.
pub open spec fn mp_noop(s: Seq<PeerRecord>, n: NodeId, a: SockAddr) -> bool {
    ||| is_primary_in(s, a)
    ||| !has_node_in(s, n)
    ||| (addr_known_in(s, a) && s[owner_index_in(s, a)].node_id != n)
}

pub open spec fn make_primary_rel(
    pre: Seq<PeerRecord>,
    post: Seq<PeerRecord>,
    n: NodeId,
    a: SockAddr,
) -> bool {
    if mp_noop(pre, n, a) {
        post == pre
    } else {
        let i = node_index_in(pre, n);
        &&& post.len() == pre.len()
        &&& forall|j: int| 0 <= j < pre.len() && j != i ==> post[j] == pre[j]
        &&& post[i].node_id == n
        &&& post[i].primary == a
        &&& post[i].expiry == pre[i].expiry
        &&& post[i].alternates@ == without_addr(pre[i].alternates@, a).push(pre[i].primary)
    }
}

/// An expiry-refresh step: a no-op unless `a` is a primary; then only that
/// record's expiry changes, to `expiry`.
pub open spec fn refresh_rel(
    pre: Seq<PeerRecord>,
    post: Seq<PeerRecord>,
    a: SockAddr,
    expiry: u64,
) -> bool {
    if !is_primary_in(pre, a) {
        post == pre
    } else {
        let i = primary_index_in(pre, a);
        &&& post.len() == pre.len()
        &&& forall|j: int| 0 <= j < pre.len() && j != i ==> post[j] == pre[j]
        &&& post[i].node_id == pre[i].node_id
        &&& post[i].primary == pre[i].primary
        &&& post[i].alternates == pre[i].alternates
        &&& post[i].expiry == expiry
    }
}

impl PeerList {
    pub open spec fn wf(&self) -> bool {
        peers_wf(self@)
    }

    pub fn new(peer_timeout: u64) -> (r: PeerList)
        ensures
            r.wf(),
            r@.len() == 0,
            r.peer_timeout == peer_timeout,
    {
        PeerList { peer_timeout, records: Vec::new() }
    }

    pub fn len(&self) -> (r: usize)
        ensures
            r == self@.len(),
    {
        self.records.len()
    }

    pub fn is_empty(&self) -> (r: bool)
        ensures
            r == (self@.len() == 0),
    {
        self.records.len() == 0
    }

    /// Whether the record at `i` reaches `addr`.
    fn rec_contains(r: &PeerRecord, addr: SockAddr) -> (res: bool)
        ensures
            res == rec_has_addr(*r, addr),
    {
        if r.primary == addr {
            return true;
        }
        let n = r.alternates.len();
        let mut j: usize = 0;
        while j < n
            invariant
                n == r.alternates@.len(),
                0 <= j <= n,
                forall|q: int| 0 <= q < j ==> r.alternates@[q] != addr,
            decreases n - j,
        {
            if r.alternates[j] == addr {
                return true;
            }
            j += 1;
        }
        assert(!r.alternates@.contains(addr));
        false
    }

    /// An address is reachable iff some record has it as primary or
    /// alternate.
    pub fn contains_addr(&self, addr: SockAddr) -> (r: bool)
        ensures
            r == addr_known_in(self@, addr),
    {
        let n = self.records.len();
        let mut i: usize = 0;
        while i < n
            invariant
                n == self@.len(),
                0 <= i <= n,
                forall|k: int| 0 <= k < i ==> !rec_has_addr(#[trigger] self@[k], addr),
            decreases n - i,
        {
            if Self::rec_contains(&self.records[i], addr) {
                return true;
            }
            i += 1;
        }
        false
    }

    pub fn contains_node(&self, node_id: NodeId) -> (r: bool)
        ensures
            r == has_node_in(self@, node_id),
    {
        let n = self.records.len();
        let mut i: usize = 0;
        while i < n
            invariant
                n == self@.len(),
                0 <= i <= n,
                forall|k: int| 0 <= k < i ==> (#[trigger] self@[k]).node_id != node_id,
            decreases n - i,
        {
            if self.records[i].node_id == node_id {
                return true;
            }
            i += 1;
        }
        false
    }

    fn index_of_node(&self, node_id: NodeId) -> (r: Option<usize>)
        requires
            self.wf(),
        ensures
            match r {
                Some(i) => has_node_in(self@, node_id) && i == node_index_in(self@, node_id)
                    && 0 <= i < self@.len() && self@[i as int].node_id == node_id,
                None => !has_node_in(self@, node_id),
            },
    {
        let n = self.records.len();
        let mut i: usize = 0;
        while i < n
            invariant
                self.wf(),
                n == self@.len(),
                0 <= i <= n,
                forall|k: int| 0 <= k < i ==> (#[trigger] self@[k]).node_id != node_id,
            decreases n - i,
        {
            if self.records[i].node_id == node_id {
                proof {
                    assert(has_node_in(self@, node_id)) by {
                        assert(self@[i as int].node_id == node_id);
                    }
                    let c = node_index_in(self@, node_id);
                    assert(0 <= c < self@.len() && self@[c].node_id == node_id);
                    if c < i as int {
                        assert(false);
                    } else if c > i as int {
                        assert(self@[i as int].node_id != self@[c].node_id);
                        assert(false);
                    }
                }
                return Some(i);
            }
            i += 1;
        }
        None
    }

    fn index_of_primary(&self, addr: SockAddr) -> (r: Option<usize>)
        requires
            self.wf(),
        ensures
            match r {
                Some(i) => is_primary_in(self@, addr) && i == primary_index_in(self@, addr)
                    && 0 <= i < self@.len() && self@[i as int].primary == addr,
                None => !is_primary_in(self@, addr),
            },
    {
        let n = self.records.len();
        let mut i: usize = 0;
        while i < n
            invariant
                self.wf(),
                n == self@.len(),
                0 <= i <= n,
                forall|k: int| 0 <= k < i ==> (#[trigger] self@[k]).primary != addr,
            decreases n - i,
        {
            if self.records[i].primary == addr {
                proof {
                    assert(is_primary_in(self@, addr)) by {
                        assert(self@[i as int].primary == addr);
                    }
                    let c = primary_index_in(self@, addr);
                    assert(0 <= c < self@.len() && self@[c].primary == addr);
                    if c != i as int {
                        assert(rec_has_addr(self@[c], addr));
                        assert(rec_has_addr(self@[i as int], addr));
                        assert(false);
                    }
                }
                return Some(i);
            }
            i += 1;
        }
        None
    }

    fn index_of_owner(&self, addr: SockAddr) -> (r: Option<usize>)
        requires
            self.wf(),
        ensures
            match r {
                Some(i) => addr_known_in(self@, addr) && i == owner_index_in(self@, addr)
                    && 0 <= i < self@.len() && rec_has_addr(self@[i as int], addr),
                None => !addr_known_in(self@, addr),
            },
    {
        let n = self.records.len();
        let mut i: usize = 0;
        while i < n
            invariant
                self.wf(),
                n == self@.len(),
                0 <= i <= n,
                forall|k: int| 0 <= k < i ==> !rec_has_addr(#[trigger] self@[k], addr),
            decreases n - i,
        {
            if Self::rec_contains(&self.records[i], addr) {
                proof {
                    assert(addr_known_in(self@, addr)) by {
                        assert(rec_has_addr(self@[i as int], addr));
                    }
                    let c = owner_index_in(self@, addr);
                    assert(0 <= c < self@.len() && rec_has_addr(self@[c], addr));
                    if c != i as int {
                        assert(rec_has_addr(self@[i as int], addr));
                        assert(false);
                    }
                }
                return Some(i);
            }
            i += 1;
        }
        None
    }

    /// The node id owning the address, through any of its addresses.
    pub fn get_node_id(&self, addr: SockAddr) -> (r: Option<NodeId>)
        requires
            self.wf(),
        ensures
            r == if addr_known_in(self@, addr) {
                Some(self@[owner_index_in(self@, addr)].node_id)
            } else {
                None::<NodeId>
            },
    {
        match self.index_of_owner(addr) {
            Some(i) => Some(self.records[i].node_id),
            None => None,
        }
    }

    /// Inserts a record for an unknown node.  The call is a no-op when the
    /// node id is already known — peers migrate addresses only through
    /// `make_primary` — and also when the address is already reachable
    /// through any record: every address has at most one owning record, so
    /// an insert under a taken address would break the reverse index.  That
    /// second tie-break is deliberate; it favours the one-owner-per-address
    /// invariant over inserting for every unknown node.
    pub fn add(&mut self, node_id: NodeId, addr: SockAddr, now: u64)
        requires
            old(self).wf(),
            now + old(self).peer_timeout <= u64::MAX,
        ensures
            final(self).wf(),
            final(self).peer_timeout == old(self).peer_timeout,
            has_node_in(old(self)@, node_id) || addr_known_in(old(self)@, addr) ==> final(self)@
                == old(self)@,
            !(has_node_in(old(self)@, node_id) || addr_known_in(old(self)@, addr)) ==> {
                &&& final(self)@.len() == old(self)@.len() + 1
                &&& final(self)@.drop_last() == old(self)@
                &&& final(self)@.last().node_id == node_id
                &&& final(self)@.last().primary == addr
                &&& final(self)@.last().expiry == now + old(self).peer_timeout
                &&& final(self)@.last().alternates@.len() == 0
            },
    {
        if self.contains_node(node_id) || self.contains_addr(addr) {
            return;
        }
        let expiry = now + self.peer_timeout;
        let ghost olds = self@;
        self.records.push(PeerRecord { node_id, primary: addr, expiry, alternates: Vec::new() });
        proof {
            let s = self@;
            let ln = olds.len() as int;
            assert(s.drop_last() =~= olds);
            assert forall|i: int, j: int| 0 <= i < j < s.len() implies s[i].node_id
                != s[j].node_id by {
                if j < ln {
                    assert(olds[i] == s[i] && olds[j] == s[j]);
                } else {
                    assert(s[j].node_id == node_id);
                    assert(olds[i] == s[i]);
                    if s[i].node_id == node_id {
                        assert(has_node_in(olds, node_id));
                    }
                }
            }
            assert forall|i: int, j: int, a: SockAddr|
                0 <= i < s.len() && 0 <= j < s.len() && i != j implies !(#[trigger] rec_has_addr(
                s[i],
                a,
            ) && #[trigger] rec_has_addr(s[j], a)) by {
                if i < ln && j < ln {
                    assert(rec_has_addr(olds[i], a) == rec_has_addr(s[i], a));
                    assert(rec_has_addr(olds[j], a) == rec_has_addr(s[j], a));
                } else {
                    let (oi, nj) = if j == ln { (i, j) } else { (j, i) };
                    if rec_has_addr(s[nj], a) && rec_has_addr(s[oi], a) {
                        assert(s[nj].alternates@.len() == 0);
                        assert(a == addr);
                        assert(rec_has_addr(olds[oi], addr));
                        assert(addr_known_in(olds, addr));
                    }
                }
            }
            assert forall|i: int| 0 <= i < s.len() implies rec_wf(#[trigger] s[i]) by {
                if i < ln {
                    assert(s[i] == olds[i]);
                }
            }
        }
    }

    /// Extends the expiry of a known primary address; otherwise a no-op.
    pub fn refresh(&mut self, addr: SockAddr, now: u64)
        requires
            old(self).wf(),
            now + old(self).peer_timeout <= u64::MAX,
        ensures
            final(self).wf(),
            final(self).peer_timeout == old(self).peer_timeout,
            refresh_rel(old(self)@, final(self)@, addr, (now + old(self).peer_timeout) as u64),
    {
        let idx = match self.index_of_primary(addr) {
            None => {
                return;
            },
            Some(i) => i,
        };
        let ghost olds = self@;
        let mut rec = self.records.remove(idx);
        rec.expiry = now + self.peer_timeout;
        self.records.insert(idx, rec);
        proof {
            let s = self@;
            assert(s.len() == olds.len());
            assert forall|j: int| 0 <= j < olds.len() && j != idx as int implies s[j]
                == olds[j] by {
                if j < idx as int {
                    assert(s[j] == olds.remove(idx as int).insert(idx as int, s[idx as int])[j]);
                }
            }
            assert forall|i: int, j: int| 0 <= i < j < s.len() implies s[i].node_id
                != s[j].node_id by {
                assert(s[i].node_id == olds[i].node_id);
                assert(s[j].node_id == olds[j].node_id);
            }
            assert forall|i: int, j: int, a: SockAddr|
                0 <= i < s.len() && 0 <= j < s.len() && i != j implies !(#[trigger] rec_has_addr(
                s[i],
                a,
            ) && #[trigger] rec_has_addr(s[j], a)) by {
                assert(rec_has_addr(olds[i], a) == rec_has_addr(s[i], a));
                assert(rec_has_addr(olds[j], a) == rec_has_addr(s[j], a));
            }
            assert forall|i: int| 0 <= i < s.len() implies rec_wf(#[trigger] s[i]) by {
                assert(rec_wf(olds[i]));
                if i == idx as int {
                    assert(s[i].alternates == olds[i].alternates);
                    assert(s[i].primary == olds[i].primary);
                }
            }
        }
    }

    /// Makes `addr` the primary of the node's record, demoting the old
    /// primary to an alternate, as `make_primary_rel` states.
    pub fn make_primary(&mut self, node_id: NodeId, addr: SockAddr)
        requires
            old(self).wf(),
        ensures
            final(self).wf(),
            final(self).peer_timeout == old(self).peer_timeout,
            make_primary_rel(old(self)@, final(self)@, node_id, addr),
    {
        if let Some(_i) = self.index_of_primary(addr) {
            return;
        }
        match self.index_of_owner(addr) {
            Some(k) => {
                if self.records[k].node_id != node_id {
                    return;
                }
            },
            None => {},
        }
        let idx = match self.index_of_node(node_id) {
            None => {
                return;
            },
            Some(i) => i,
        };
        let ghost olds = self@;
        let ghost oldrec = self@[idx as int];
        assert(!mp_noop(olds, node_id, addr));
        let rec = self.records.remove(idx);
        let n = rec.alternates.len();
        let mut new_alts: Vec<SockAddr> = Vec::new();
        let mut j: usize = 0;
        while j < n
            invariant
                n == rec.alternates@.len(),
                0 <= j <= n,
                new_alts@ == without_addr(rec.alternates@.take(j as int), addr),
            decreases n - j,
        {
            proof {
                lemma_without_addr_take_succ(rec.alternates@, addr, j as int);
            }
            if rec.alternates[j] != addr {
                new_alts.push(rec.alternates[j]);
            }
            j += 1;
        }
        proof {
            assert(rec.alternates@.take(n as int) =~= rec.alternates@);
        }
        new_alts.push(rec.primary);
        let newrec = PeerRecord {
            node_id: rec.node_id,
            primary: addr,
            expiry: rec.expiry,
            alternates: new_alts,
        };
        self.records.insert(idx, newrec);
        proof {
            let s = self@;
            let i = idx as int;
            let filt = without_addr(oldrec.alternates@, addr);
            lemma_without_addr_props(oldrec.alternates@, addr);
            assert forall|j2: int| 0 <= j2 < olds.len() && j2 != i implies s[j2] == olds[j2] by {
                if j2 < i {
                    assert(s[j2] == olds.remove(i).insert(i, s[i])[j2]);
                }
            }
            assert(s[i].alternates@ == filt.push(oldrec.primary));
            assert(node_index_in(olds, node_id) == i) by {
                let c = node_index_in(olds, node_id);
                assert(olds[c].node_id == node_id);
                if c != i {
                    assert(false);
                }
            }
            // the old primary really was reachable only through this record,
            // and addr is reachable through no other record
            assert(rec_has_addr(olds[i], oldrec.primary));
            assert forall|j2: int| 0 <= j2 < olds.len() && j2 != i implies !rec_has_addr(
                #[trigger] olds[j2],
                addr,
            ) && !rec_has_addr(olds[j2], oldrec.primary) by {
                if rec_has_addr(olds[j2], addr) {
                    assert(addr_known_in(olds, addr));
                    let c = owner_index_in(olds, addr);
                    assert(rec_has_addr(olds[c], addr));
                    if c != j2 {
                        assert(false);
                    }
                    assert(olds[j2].node_id != node_id);
                    assert(mp_noop(olds, node_id, addr));
                }
                assert(rec_has_addr(olds[i], oldrec.primary));
            }
            // record well-formedness of the updated record
            assert(rec_wf(oldrec));
            assert(oldrec.primary != addr) by {
                if oldrec.primary == addr {
                    assert(is_primary_in(olds, addr));
                }
            }
            let newalts = s[i].alternates@;
            assert forall|p: int, q: int| 0 <= p < q < newalts.len() implies newalts[p]
                != newalts[q] by {
                let al = newalts;
                if q < filt.len() {
                    assert(al[p] == filt[p] && al[q] == filt[q]);
                    assert(filt.contains(filt[p]));
                    assert(filt.contains(filt[q]));
                    assert(al[p] != al[q]);
                } else {
                    assert(al[q] == oldrec.primary);
                    assert(al[p] == filt[p]);
                    assert(filt.contains(filt[p]));
                    assert(!oldrec.alternates@.contains(oldrec.primary));
                }
            }
            assert(!s[i].alternates@.contains(s[i].primary)) by {
                lemma_push_contains(filt, oldrec.primary);
                if s[i].alternates@.contains(addr) {
                    assert(filt.contains(addr) || addr == oldrec.primary);
                }
            }
            assert(rec_wf(s[i]));
            // every address of the new record was reachable through the old
            // record or is addr
            assert forall|a: SockAddr| rec_has_addr(s[i], a) implies rec_has_addr(olds[i], a) || a
                == addr by {
                lemma_push_contains(filt, oldrec.primary);
                if a != addr {
                    if s[i].alternates@.contains(a) {
                        if filt.contains(a) {
                            assert(oldrec.alternates@.contains(a));
                        }
                    }
                }
            }
            assert forall|i2: int, j2: int| 0 <= i2 < j2 < s.len() implies s[i2].node_id
                != s[j2].node_id by {
                assert(s[i2].node_id == olds[i2].node_id);
                assert(s[j2].node_id == olds[j2].node_id);
            }
            assert forall|i2: int, j2: int, a: SockAddr|
                0 <= i2 < s.len() && 0 <= j2 < s.len() && i2 != j2 implies !(
            #[trigger] rec_has_addr(s[i2], a) && #[trigger] rec_has_addr(s[j2], a)) by {
                if i2 != i && j2 != i {
                    assert(rec_has_addr(olds[i2], a) == rec_has_addr(s[i2], a));
                    assert(rec_has_addr(olds[j2], a) == rec_has_addr(s[j2], a));
                } else {
                    let (ci, cj) = if i2 == i { (i2, j2) } else { (j2, i2) };
                    // ci == i, cj != i
                    if rec_has_addr(s[ci], a) && rec_has_addr(s[cj], a) {
                        assert(rec_has_addr(olds[i], a) || a == addr);
                        assert(rec_has_addr(olds[cj], a) == rec_has_addr(s[cj], a));
                        if a == addr {
                            assert(!rec_has_addr(olds[cj], addr));
                        } else {
                            assert(rec_has_addr(olds[i], a));
                        }
                    }
                }
            }
            assert forall|i2: int| 0 <= i2 < s.len() implies rec_wf(#[trigger] s[i2]) by {
                if i2 != i {
                    assert(s[i2] == olds[i2]);
                }
            }
        }
    }

    /// Removes the record whose primary is `addr`, and with it all of its
    /// alternates; any other address is a no-op.
    pub fn remove(&mut self, addr: SockAddr)
        requires
            old(self).wf(),
        ensures
            final(self).wf(),
            final(self).peer_timeout == old(self).peer_timeout,
            final(self)@ == peers_without_primary(old(self)@, addr),
    {
        let ghost pred = |r: PeerRecord| r.primary != addr;
        proof {
            lemma_peers_without_primary_is_filter(self@, addr, pred);
        }
        match self.index_of_primary(addr) {
            None => {
                proof {
                    assert forall|j: int| 0 <= j < self@.len() implies pred(#[trigger] self@[j]) by {
                        if self@[j].primary == addr {
                            assert(is_primary_in(self@, addr));
                        }
                    }
                    lemma_filter_all_true(self@, pred);
                }
            },
            Some(i) => {
                let ghost olds = self@;
                self.records.remove(i);
                proof {
                    assert(!pred(olds[i as int]));
                    assert forall|j: int| 0 <= j < olds.len() && j != i as int implies pred(
                        #[trigger] olds[j],
                    ) by {
                        if olds[j].primary == addr {
                            assert(rec_has_addr(olds[j], addr));
                            assert(rec_has_addr(olds[i as int], addr));
                        }
                    }
                    lemma_filter_skips_one(olds, pred, i as int);
                    lemma_peers_wf_filter(olds, pred);
                }
            },
        }
    }

    /// Removes and returns the primaries of every record whose expiry lies
    /// before `now`.
    pub fn timeout(&mut self, now: u64) -> (expired: Vec<SockAddr>)
        requires
            old(self).wf(),
        ensures
            final(self).wf(),
            final(self).peer_timeout == old(self).peer_timeout,
            final(self)@ == peers_unexpired(old(self)@, now),
            expired@ == primaries_of(peers_expired(old(self)@, now)),
    {
        let ghost olds = self@;
        let ghost keep = |r: PeerRecord| r.expiry >= now;
        let ghost expd = |r: PeerRecord| r.expiry < now;
        let mut kept: Vec<PeerRecord> = Vec::new();
        let mut expired: Vec<SockAddr> = Vec::new();
        let ghost mut i: int = 0;
        while self.records.len() > 0
            invariant
                keep == (|r: PeerRecord| r.expiry >= now),
                expd == (|r: PeerRecord| r.expiry < now),
                0 <= i <= olds.len(),
                self.records@ == olds.skip(i),
                self.peer_timeout == old(self).peer_timeout,
                kept@ == olds.take(i).filter(keep),
                expired@ == olds.take(i).filter(expd).map_values(|r: PeerRecord| r.primary),
            decreases self.records@.len(),
        {
            proof {
                lemma_filter_take_succ(olds, keep, i);
                lemma_filter_take_succ(olds, expd, i);
                assert(olds.skip(i)[0] == olds[i]);
                assert(olds.skip(i).remove(0) =~= olds.skip(i + 1));
            }
            let r = self.records.remove(0);
            if r.expiry >= now {
                kept.push(r);
            } else {
                expired.push(r.primary);
                proof {
                    assert(olds.take(i + 1).filter(expd).map_values(
                        |r: PeerRecord| r.primary,
                    ) =~= olds.take(i).filter(expd).map_values(|r: PeerRecord| r.primary).push(
                        olds[i].primary,
                    ));
                }
            }
            proof {
                i = i + 1;
            }
        }
        proof {
            assert(olds.skip(i).len() == 0);
            assert(i == olds.len());
            lemma_filter_take_all(olds, keep);
            lemma_filter_take_all(olds, expd);
            lemma_peers_wf_filter(olds, keep);
            lemma_peers_unexpired_is_filter(olds, now, keep);
            lemma_peers_expired_is_filter(olds, now, expd);
            assert(expired@ =~= primaries_of(peers_expired(olds, now)));
        }
        self.records = kept;
        expired
    }

    /// Up to `k` primary addresses, sampled without replacement.
    pub fn subset(&self, k: usize) -> (r: Vec<SockAddr>)
        requires
            self.wf(),
        ensures
            r@.len() == if k <= self@.len() {
                k as int
            } else {
                self@.len() as int
            },
            forall|i: int| 0 <= i < r@.len() ==> is_primary_in(self@, #[trigger] r@[i]),
            forall|i: int, j: int| 0 <= i < j < r@.len() ==> r@[i] != r@[j],
    {
        let n = self.records.len();
        let kk = if k <= n {
            k
        } else {
            n
        };
        let idx = sample_indices(n, kk);
        let mut r: Vec<SockAddr> = Vec::new();
        let mut i: usize = 0;
        while i < kk
            invariant
                n == self@.len(),
                idx@.len() == kk,
                forall|p: int| 0 <= p < idx@.len() ==> idx@[p] < n,
                forall|p: int, q: int| 0 <= p < q < idx@.len() ==> idx@[p] != idx@[q],
                0 <= i <= kk,
                r@.len() == i,
                forall|p: int| 0 <= p < i ==> r@[p] == self@[idx@[p] as int].primary,
                forall|p: int| 0 <= p < i ==> is_primary_in(self@, #[trigger] r@[p]),
                self.wf(),
            decreases kk - i,
        {
            let j = idx[i];
            r.push(self.records[j].primary);
            proof {
                assert(self@[j as int].primary == r@[i as int]);
            }
            i += 1;
        }
        proof {
            assert forall|p: int, q: int| 0 <= p < q < r@.len() implies r@[p] != r@[q] by {
                let ip = idx@[p] as int;
                let iq = idx@[q] as int;
                assert(ip != iq);
                assert(rec_has_addr(self@[ip], self@[ip].primary));
                assert(rec_has_addr(self@[iq], self@[iq].primary));
                if self@[ip].primary == self@[iq].primary {
                    assert(rec_has_addr(self@[iq], self@[ip].primary));
                    assert(false);
                }
            }
        }
        r
    }

    /// Every reachable address: primaries and alternates of all records,
    /// each exactly once when the list is well formed.
    pub fn as_vec(&self) -> (r: Vec<SockAddr>)
        ensures
            forall|a: SockAddr| r@.contains(a) <==> addr_known_in(self@, a),
            self.wf() ==> forall|p: int, q: int| 0 <= p < q < r@.len() ==> r@[p] != r@[q],
    {
        let n = self.records.len();
        let mut r: Vec<SockAddr> = Vec::new();
        let mut i: usize = 0;
        while i < n
            invariant
                n == self@.len(),
                0 <= i <= n,
                forall|a: SockAddr| #[trigger]
                    r@.contains(a) <==> exists|k: int|
                        0 <= k < i && rec_has_addr(#[trigger] self@[k], a),
                self.wf() ==> forall|p: int, q: int| 0 <= p < q < r@.len() ==> r@[p] != r@[q],
            decreases n - i,
        {
            let rec = &self.records[i];
            let ghost r_before = r@;
            proof {
                lemma_push_contains(r@, rec.primary);
                if self.wf() {
                    assert forall|p: int, q: int|
                        0 <= p < q < r@.push(rec.primary).len() implies r@.push(rec.primary)[p]
                        != r@.push(rec.primary)[q] by {
                        if q < r@.len() {
                            assert(r@[p] != r@[q]);
                        } else {
                            assert(r@.push(rec.primary)[q] == rec.primary);
                            let x = r@[p];
                            assert(r@.contains(x));
                            let k = choose|k: int| 0 <= k < i && rec_has_addr(#[trigger] self@[k], x);
                            if x == rec.primary {
                                assert(rec_has_addr(self@[k], x));
                                assert(rec_has_addr(self@[i as int], x));
                                assert(false);
                            }
                        }
                    }
                }
            }
            r.push(rec.primary);
            let m = rec.alternates.len();
            let mut j: usize = 0;
            while j < m
                invariant
                    n == self@.len(),
                    0 <= i < n,
                    m == rec.alternates@.len(),
                    rec == &self.records[i as int],
                    0 <= j <= m,
                    forall|a: SockAddr| #[trigger]
                        r@.contains(a) <==> (exists|k: int|
                            0 <= k < i && rec_has_addr(#[trigger] self@[k], a)) || a == rec.primary
                            || rec.alternates@.take(j as int).contains(a),
                    self.wf() ==> forall|p: int, q: int|
                        0 <= p < q < r@.len() ==> r@[p] != r@[q],
                decreases m - j,
            {
                proof {
                    lemma_push_contains(r@, rec.alternates@[j as int]);
                    if self.wf() {
                        let aj = rec.alternates@[j as int];
                        assert forall|p: int, q: int|
                            0 <= p < q < r@.push(aj).len() implies r@.push(aj)[p]
                            != r@.push(aj)[q] by {
                            if q < r@.len() {
                                assert(r@[p] != r@[q]);
                            } else {
                                assert(r@.push(aj)[q] == aj);
                                let x = r@[p];
                                assert(r@.contains(x));
                                if x == aj {
                                    assert(rec_wf(self@[i as int]));
                                    if exists|k: int|
                                        0 <= k < i && rec_has_addr(#[trigger] self@[k], x) {
                                        let k = choose|k: int|
                                            0 <= k < i && rec_has_addr(#[trigger] self@[k], x);
                                        assert(rec.alternates@.contains(aj)) by {
                                            assert(rec.alternates@[j as int] == aj);
                                        }
                                        assert(rec_has_addr(self@[i as int], x));
                                        assert(false);
                                    } else if x == rec.primary {
                                        assert(rec.alternates@.contains(rec.primary)) by {
                                            assert(rec.alternates@[j as int] == rec.primary);
                                        }
                                        assert(false);
                                    } else {
                                        let w = choose|w: int|
                                            0 <= w < j as int && rec.alternates@.take(
                                                j as int,
                                            )[w] == x;
                                        assert(rec.alternates@[w] == x);
                                        assert(rec.alternates@[w] != rec.alternates@[j as int]);
                                        assert(false);
                                    }
                                }
                            }
                        }
                    }
                    assert forall|a: SockAddr|
                        rec.alternates@.take(j as int + 1).contains(a) implies (
                    rec.alternates@.take(j as int).contains(a) || a
                        == rec.alternates@[j as int]) by {
                        let p = choose|p: int|
                            0 <= p < j as int + 1 && #[trigger] rec.alternates@.take(
                                j as int + 1,
                            )[p] == a;
                        if p < j as int {
                            assert(rec.alternates@.take(j as int)[p] == a);
                        }
                    }
                    assert forall|a: SockAddr|
                        rec.alternates@.take(j as int).contains(a) implies rec.alternates@.take(
                        j as int + 1,
                    ).contains(a) by {
                        let p = choose|p: int|
                            0 <= p < j as int && rec.alternates@.take(j as int)[p] == a;
                        assert(rec.alternates@.take(j as int + 1)[p] == a);
                    }
                    assert(rec.alternates@.take(j as int + 1)[j as int]
                        == rec.alternates@[j as int]);
                }
                r.push(rec.alternates[j]);
                j += 1;
            }
            proof {
                assert(rec.alternates@.take(m as int) =~= rec.alternates@);
                assert forall|a: SockAddr| #[trigger] r@.contains(a) implies (exists|k: int|
                    0 <= k < i + 1 && rec_has_addr(#[trigger] self@[k], a)) by {
                    if exists|k: int| 0 <= k < i && rec_has_addr(#[trigger] self@[k], a) {
                        let k = choose|k: int| 0 <= k < i && rec_has_addr(#[trigger] self@[k], a);
                        assert(rec_has_addr(self@[k], a));
                    } else {
                        assert(rec_has_addr(self@[i as int], a));
                    }
                }
                assert forall|a: SockAddr|
                    (exists|k: int| 0 <= k < i + 1 && rec_has_addr(#[trigger] self@[k], a))
                        implies #[trigger] r@.contains(a) by {
                    let k = choose|k: int| 0 <= k < i + 1 && rec_has_addr(#[trigger] self@[k], a);
                    if k < i {
                        assert(exists|k2: int| 0 <= k2 < i && rec_has_addr(#[trigger] self@[k2], a));
                    }
                }
            }
            i += 1;
        }
        r
    }

    /// Whether any of the given addresses is reachable.
    pub fn is_connected(&self, resolved: &Vec<SockAddr>) -> (r: bool)
        ensures
            r == exists|i: int|
                0 <= i < resolved@.len() && #[trigger] addr_known_in(self@, resolved@[i]),
    {
        let n = resolved.len();
        let mut i: usize = 0;
        while i < n
            invariant
                n == resolved@.len(),
                0 <= i <= n,
                forall|k: int| 0 <= k < i ==> !#[trigger] addr_known_in(self@, resolved@[k]),
            decreases n - i,
        {
            if self.contains_addr(resolved[i]) {
                return true;
            }
            i += 1;
        }
        false
    }
}

/// The primary address recorded for a node id, if the node is known.
pub open spec fn primary_of_node_in(s: Seq<PeerRecord>, n: NodeId) -> Option<SockAddr> {
    if has_node_in(s, n) {
        Some(s[node_index_in(s, n)].primary)
    } else {
        None
    }
}

/// The node id recorded for a primary address, if the address is a primary.
pub open spec fn node_of_primary_in(s: Seq<PeerRecord>, a: SockAddr) -> Option<NodeId> {
    if is_primary_in(s, a) {
        Some(s[primary_index_in(s, a)].node_id)
    } else {
        None
    }
}

/// The node-id index and the primary-address index are mutual inverses: the
/// primary recorded for a node maps back to that node, and the node recorded
/// for a primary maps back to that primary.
pub proof fn lemma_indices_mutual_inverse(s: Seq<PeerRecord>)
    requires
        peers_wf(s),
    ensures
        forall|n: NodeId| #[trigger]
            primary_of_node_in(s, n) is Some ==> node_of_primary_in(
                s,
                primary_of_node_in(s, n).unwrap(),
            ) == Some(n),
        forall|a: SockAddr| #[trigger]
            node_of_primary_in(s, a) is Some ==> primary_of_node_in(
                s,
                node_of_primary_in(s, a).unwrap(),
            ) == Some(a),
{
    assert forall|n: NodeId| #[trigger] primary_of_node_in(s, n) is Some implies node_of_primary_in(
        s,
        primary_of_node_in(s, n).unwrap(),
    ) == Some(n) by {
        let i = node_index_in(s, n);
        assert(0 <= i < s.len() && s[i].node_id == n);
        let a = s[i].primary;
        assert(is_primary_in(s, a)) by {
            assert(s[i].primary == a);
        }
        let j = primary_index_in(s, a);
        assert(0 <= j < s.len() && s[j].primary == a);
        if i != j {
            assert(rec_has_addr(s[i], a));
            assert(rec_has_addr(s[j], a));
            assert(false);
        }
    }
    assert forall|a: SockAddr| #[trigger] node_of_primary_in(s, a) is Some implies
        primary_of_node_in(s, node_of_primary_in(s, a).unwrap()) == Some(a) by {
        let i = primary_index_in(s, a);
        assert(0 <= i < s.len() && s[i].primary == a);
        let n = s[i].node_id;
        assert(has_node_in(s, n)) by {
            assert(s[i].node_id == n);
        }
        let j = node_index_in(s, n);
        assert(0 <= j < s.len() && s[j].node_id == n);
        if i < j {
            assert(s[i].node_id != s[j].node_id);
        } else if j < i {
            assert(s[j].node_id != s[i].node_id);
        }
    }
}

/// After removing a record by its primary address, none of that record's
/// addresses — the primary or any alternate — remains reachable.
pub proof fn lemma_remove_primary_unreaches_record(s: Seq<PeerRecord>, a: SockAddr)
    requires
        peers_wf(s),
        is_primary_in(s, a),
    ensures
        forall|x: SockAddr|
            rec_has_addr(#[trigger] s[primary_index_in(s, a)], x) ==> !addr_known_in(
                peers_without_primary(s, a),
                x,
            ),
{
    let i = primary_index_in(s, a);
    assert(0 <= i < s.len() && s[i].primary == a);
    let pred = |r: PeerRecord| r.primary != a;
    lemma_peers_without_primary_is_filter(s, a, pred);
    let f = s.filter(pred);
    lemma_filter_membership(s, pred);
    assert forall|x: SockAddr| rec_has_addr(#[trigger] s[i], x) implies !addr_known_in(f, x) by {
        if addr_known_in(f, x) {
            let j = choose|j: int| 0 <= j < f.len() && rec_has_addr(f[j], x);
            assert(s.contains(f[j]));
            let k = choose|k: int| 0 <= k < s.len() && s[k] == f[j];
            assert(pred(f[j]));
            assert(s[k].primary != a);
            assert(k != i);
            assert(rec_has_addr(s[k], x));
            assert(rec_has_addr(s[i], x));
            assert(false);
        }
    }
}

/// Changing a node's primary address twice with the same arguments leaves
/// the state of the first change: the second call is a no-op.
pub proof fn lemma_make_primary_idempotent(
    pre: Seq<PeerRecord>,
    mid: Seq<PeerRecord>,
    post: Seq<PeerRecord>,
    n: NodeId,
    a: SockAddr,
)
    requires
        make_primary_rel(pre, mid, n, a),
        make_primary_rel(mid, post, n, a),
    ensures
        post == mid,
{
    if mp_noop(pre, n, a) {
        assert(mid == pre);
        assert(post == mid);
    } else {
        let i = node_index_in(pre, n);
        assert(0 <= i < pre.len() && pre[i].node_id == n);
        assert(mid[i].primary == a);
        assert(is_primary_in(mid, a)) by {
            assert(mid[i].primary == a);
        }
        assert(mp_noop(mid, n, a));
        assert(post == mid);
    }
}

} // verus!
