//! The forwarding table: explicit subnet claims announced by peers in
//! handshakes, and a learned cache of host addresses observed on ingress
//! data.  Lookup prefers an unexpired exact cache hit, then the covering
//! claim with the longest prefix, breaking ties towards the most recently
//! refreshed claim.

use vstd::prelude::*;
use crate::addr::{Addr, AddrRange, SockAddr, addr_eq, range_contains, spec_range_contains};
use crate::seq_help::{
    lemma_filter_take_succ, lemma_filter_take_all, lemma_filter_membership, lemma_filter_all_true,
    lemma_filter_all_false,
};

verus! {

/// A subnet range announced by a peer, with its expiry.
pub struct Claim {
    pub peer: SockAddr,
    pub range: AddrRange,
    pub expiry: u64,
}

/// A learned host address: seen in traffic from a peer, with its expiry.
pub struct CacheEntry {
    pub addr: Addr,
    pub peer: SockAddr,
    pub expiry: u64,
}

/// The claims with every claim of `p` dropped, order kept.
pub open spec fn claims_without_peer(s: Seq<Claim>, p: SockAddr) -> Seq<Claim>
    decreases s.len(),
{
    if s.len() == 0 {
        s
    } else {
        let rest = claims_without_peer(s.drop_last(), p);
        if s.last().peer != p {
            rest.push(s.last())
        } else {
            rest
        }
    }
}

pub proof fn lemma_claims_without_peer_is_filter(
    s: Seq<Claim>,
    p: SockAddr,
    pred: spec_fn(Claim) -> bool,
)
    requires
        forall|c: Claim| #[trigger] pred(c) <==> c.peer != p,
    ensures
        claims_without_peer(s, p) == s.filter(pred),
    decreases s.len(),
{
    reveal(Seq::filter);
    if s.len() > 0 {
        lemma_claims_without_peer_is_filter(s.drop_last(), p, pred);
        assert(pred(s.last()) <==> s.last().peer != p);
    }
}

/// The cache with every entry of `p` dropped, order kept.
pub open spec fn cache_without_peer(s: Seq<CacheEntry>, p: SockAddr) -> Seq<CacheEntry>
    decreases s.len(),
{
    if s.len() == 0 {
        s
    } else {
        let rest = cache_without_peer(s.drop_last(), p);
        if s.last().peer != p {
            rest.push(s.last())
        } else {
            rest
        }
    }
}

pub proof fn lemma_cache_without_peer_is_filter(
    s: Seq<CacheEntry>,
    p: SockAddr,
    pred: spec_fn(CacheEntry) -> bool,
)
    requires
        forall|e: CacheEntry| #[trigger] pred(e) <==> e.peer != p,
    ensures
        cache_without_peer(s, p) == s.filter(pred),
    decreases s.len(),
{
    reveal(Seq::filter);
    if s.len() > 0 {
        lemma_cache_without_peer_is_filter(s.drop_last(), p, pred);
        assert(pred(s.last()) <==> s.last().peer != p);
    }
}

/// The cache with every entry for exactly the address `a` dropped.
pub open spec fn cache_without_addr(s: Seq<CacheEntry>, a: Seq<u8>) -> Seq<CacheEntry>
    decreases s.len(),
{
    if s.len() == 0 {
        s
    } else {
        let rest = cache_without_addr(s.drop_last(), a);
        if s.last().addr@ != a {
            rest.push(s.last())
        } else {
            rest
        }
    }
}

pub proof fn lemma_cache_without_addr_is_filter(
    s: Seq<CacheEntry>,
    a: Seq<u8>,
    pred: spec_fn(CacheEntry) -> bool,
)
    requires
        forall|e: CacheEntry| #[trigger] pred(e) <==> e.addr@ != a,
    ensures
        cache_without_addr(s, a) == s.filter(pred),
    decreases s.len(),
{
    reveal(Seq::filter);
    if s.len() > 0 {
        lemma_cache_without_addr_is_filter(s.drop_last(), a, pred);
        assert(pred(s.last()) <==> s.last().addr@ != a);
    }
}

/// The claims whose expiry is not yet past.
pub open spec fn claims_unexpired(s: Seq<Claim>, now: u64) -> Seq<Claim>
    decreases s.len(),
{
    if s.len() == 0 {
        s
    } else {
        let rest = claims_unexpired(s.drop_last(), now);
        if s.last().expiry >= now {
            rest.push(s.last())
        } else {
            rest
        }
    }
}

pub proof fn lemma_claims_unexpired_is_filter(
    s: Seq<Claim>,
    now: u64,
    pred: spec_fn(Claim) -> bool,
)
    requires
        forall|c: Claim| #[trigger] pred(c) <==> c.expiry >= now,
    ensures
        claims_unexpired(s, now) == s.filter(pred),
    decreases s.len(),
{
    reveal(Seq::filter);
    if s.len() > 0 {
        lemma_claims_unexpired_is_filter(s.drop_last(), now, pred);
        assert(pred(s.last()) <==> s.last().expiry >= now);
    }
}

/// The cache entries whose expiry is not yet past.
pub open spec fn cache_unexpired(s: Seq<CacheEntry>, now: u64) -> Seq<CacheEntry>
    decreases s.len(),
{
    if s.len() == 0 {
        s
    } else {
        let rest = cache_unexpired(s.drop_last(), now);
        if s.last().expiry >= now {
            rest.push(s.last())
        } else {
            rest
        }
    }
}

pub proof fn lemma_cache_unexpired_is_filter(
    s: Seq<CacheEntry>,
    now: u64,
    pred: spec_fn(CacheEntry) -> bool,
)
    requires
        forall|e: CacheEntry| #[trigger] pred(e) <==> e.expiry >= now,
    ensures
        cache_unexpired(s, now) == s.filter(pred),
    decreases s.len(),
{
    reveal(Seq::filter);
    if s.len() > 0 {
        lemma_cache_unexpired_is_filter(s.drop_last(), now, pred);
        assert(pred(s.last()) <==> s.last().expiry >= now);
    }
}

/// The claim rows that announcing `rs` for `peer` inserts, all with one
/// expiry.
pub open spec fn claims_of(peer: SockAddr, rs: Seq<AddrRange>, expiry: u64) -> Seq<Claim> {
    Seq::new(rs.len(), |k: int| Claim { peer, range: rs[k], expiry })
}

/// There is a cache entry for exactly this address.
pub open spec fn has_cache_in(s: Seq<CacheEntry>, a: Seq<u8>) -> bool {
    exists|i: int| 0 <= i < s.len() && s[i].addr@ == a
}

pub open spec fn cache_index_in(s: Seq<CacheEntry>, a: Seq<u8>) -> int {
    choose|i: int| 0 <= i < s.len() && s[i].addr@ == a
}

/// The later claim beats the held one: longer prefix, or the same prefix
/// and an expiry at least as late.
pub open spec fn claim_better(cand: Claim, cur: Claim) -> bool {
    ||| cand.range.prefix_len > cur.range.prefix_len
    ||| (cand.range.prefix_len == cur.range.prefix_len && cand.expiry >= cur.expiry)
}

/// The index of the winning claim for address `a`: among the claims whose
/// range covers `a`, the longest prefix wins; on equal prefix the latest
/// expiry wins; on equal expiry the later claim wins.
pub open spec fn best_claim_index(s: Seq<Claim>, a: Seq<u8>) -> Option<int>
    decreases s.len(),
{
    if s.len() == 0 {
        None
    } else {
        let rest = best_claim_index(s.drop_last(), a);
        let li = s.len() - 1;
        if spec_range_contains(s[li].range.base@, s[li].range.prefix_len as int, a) {
            match rest {
                None => Some(li),
                Some(b) => if claim_better(s[li], s[b]) {
                    Some(li)
                } else {
                    Some(b)
                },
            }
        } else {
            rest
        }
    }
}

/// One step of `best_claim_index` over a growing prefix.
pub proof fn lemma_best_take_succ(s: Seq<Claim>, a: Seq<u8>, i: int)
    requires
        0 <= i < s.len(),
    ensures
        best_claim_index(s.take(i + 1), a) == {
            let rest = best_claim_index(s.take(i), a);
            if spec_range_contains(s[i].range.base@, s[i].range.prefix_len as int, a) {
                match rest {
                    None => Some(i),
                    Some(b) => if claim_better(s[i], s[b]) {
                        Some(i)
                    } else {
                        Some(b)
                    },
                }
            } else {
                rest
            }
        },
        match best_claim_index(s.take(i + 1), a) {
            Some(b) => 0 <= b <= i,
            None => true,
        },
{
    assert(s.take(i + 1).drop_last() =~= s.take(i));
    assert(s.take(i + 1).last() == s[i]);
    lemma_best_in_range(s.take(i + 1), a);
    lemma_best_in_range(s.take(i), a);
    assert(forall|j: int| 0 <= j < i + 1 ==> s.take(i + 1)[j] == s[j]);
}

/// A winning index lies within the sequence.
pub proof fn lemma_best_in_range(s: Seq<Claim>, a: Seq<u8>)
    ensures
        match best_claim_index(s, a) {
            Some(b) => 0 <= b < s.len(),
            None => true,
        },
    decreases s.len(),
{
    if s.len() > 0 {
        lemma_best_in_range(s.drop_last(), a);
    }
}

/// The claim table.
pub struct ClaimTable {
    pub claim_timeout: u64,
    pub cache_timeout: u64,
    pub claims: Vec<Claim>,
    pub cache: Vec<CacheEntry>,
}

impl ClaimTable {
    /// Ranges of claims are well formed; the cache holds at most one entry
    /// per address.
    pub open spec fn wf(&self) -> bool {
        &&& forall|i: int| 0 <= i < self.claims@.len() ==> (#[trigger] self.claims@[i]).range.wf()
        &&& forall|p: int, q: int|
            0 <= p < q < self.cache@.len() ==> self.cache@[p].addr@ != self.cache@[q].addr@
    }

    /// What `lookup` returns: the unexpired exact cache hit, else the peer
    /// of the winning claim.
    pub open spec fn spec_lookup(&self, a: Seq<u8>, now: u64) -> Option<SockAddr> {
        if has_cache_in(self.cache@, a) && self.cache@[cache_index_in(self.cache@, a)].expiry
            >= now {
            Some(self.cache@[cache_index_in(self.cache@, a)].peer)
        } else {
            match best_claim_index(self.claims@, a) {
                None => None,
                Some(b) => Some(self.claims@[b].peer),
            }
        }
    }

    pub fn new(cache_timeout: u64, claim_timeout: u64) -> (r: ClaimTable)
        ensures
            r.wf(),
            r.claims@.len() == 0,
            r.cache@.len() == 0,
            r.cache_timeout == cache_timeout,
            r.claim_timeout == claim_timeout,
    {
        ClaimTable { claim_timeout, cache_timeout, claims: Vec::new(), cache: Vec::new() }
    }

    pub fn claim_len(&self) -> (r: usize)
        ensures
            r == self.claims@.len(),
    {
        self.claims.len()
    }

    pub fn cache_len(&self) -> (r: usize)
        ensures
            r == self.cache@.len(),
    {
        self.cache.len()
    }

    fn index_of_cache(&self, addr: &Addr) -> (r: Option<usize>)
        requires
            self.wf(),
        ensures
            match r {
                Some(i) => has_cache_in(self.cache@, addr@) && i == cache_index_in(
                    self.cache@,
                    addr@,
                ) && 0 <= i < self.cache@.len() && self.cache@[i as int].addr@ == addr@,
                None => !has_cache_in(self.cache@, addr@),
            },
    {
        let n = self.cache.len();
        let mut i: usize = 0;
        while i < n
            invariant
                self.wf(),
                n == self.cache@.len(),
                0 <= i <= n,
                forall|k: int| 0 <= k < i ==> (#[trigger] self.cache@[k]).addr@ != addr@,
            decreases n - i,
        {
            if addr_eq(&self.cache[i].addr, addr) {
                proof {
                    assert(has_cache_in(self.cache@, addr@)) by {
                        assert(self.cache@[i as int].addr@ == addr@);
                    }
                    let c = cache_index_in(self.cache@, addr@);
                    assert(0 <= c < self.cache@.len() && self.cache@[c].addr@ == addr@);
                    if c < i as int {
                        assert(false);
                    } else if c > i as int {
                        assert(self.cache@[i as int].addr@ != self.cache@[c].addr@);
                        assert(false);
                    }
                }
                return Some(i);
            }
            i += 1;
        }
        None
    }

    /// Replaces the claim set of `peer` with the given ranges, each given an
    /// expiry of `now` plus the claim timeout.  Other peers' claims and the
    /// cache stay as they are.
    pub fn set_claims(&mut self, peer: SockAddr, ranges: Vec<AddrRange>, now: u64)
        requires
            old(self).wf(),
            forall|k: int| 0 <= k < ranges@.len() ==> (#[trigger] ranges@[k]).wf(),
            now + old(self).claim_timeout <= u64::MAX,
        ensures
            final(self).wf(),
            final(self).claim_timeout == old(self).claim_timeout,
            final(self).cache_timeout == old(self).cache_timeout,
            final(self).cache@ == old(self).cache@,
            final(self).claims@ == claims_without_peer(old(self).claims@, peer) + claims_of(
                peer,
                ranges@,
                (now + old(self).claim_timeout) as u64,
            ),
    {
        let ghost oldclaims = self.claims@;
        let ghost pred = |c: Claim| c.peer != peer;
        let mut kept: Vec<Claim> = Vec::new();
        let ghost mut i: int = 0;
        while self.claims.len() > 0
            invariant
                pred == (|c: Claim| c.peer != peer),
                0 <= i <= oldclaims.len(),
                self.claims@ == oldclaims.skip(i),
                kept@ == oldclaims.take(i).filter(pred),
                self.cache@ == old(self).cache@,
                self.claim_timeout == old(self).claim_timeout,
                self.cache_timeout == old(self).cache_timeout,
            decreases self.claims@.len(),
        {
            proof {
                lemma_filter_take_succ(oldclaims, pred, i);
                assert(oldclaims.skip(i)[0] == oldclaims[i]);
                assert(oldclaims.skip(i).remove(0) =~= oldclaims.skip(i + 1));
            }
            let c = self.claims.remove(0);
            if c.peer != peer {
                kept.push(c);
            }
            proof {
                i = i + 1;
            }
        }
        proof {
            assert(i == oldclaims.len());
            lemma_filter_take_all(oldclaims, pred);
            lemma_claims_without_peer_is_filter(oldclaims, peer, pred);
            lemma_filter_membership(oldclaims, pred);
        }
        self.claims = kept;
        let ghost keptseq = self.claims@;
        assert(self.claim_timeout == old(self).claim_timeout);
        let expiry = now + self.claim_timeout;
        let mut ranges = ranges;
        let ghost oldranges = ranges@;
        let ghost mut k: int = 0;
        while ranges.len() > 0
            invariant
                0 <= k <= oldranges.len(),
                ranges@ == oldranges.skip(k),
                self.claims@.len() == keptseq.len() + k,
                self.claims@.take(keptseq.len() as int) == keptseq,
                self.cache@ == old(self).cache@,
                self.claim_timeout == old(self).claim_timeout,
                self.cache_timeout == old(self).cache_timeout,
                forall|j: int|
                    0 <= j < k ==> {
                        let c = #[trigger] self.claims@[keptseq.len() + j];
                        &&& c.peer == peer
                        &&& c.range == oldranges[j]
                        &&& c.expiry == expiry
                    },
            decreases ranges@.len(),
        {
            proof {
                assert(oldranges.skip(k)[0] == oldranges[k]);
                assert(oldranges.skip(k).remove(0) =~= oldranges.skip(k + 1));
            }
            let r = ranges.remove(0);
            self.claims.push(Claim { peer, range: r, expiry });
            proof {
                assert(self.claims@.take(keptseq.len() as int) =~= keptseq);
                k = k + 1;
            }
        }
        proof {
            assert(k == oldranges.len());
            let target = keptseq + claims_of(peer, oldranges, expiry);
            assert forall|i2: int| 0 <= i2 < self.claims@.len() implies self.claims@[i2]
                == target[i2] by {
                if i2 >= keptseq.len() {
                    let j = i2 - keptseq.len();
                    assert(self.claims@[keptseq.len() + j].peer == peer);
                    let c = self.claims@[i2];
                    assert(c.range == oldranges[j] && c.expiry == expiry);
                    assert(claims_of(peer, oldranges, expiry)[j] == Claim {
                        peer,
                        range: oldranges[j],
                        expiry,
                    });
                } else {
                    assert(self.claims@.take(keptseq.len() as int)[i2] == self.claims@[i2]);
                }
            }
            assert(self.claims@ =~= target);
            assert forall|i2: int| 0 <= i2 < self.claims@.len() implies (#[trigger] self.claims@[i2]).range.wf() by {
                if i2 < keptseq.len() {
                    assert(keptseq[i2] == oldclaims.filter(pred)[i2]);
                    assert(oldclaims.contains(keptseq[i2]));
                    let w = choose|w: int|
                        0 <= w < oldclaims.len() && oldclaims[w] == keptseq[i2];
                    assert(oldclaims[w].range.wf());
                } else {
                    let j = i2 - keptseq.len();
                    assert(self.claims@[keptseq.len() + j].range == oldranges[j]);
                }
            }
        }
    }

    /// Drops every claim of `peer`; the cache is untouched.
    pub fn remove_claims(&mut self, peer: SockAddr)
        requires
            old(self).wf(),
        ensures
            final(self).wf(),
            final(self).claim_timeout == old(self).claim_timeout,
            final(self).cache_timeout == old(self).cache_timeout,
            final(self).cache@ == old(self).cache@,
            final(self).claims@ == claims_without_peer(old(self).claims@, peer),
    {
        let ghost oldclaims = self.claims@;
        let ghost pred = |c: Claim| c.peer != peer;
        let mut kept: Vec<Claim> = Vec::new();
        let ghost mut i: int = 0;
        while self.claims.len() > 0
            invariant
                pred == (|c: Claim| c.peer != peer),
                0 <= i <= oldclaims.len(),
                self.claims@ == oldclaims.skip(i),
                kept@ == oldclaims.take(i).filter(pred),
                self.cache@ == old(self).cache@,
                self.claim_timeout == old(self).claim_timeout,
                self.cache_timeout == old(self).cache_timeout,
            decreases self.claims@.len(),
        {
            proof {
                lemma_filter_take_succ(oldclaims, pred, i);
                assert(oldclaims.skip(i)[0] == oldclaims[i]);
                assert(oldclaims.skip(i).remove(0) =~= oldclaims.skip(i + 1));
            }
            let c = self.claims.remove(0);
            if c.peer != peer {
                kept.push(c);
            }
            proof {
                i = i + 1;
            }
        }
        proof {
            assert(i == oldclaims.len());
            lemma_filter_take_all(oldclaims, pred);
            lemma_claims_without_peer_is_filter(oldclaims, peer, pred);
            lemma_filter_membership(oldclaims, pred);
            assert forall|i2: int| 0 <= i2 < kept@.len() implies (#[trigger] kept@[i2]).range.wf() by {
                assert(oldclaims.contains(kept@[i2]));
                let w = choose|w: int| 0 <= w < oldclaims.len() && oldclaims[w] == kept@[i2];
                assert(oldclaims[w].range.wf());
            }
        }
        self.claims = kept;
    }

    /// Drops every claim and cache entry owned by `peer`: used when the
    /// peer times out or says goodbye.
    pub fn remove_all(&mut self, peer: SockAddr)
        requires
            old(self).wf(),
        ensures
            final(self).wf(),
            final(self).claim_timeout == old(self).claim_timeout,
            final(self).cache_timeout == old(self).cache_timeout,
            final(self).claims@ == claims_without_peer(old(self).claims@, peer),
            final(self).cache@ == cache_without_peer(old(self).cache@, peer),
    {
        self.remove_claims(peer);
        let ghost midclaims = self.claims@;
        let ghost oldcache = self.cache@;
        let ghost pred = |e: CacheEntry| e.peer != peer;
        let mut kept: Vec<CacheEntry> = Vec::new();
        let ghost mut i: int = 0;
        while self.cache.len() > 0
            invariant
                pred == (|e: CacheEntry| e.peer != peer),
                0 <= i <= oldcache.len(),
                self.cache@ == oldcache.skip(i),
                kept@ == oldcache.take(i).filter(pred),
                self.claims@ == midclaims,
                self.claim_timeout == old(self).claim_timeout,
                self.cache_timeout == old(self).cache_timeout,
            decreases self.cache@.len(),
        {
            proof {
                lemma_filter_take_succ(oldcache, pred, i);
                assert(oldcache.skip(i)[0] == oldcache[i]);
                assert(oldcache.skip(i).remove(0) =~= oldcache.skip(i + 1));
            }
            let e = self.cache.remove(0);
            if e.peer != peer {
                kept.push(e);
            }
            proof {
                i = i + 1;
            }
        }
        proof {
            assert(i == oldcache.len());
            lemma_filter_take_all(oldcache, pred);
            lemma_cache_without_peer_is_filter(oldcache, peer, pred);
            lemma_cache_distinct_filter(oldcache, pred);
        }
        self.cache = kept;
    }

    /// Drops the cache entries for exactly this address; claims stay.
    pub fn remove_addr(&mut self, addr: &Addr)
        requires
            old(self).wf(),
        ensures
            final(self).wf(),
            final(self).claim_timeout == old(self).claim_timeout,
            final(self).cache_timeout == old(self).cache_timeout,
            final(self).claims@ == old(self).claims@,
            final(self).cache@ == cache_without_addr(old(self).cache@, addr@),
    {
        let ghost oldcache = self.cache@;
        let ghost pred = |e: CacheEntry| e.addr@ != addr@;
        let mut kept: Vec<CacheEntry> = Vec::new();
        let ghost mut i: int = 0;
        while self.cache.len() > 0
            invariant
                pred == (|e: CacheEntry| e.addr@ != addr@),
                0 <= i <= oldcache.len(),
                self.cache@ == oldcache.skip(i),
                kept@ == oldcache.take(i).filter(pred),
                self.claims@ == old(self).claims@,
                self.claim_timeout == old(self).claim_timeout,
                self.cache_timeout == old(self).cache_timeout,
            decreases self.cache@.len(),
        {
            proof {
                lemma_filter_take_succ(oldcache, pred, i);
                assert(oldcache.skip(i)[0] == oldcache[i]);
                assert(oldcache.skip(i).remove(0) =~= oldcache.skip(i + 1));
            }
            let e = self.cache.remove(0);
            if !addr_eq(&e.addr, addr) {
                kept.push(e);
            }
            proof {
                i = i + 1;
            }
        }
        proof {
            assert(i == oldcache.len());
            lemma_filter_take_all(oldcache, pred);
            lemma_cache_without_addr_is_filter(oldcache, addr@, pred);
            lemma_cache_distinct_filter(oldcache, pred);
        }
        self.cache = kept;
    }

    /// Inserts or refreshes the learned cache entry for a host address.
    pub fn cache(&mut self, addr: &Addr, peer: SockAddr, now: u64)
        requires
            old(self).wf(),
            now + old(self).cache_timeout <= u64::MAX,
        ensures
            final(self).wf(),
            final(self).claim_timeout == old(self).claim_timeout,
            final(self).cache_timeout == old(self).cache_timeout,
            final(self).claims@ == old(self).claims@,
            has_cache_in(old(self).cache@, addr@) ==> {
                let i = cache_index_in(old(self).cache@, addr@);
                &&& final(self).cache@.len() == old(self).cache@.len()
                &&& forall|j: int|
                    0 <= j < old(self).cache@.len() && j != i ==> final(self).cache@[j] == old(
                        self,
                    ).cache@[j]
                &&& final(self).cache@[i].addr@ == addr@
                &&& final(self).cache@[i].peer == peer
                &&& final(self).cache@[i].expiry == now + old(self).cache_timeout
            },
            !has_cache_in(old(self).cache@, addr@) ==> {
                &&& final(self).cache@.len() == old(self).cache@.len() + 1
                &&& final(self).cache@.drop_last() == old(self).cache@
                &&& final(self).cache@.last().addr@ == addr@
                &&& final(self).cache@.last().peer == peer
                &&& final(self).cache@.last().expiry == now + old(self).cache_timeout
            },
    {
        let expiry = now + self.cache_timeout;
        match self.index_of_cache(addr) {
            Some(i) => {
                let ghost oldcache = self.cache@;
                let mut e = self.cache.remove(i);
                e.peer = peer;
                e.expiry = expiry;
                self.cache.insert(i, e);
                proof {
                    assert forall|j: int|
                        0 <= j < oldcache.len() && j != i as int implies self.cache@[j]
                        == oldcache[j] by {
                        if j < i as int {
                            assert(self.cache@[j] == oldcache.remove(i as int).insert(
                                i as int,
                                self.cache@[i as int],
                            )[j]);
                        }
                    }
                    assert forall|p: int, q: int| 0 <= p < q < self.cache@.len() implies self.cache@[p].addr@ != self.cache@[q].addr@ by {
                        assert(self.cache@[p].addr@ == oldcache[p].addr@);
                        assert(self.cache@[q].addr@ == oldcache[q].addr@);
                    }
                }
            },
            None => {
                let a = clone_addr(addr);
                let ghost oldcache = self.cache@;
                self.cache.push(CacheEntry { addr: a, peer, expiry });
                proof {
                    assert(self.cache@.drop_last() =~= oldcache);
                    assert forall|p: int, q: int| 0 <= p < q < self.cache@.len() implies self.cache@[p].addr@ != self.cache@[q].addr@ by {
                        if q < oldcache.len() {
                            assert(self.cache@[p].addr@ == oldcache[p].addr@);
                            assert(self.cache@[q].addr@ == oldcache[q].addr@);
                        } else {
                            assert(self.cache@[q].addr@ == addr@);
                            assert(self.cache@[p].addr@ == oldcache[p].addr@);
                            if oldcache[p].addr@ == addr@ {
                                assert(has_cache_in(oldcache, addr@));
                            }
                        }
                    }
                }
            },
        }
    }

    /// Forwarding decision for an inner address, as `spec_lookup` states.
    pub fn lookup(&self, addr: &Addr, now: u64) -> (r: Option<SockAddr>)
        requires
            self.wf(),
            addr.wf(),
        ensures
            r == self.spec_lookup(addr@, now),
    {
        match self.index_of_cache(addr) {
            Some(i) => {
                if self.cache[i].expiry >= now {
                    return Some(self.cache[i].peer);
                }
            },
            None => {},
        }
        let n = self.claims.len();
        let mut best: Option<usize> = None;
        let mut i: usize = 0;
        while i < n
            invariant
                self.wf(),
                addr.wf(),
                n == self.claims@.len(),
                0 <= i <= n,
                match best {
                    None => best_claim_index(self.claims@.take(i as int), addr@) is None,
                    Some(b) => 0 <= b < i && best_claim_index(self.claims@.take(i as int), addr@)
                        == Some(b as int),
                },
            decreases n - i,
        {
            proof {
                lemma_best_take_succ(self.claims@, addr@, i as int);
            }
            let c = &self.claims[i];
            if range_contains(&c.range, addr) {
                match best {
                    None => {
                        best = Some(i);
                    },
                    Some(b) => {
                        let cur = &self.claims[b];
                        if c.range.prefix_len > cur.range.prefix_len || (c.range.prefix_len
                            == cur.range.prefix_len && c.expiry >= cur.expiry) {
                            best = Some(i);
                        }
                    },
                }
            }
            i += 1;
        }
        proof {
            assert(self.claims@.take(n as int) =~= self.claims@);
        }
        match best {
            None => None,
            Some(b) => Some(self.claims[b].peer),
        }
    }

    /// Evicts every expired claim and cache entry.
    pub fn housekeep(&mut self, now: u64)
        requires
            old(self).wf(),
        ensures
            final(self).wf(),
            final(self).claim_timeout == old(self).claim_timeout,
            final(self).cache_timeout == old(self).cache_timeout,
            final(self).claims@ == claims_unexpired(old(self).claims@, now),
            final(self).cache@ == cache_unexpired(old(self).cache@, now),
    {
        let ghost oldclaims = self.claims@;
        let ghost predc = |c: Claim| c.expiry >= now;
        let mut keptc: Vec<Claim> = Vec::new();
        let ghost mut i: int = 0;
        while self.claims.len() > 0
            invariant
                predc == (|c: Claim| c.expiry >= now),
                0 <= i <= oldclaims.len(),
                self.claims@ == oldclaims.skip(i),
                keptc@ == oldclaims.take(i).filter(predc),
                self.cache@ == old(self).cache@,
                self.claim_timeout == old(self).claim_timeout,
                self.cache_timeout == old(self).cache_timeout,
            decreases self.claims@.len(),
        {
            proof {
                lemma_filter_take_succ(oldclaims, predc, i);
                assert(oldclaims.skip(i)[0] == oldclaims[i]);
                assert(oldclaims.skip(i).remove(0) =~= oldclaims.skip(i + 1));
            }
            let c = self.claims.remove(0);
            if c.expiry >= now {
                keptc.push(c);
            }
            proof {
                i = i + 1;
            }
        }
        proof {
            assert(i == oldclaims.len());
            lemma_filter_take_all(oldclaims, predc);
            lemma_claims_unexpired_is_filter(oldclaims, now, predc);
            lemma_filter_membership(oldclaims, predc);
            assert forall|i2: int| 0 <= i2 < keptc@.len() implies (#[trigger] keptc@[i2]).range.wf() by {
                assert(oldclaims.contains(keptc@[i2]));
                let w = choose|w: int| 0 <= w < oldclaims.len() && oldclaims[w] == keptc@[i2];
                assert(oldclaims[w].range.wf());
            }
        }
        self.claims = keptc;
        let ghost midclaims = self.claims@;
        let ghost oldcache = self.cache@;
        let ghost prede = |e: CacheEntry| e.expiry >= now;
        let mut kepte: Vec<CacheEntry> = Vec::new();
        let ghost mut j: int = 0;
        while self.cache.len() > 0
            invariant
                prede == (|e: CacheEntry| e.expiry >= now),
                0 <= j <= oldcache.len(),
                self.cache@ == oldcache.skip(j),
                kepte@ == oldcache.take(j).filter(prede),
                self.claims@ == midclaims,
                self.claim_timeout == old(self).claim_timeout,
                self.cache_timeout == old(self).cache_timeout,
            decreases self.cache@.len(),
        {
            proof {
                lemma_filter_take_succ(oldcache, prede, j);
                assert(oldcache.skip(j)[0] == oldcache[j]);
                assert(oldcache.skip(j).remove(0) =~= oldcache.skip(j + 1));
            }
            let e = self.cache.remove(0);
            if e.expiry >= now {
                kepte.push(e);
            }
            proof {
                j = j + 1;
            }
        }
        proof {
            assert(j == oldcache.len());
            lemma_filter_take_all(oldcache, prede);
            lemma_cache_unexpired_is_filter(oldcache, now, prede);
            lemma_cache_distinct_filter(oldcache, prede);
        }
        self.cache = kepte;
    }
}

/// Distinct cache addresses survive any filter.
pub proof fn lemma_cache_distinct_filter(s: Seq<CacheEntry>, pred: spec_fn(CacheEntry) -> bool)
    requires
        forall|p: int, q: int| 0 <= p < q < s.len() ==> s[p].addr@ != s[q].addr@,
    ensures
        forall|p: int, q: int|
            0 <= p < q < s.filter(pred).len() ==> s.filter(pred)[p].addr@ != s.filter(
                pred,
            )[q].addr@,
    decreases s.len(),
{
    reveal(Seq::filter);
    if s.len() > 0 {
        let dl = s.drop_last();
        assert forall|p: int, q: int| 0 <= p < q < dl.len() implies dl[p].addr@ != dl[q].addr@ by {
            assert(s[p] == dl[p] && s[q] == dl[q]);
        }
        lemma_cache_distinct_filter(dl, pred);
        lemma_filter_membership(dl, pred);
        let f = s.filter(pred);
        let fd = dl.filter(pred);
        if pred(s.last()) {
            assert(f == fd.push(s.last()));
            assert forall|p: int, q: int| 0 <= p < q < f.len() implies f[p].addr@
                != f[q].addr@ by {
                if q < fd.len() {
                    assert(f[p] == fd[p] && f[q] == fd[q]);
                } else {
                    assert(f[q] == s.last());
                    assert(f[p] == fd[p]);
                    assert(dl.contains(fd[p]));
                    let k = choose|k: int| 0 <= k < dl.len() && dl[k] == fd[p];
                    assert(s[k] == fd[p]);
                    assert(s[k].addr@ != s[s.len() - 1].addr@);
                }
            }
        }
    }
}

/// After replacing a peer's claims and then removing that peer's claims, the
/// claim sequence is as if the claims had never been set: the other peers'
/// claims, unchanged and in order.
pub proof fn lemma_remove_claims_undoes_set_claims(
    pre: Seq<Claim>,
    mid: Seq<Claim>,
    p: SockAddr,
)
    requires
        mid.len() >= claims_without_peer(pre, p).len(),
        mid.take(claims_without_peer(pre, p).len() as int) == claims_without_peer(pre, p),
        forall|j: int|
            claims_without_peer(pre, p).len() <= j < mid.len() ==> (#[trigger] mid[j]).peer == p,
    ensures
        claims_without_peer(mid, p) == claims_without_peer(pre, p),
        (forall|i: int| 0 <= i < pre.len() ==> (#[trigger] pre[i]).peer != p)
            ==> claims_without_peer(mid, p) == pre,
{
    let pred = |c: Claim| c.peer != p;
    lemma_claims_without_peer_is_filter(pre, p, pred);
    lemma_claims_without_peer_is_filter(mid, p, pred);
    let f = pre.filter(pred);
    let tail = mid.skip(f.len() as int);
    assert(mid =~= f + tail);
    Seq::filter_distributes_over_add(f, tail, pred);
    lemma_filter_membership(pre, pred);
    assert forall|i: int| 0 <= i < f.len() implies pred(#[trigger] f[i]) by {}
    lemma_filter_all_true(f, pred);
    assert forall|i: int| 0 <= i < tail.len() implies !pred(#[trigger] tail[i]) by {
        assert(tail[i] == mid[f.len() + i]);
    }
    lemma_filter_all_false(tail, pred);
    assert(mid.filter(pred) =~= f);
    if forall|i: int| 0 <= i < pre.len() ==> (#[trigger] pre[i]).peer != p {
        assert forall|i: int| 0 <= i < pre.len() implies pred(#[trigger] pre[i]) by {}
        lemma_filter_all_true(pre, pred);
    }
}

/// Setting and then removing a peer's claims, in the exact shape of the
/// operations' contracts: `set_claims(p, R)` turns the claims into the kept
/// part plus `R`'s rows, and `remove_claims(p)` on that state hands back
/// exactly the kept part — as if the claims had never been set.
pub proof fn lemma_set_claims_round_trip(pre: Seq<Claim>, p: SockAddr, rs: Seq<AddrRange>, e: u64)
    ensures
        claims_without_peer(claims_without_peer(pre, p) + claims_of(p, rs, e), p)
            == claims_without_peer(pre, p),
        (forall|i: int| 0 <= i < pre.len() ==> (#[trigger] pre[i]).peer != p)
            ==> claims_without_peer(claims_without_peer(pre, p) + claims_of(p, rs, e), p) == pre,
{
    let mid = claims_without_peer(pre, p) + claims_of(p, rs, e);
    let f = claims_without_peer(pre, p);
    assert(mid.take(f.len() as int) =~= f);
    assert forall|j: int| f.len() <= j < mid.len() implies (#[trigger] mid[j]).peer == p by {
        assert(mid[j] == claims_of(p, rs, e)[j - f.len()]);
    }
    lemma_remove_claims_undoes_set_claims(pre, mid, p);
}

/// Clones an inner address.
pub fn clone_addr(a: &Addr) -> (out: Addr)
    ensures
        out@ == a@,
{
    let n = a.bytes.len();
    let mut bytes: Vec<u8> = Vec::new();
    let mut i: usize = 0;
    while i < n
        invariant
            n == a@.len(),
            0 <= i <= n,
            bytes@ == a@.take(i as int),
        decreases n - i,
    {
        bytes.push(a.bytes[i]);
        proof {
            assert(bytes@ =~= a@.take(i as int + 1));
        }
        i += 1;
    }
    proof {
        assert(bytes@ =~= a@);
    }
    Addr { bytes }
}

} // verus!
