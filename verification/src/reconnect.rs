//! Reconnect entries: named remotes dialled with exponential backoff.  Every
//! ten consecutive failures the backoff doubles, capped at one hour; any
//! successful connection resets it to one second.

use vstd::prelude::*;
use crate::addr::SockAddr;

verus! {

/// The longest backoff, in seconds.
pub const MAX_BACKOFF: u16 = 3600;

/// How long a DNS resolution is trusted, in seconds.
pub const RESOLVE_INTERVAL: u64 = 300;

/// A named remote to keep dialling: the name, its last resolution, the
/// consecutive-failure count and the current backoff.
pub struct ReconnectEntry {
    pub address: String,
    pub resolved: Vec<SockAddr>,
    pub next_resolve: u64,
    pub tries: u16,
    pub backoff: u16,
    pub next: u64,
}

/// The backoff values that can ever be held: the powers of two up to 2048,
/// and the one-hour cap.
pub open spec fn valid_backoff(b: u16) -> bool {
    ||| b == 1
    ||| b == 2
    ||| b == 4
    ||| b == 8
    ||| b == 16
    ||| b == 32
    ||| b == 64
    ||| b == 128
    ||| b == 256
    ||| b == 512
    ||| b == 1024
    ||| b == 2048
    ||| b == 3600
}

/// What a failed dial attempt does to an entry: the current backoff is
/// applied to schedule the next attempt, and after every tenth consecutive
/// failure the backoff doubles, capped at one hour.
pub open spec fn fail_rel(pre: ReconnectEntry, post: ReconnectEntry, now: u64) -> bool {
    &&& post.next == now + pre.backoff
    &&& (pre.tries < 9 ==> post.tries == pre.tries + 1 && post.backoff == pre.backoff)
    &&& (pre.tries >= 9 ==> post.tries == 0 && post.backoff == (if pre.backoff <= 1800 {
        (2 * pre.backoff) as u16
    } else {
        3600u16
    }))
    &&& post.address == pre.address
    &&& post.resolved == pre.resolved
    &&& post.next_resolve == pre.next_resolve
}

/// What a successful connection does to an entry: failures and backoff
/// reset, next check in a second.
pub open spec fn success_rel(pre: ReconnectEntry, post: ReconnectEntry, now: u64) -> bool {
    &&& post.tries == 0
    &&& post.backoff == 1
    &&& post.next == now + 1
    &&& post.address == pre.address
    &&& post.resolved == pre.resolved
    &&& post.next_resolve == pre.next_resolve
}

impl ReconnectEntry {
    pub open spec fn wf(&self) -> bool {
        valid_backoff(self.backoff) && self.tries <= 9
    }

    /// A fresh entry: no failures, one-second backoff, due at once.
    pub fn new(address: String, now: u64) -> (r: ReconnectEntry)
        ensures
            r.wf(),
            r.address@ == address@,
            r.resolved@.len() == 0,
            r.next_resolve == now,
            r.tries == 0,
            r.backoff == 1,
            r.next == now,
    {
        ReconnectEntry {
            address,
            resolved: Vec::new(),
            next_resolve: now,
            tries: 0,
            backoff: 1,
            next: now,
        }
    }

    /// A dial attempt failed: the current backoff is applied to schedule the
    /// next attempt, and after every tenth consecutive failure the backoff
    /// doubles, capped at one hour.
    pub fn fail_step(&mut self, now: u64)
        requires
            old(self).wf(),
            now + old(self).backoff <= u64::MAX,
        ensures
            final(self).wf(),
            fail_rel(*old(self), *final(self), now),
    {
        self.next = now + self.backoff as u64;
        self.tries += 1;
        if self.tries >= 10 {
            self.tries = 0;
            self.backoff = if self.backoff <= 1800 {
                2 * self.backoff
            } else {
                MAX_BACKOFF
            };
        }
    }

    /// The remote is connected: failures and backoff reset, next check in a
    /// second.
    pub fn success_step(&mut self, now: u64)
        requires
            now + 1 <= u64::MAX,
        ensures
            final(self).wf(),
            success_rel(*old(self), *final(self), now),
    {
        self.tries = 0;
        self.backoff = 1;
        self.next = now + 1;
    }

    /// Fresh resolution results arrived for this entry.
    pub fn apply_resolution(&mut self, resolved: Vec<SockAddr>, now: u64)
        requires
            old(self).wf(),
            now + RESOLVE_INTERVAL <= u64::MAX,
        ensures
            final(self).wf(),
            final(self).resolved@ == resolved@,
            final(self).next_resolve == now + RESOLVE_INTERVAL,
            final(self).address == old(self).address,
            final(self).tries == old(self).tries,
            final(self).backoff == old(self).backoff,
            final(self).next == old(self).next,
    {
        self.resolved = resolved;
        self.next_resolve = now + RESOLVE_INTERVAL;
    }
}

/// The backoff stays within the powers of two up to 2048 and the one-hour
/// cap: doubling a value of the set, capped, lands in the set, and every
/// value of the set lies within one second and one hour.
pub proof fn lemma_backoff_set_closed(b: u16)
    requires
        valid_backoff(b),
    ensures
        b <= 1800 ==> valid_backoff((2 * b) as u16),
        b > 1800 ==> valid_backoff(3600),
        1 <= b <= 3600,
{
}

} // verus!
