//! Trusted access to the process random number generator, used to pick a
//! fresh node identifier and to sample peers for gossip and beacons.

use vstd::prelude::*;
use crate::addr::NodeId;

verus! {

/// Relies on rand::seq::index::sample: it returns exactly `k` distinct
/// indices drawn from `0..n` in random order, and panics only when `k > n`.
#[verifier::external_body]
pub(crate) fn sample_indices(n: usize, k: usize) -> (r: Vec<usize>)
    requires
        k <= n,
    ensures
        r@.len() == k,
        forall|i: int| 0 <= i < r@.len() ==> r@[i] < n,
        forall|i: int, j: int| 0 <= i < j < r@.len() ==> r@[i] != r@[j],
{
    rand::seq::index::sample(&mut rand::thread_rng(), n, k).into_vec()
}

/// Relies on rand::random: a fresh random identifier for this process.
/// Nothing is promised of the value.
#[verifier::external_body]
pub(crate) fn random_node_id() -> (r: NodeId)
{
    NodeId { hi: rand::random(), lo: rand::random() }
}

} // verus!
