//! The total priority order over packets: smaller injection round first,
//! ties broken by smaller id.  Every protocol's notion of "oldest" and
//! "youngest" refers to this order.

use vstd::prelude::*;
use crate::packet::Packet;

verus! {

/// Packet `p` has strictly higher priority than `q`: it was injected on an
/// earlier round, or on the same round with a smaller id.
pub open spec fn spec_higher_priority(p: Packet, q: Packet) -> bool {
    p.injection_rd < q.injection_rd || (p.injection_rd == q.injection_rd && p.id < q.id)
}

/// Returns whether `p` has higher priority than `q` under LIS
/// ("longest in system"): lexicographically by injection round, then id.
pub fn lis_higher_priority(p: &Packet, q: &Packet) -> (r: bool)
    ensures
        r == spec_higher_priority(*p, *q),
{
    p.injection_rd < q.injection_rd || (p.injection_rd == q.injection_rd && p.id < q.id)
}

/// The priority relation is a strict total order on packets with distinct
/// ids: irreflexive, asymmetric, transitive, and total.
pub proof fn lemma_priority_strict_total_order(p: Packet, q: Packet, r: Packet)
    ensures
        !spec_higher_priority(p, p),
        spec_higher_priority(p, q) ==> !spec_higher_priority(q, p),
        spec_higher_priority(p, q) && spec_higher_priority(q, r) ==> spec_higher_priority(p, r),
        p.id != q.id ==> spec_higher_priority(p, q) || spec_higher_priority(q, p),
{
}

} // verus!
