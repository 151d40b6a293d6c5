//! The cheapest route search of a rebalance: from the job's channel partner
//! (or from us) over the channel graph, and the route that the payment
//! takes along what it finds.
use crate::fees::{fee_total_msat_ceil, feeppm_effective, spec_fee_ceil, spec_feeppm_effective};
use crate::graph::{edge_usable, spec_state_no_direction, LnGraph, ShortChannelIdDirState};
use crate::SatDirection;
use crate::model::{node_index_key, spec_node_index_key, Liquidity, PubKeyBytes, ShortChannelIdDir};
use std::collections::HashMap;
use vstd::prelude::*;

verus! {

broadcast use vstd::std_specs::hash::group_hash_axioms;

/// A node reached by the search: the channel it was reached over, the
/// score of the way there and its number of hops.
#[derive(Debug, Clone, Copy)]
pub struct DijkstraNode {
    pub score: u64,
    pub channel_state: ShortChannelIdDirState,
    pub short_channel_id: u64,
    pub destination: PubKeyBytes,
    pub hops: u8,
}

/// One hop of a payment route: what to send to `id` over `channel`, and
/// with which delay.
#[derive(Debug, Clone, Copy)]
pub struct SendpayRoute {
    pub amount_msat: u64,
    pub id: PubKeyBytes,
    pub delay: u32,
    pub channel: u64,
}

/// Two search nodes are taken for the same when their score, hops, both
/// ends of their channel, short channel id and destination agree.
pub open spec fn spec_node_eq(a: DijkstraNode, b: DijkstraNode) -> bool {
    &&& a.score == b.score
    &&& a.hops == b.hops
    &&& a.channel_state.source == b.channel_state.source
    &&& a.channel_state.destination == b.channel_state.destination
    &&& a.short_channel_id == b.short_channel_id
    &&& a.destination == b.destination
}

impl DijkstraNode {
    pub fn eq(&self, other: &DijkstraNode) -> (r: bool)
        ensures
            r == spec_node_eq(*self, *other),
    {
        let r = self.score == other.score && self.hops == other.hops
            && self.channel_state.source.same_as(&other.channel_state.source)
            && self.channel_state.destination.same_as(&other.channel_state.destination)
            && self.short_channel_id == other.short_channel_id
            && self.destination.same_as(&other.destination);
        proof {
            if self.channel_state.source.0@ == other.channel_state.source.0@ {
                assert(self.channel_state.source.0 == other.channel_state.source.0);
            }
            if self.channel_state.destination.0@ == other.channel_state.destination.0@ {
                assert(self.channel_state.destination.0 == other.channel_state.destination.0);
            }
            if self.destination.0@ == other.destination.0@ {
                assert(self.destination.0 == other.destination.0);
            }
        }
        r
    }
}

/// The cost of a channel for the search: its effective fee rate for the
/// amount, plus 2 so that every hop costs something (saturating).
pub open spec fn spec_edge_cost(edge: ShortChannelIdDirState, amount: u64) -> u64 {
    let c = spec_feeppm_effective(edge.fee_per_millionth, edge.base_fee_millisatoshi, amount) + 2;
    if c > u64::MAX {
        u64::MAX
    } else {
        c as u64
    }
}

pub fn edge_cost(edge: &ShortChannelIdDirState, amount: u64) -> (r: u64)
    ensures
        r == spec_edge_cost(*edge, amount),
{
    feeppm_effective(edge.fee_per_millionth, edge.base_fee_millisatoshi, amount).saturating_add(2)
}

/// The short channel id a hop is paid over: the channel's alias when it has
/// one.
pub open spec fn routing_scid(n: DijkstraNode) -> u64 {
    match n.channel_state.scid_alias {
        Some(a) => a,
        None => n.short_channel_id,
    }
}

/// The hops of the route for the first `i` nodes of a search path (last
/// hop first), with the amount and delay carried to the next: the first
/// node (and any node taken for the same) receives `amount_msat`, each
/// other what its successor receives plus the fee (rounded up) that the
/// successor's channel charges for it; delays add up from `cltv_delta`.
/// `None` when an amount or delay leaves its integer range.
pub open spec fn spec_route_steps(p: Seq<DijkstraNode>, amount_msat: u64, cltv_delta: u32, i: nat) -> Option<
    (Seq<SendpayRoute>, u64, u32),
>
    decreases i,
{
    if i == 0 {
        Some((Seq::empty(), 0u64, cltv_delta))
    } else {
        match spec_route_steps(p, amount_msat, cltv_delta, (i - 1) as nat) {
            None => None,
            Some((hops, carry_amount, carry_delay)) => {
                let k = i - 1;
                let hop = p[k];
                let amt = if spec_node_eq(hop, p[0]) {
                    amount_msat
                } else {
                    carry_amount
                };
                let next_amount = amt + spec_fee_ceil(
                    hop.channel_state.fee_per_millionth,
                    hop.channel_state.base_fee_millisatoshi,
                    amt,
                );
                let next_delay = carry_delay + hop.channel_state.delay;
                if next_amount > u64::MAX || next_delay > u32::MAX {
                    None
                } else {
                    Some(
                        (
                            hops.push(
                                SendpayRoute {
                                    amount_msat: amt,
                                    id: hop.destination,
                                    delay: carry_delay,
                                    channel: routing_scid(hop),
                                },
                            ),
                            next_amount as u64,
                            next_delay as u32,
                        ),
                    )
                }
            },
        }
    }
}

/// The payment route along a search path given last hop first: the hops
/// in the order the payment takes them; `None` when an amount or delay
/// leaves its integer range.
pub open spec fn spec_route(p: Seq<DijkstraNode>, amount_msat: u64, cltv_delta: u32) -> Option<Seq<SendpayRoute>> {
    match spec_route_steps(p, amount_msat, cltv_delta, p.len()) {
        Some((hops, _, _)) => Some(hops.reverse()),
        None => None,
    }
}

proof fn lemma_steps_none(p: Seq<DijkstraNode>, amount_msat: u64, cltv_delta: u32, i: nat, j: nat)
    requires
        i <= j,
        spec_route_steps(p, amount_msat, cltv_delta, i) is None,
    ensures
        spec_route_steps(p, amount_msat, cltv_delta, j) is None,
    decreases j - i,
{
    if i < j {
        lemma_steps_none(p, amount_msat, cltv_delta, i, (j - 1) as nat);
    }
}

/// The hops of a path's route so far: one per node, paid to the node's end,
/// the first for `amount_msat` and each later one for at least as much as
/// the one before, when no later node ends where the first does.
proof fn lemma_steps_shape(p: Seq<DijkstraNode>, amount_msat: u64, cltv_delta: u32, i: nat)
    requires
        i <= p.len(),
        spec_route_steps(p, amount_msat, cltv_delta, i) is Some,
        forall|k: int| 0 < k < p.len() ==> #[trigger] p[k].destination != p[0].destination,
    ensures
        ({
            let (hops, carry, _) = spec_route_steps(p, amount_msat, cltv_delta, i)->0;
            &&& hops.len() == i
            &&& forall|k: int| 0 <= k < i ==> #[trigger] hops[k].id == p[k].destination
            &&& i > 0 ==> hops[0].amount_msat == amount_msat
            &&& i > 0 ==> carry >= hops[i - 1].amount_msat
            &&& forall|k: int| 0 <= k < i - 1 ==> #[trigger] hops[k + 1].amount_msat >= hops[k].amount_msat
        }),
    decreases i,
{
    if i > 0 {
        lemma_steps_shape(p, amount_msat, cltv_delta, (i - 1) as nat);
        let k = i - 1;
        if k > 0 {
            assert(p[k].destination != p[0].destination);
            assert(!spec_node_eq(p[k], p[0]));
        }
    }
}

/// A route along a path whose nodes all differ pays each node once, ends
/// with `amount_msat` delivered, and pays each hop at least what the next
/// receives.
pub proof fn lemma_route_shape(p: Seq<DijkstraNode>, amount_msat: u64, cltv_delta: u32)
    requires
        p.len() >= 1,
        spec_route(p, amount_msat, cltv_delta) is Some,
        forall|i: int, j: int| #![trigger p[i], p[j]] 0 <= i < j < p.len() ==> p[i].destination != p[j].destination,
    ensures
        ({
            let v = spec_route(p, amount_msat, cltv_delta)->0;
            &&& v.len() == p.len()
            &&& route_shape(v, amount_msat)
        }),
{
    assert forall|k: int| 0 < k < p.len() implies #[trigger] p[k].destination != p[0].destination by {
        assert(p[0].destination != p[k].destination);
    }
    lemma_steps_shape(p, amount_msat, cltv_delta, p.len());
    let (hops, _, _) = spec_route_steps(p, amount_msat, cltv_delta, p.len())->0;
    let v = hops.reverse();
    let n = hops.len() as int;
    assert forall|i: int, j: int| 0 <= i < j < v.len() implies #[trigger] v[i].id != #[trigger] v[j].id by {
        assert(v[i] == hops[n - 1 - i]);
        assert(v[j] == hops[n - 1 - j]);
        assert(hops[n - 1 - i].id == p[n - 1 - i].destination);
        assert(hops[n - 1 - j].id == p[n - 1 - j].destination);
    }
    assert forall|i: int| 0 <= i < v.len() - 1 implies #[trigger] v[i].amount_msat >= v[i + 1].amount_msat by {
        assert(v[i] == hops[n - 1 - i]);
        assert(v[i + 1] == hops[n - 2 - i]);
        assert(hops[(n - 2 - i) + 1].amount_msat >= hops[n - 2 - i].amount_msat);
    }
    assert(v[v.len() - 1] == hops[0]);
}

/// The hops of a path's route so far, when no later node ends where the
/// first does: hop `k` goes to `p[k]`'s end over its channel, the first is
/// paid `amount_msat`, and each later one what the one before was paid plus
/// the fee (rounded up) of the one before's channel for that amount.
proof fn lemma_steps_fees(p: Seq<DijkstraNode>, amount_msat: u64, cltv_delta: u32, i: nat)
    requires
        i <= p.len(),
        spec_route_steps(p, amount_msat, cltv_delta, i) is Some,
        forall|k: int| 0 < k < p.len() ==> #[trigger] p[k].destination != p[0].destination,
    ensures
        ({
            let (hops, carry, carry_delay) = spec_route_steps(p, amount_msat, cltv_delta, i)->0;
            &&& hops.len() == i
            &&& forall|k: int| 0 <= k < i ==> #[trigger] hops[k].id == p[k].destination && hops[k].channel == routing_scid(p[k])
            &&& i > 0 ==> hops[0].amount_msat == amount_msat
            &&& i > 0 ==> hops[0].delay == cltv_delta
            &&& i > 0 ==> carry_delay == hops[i - 1].delay + p[i - 1].channel_state.delay
            &&& forall|k: int| 0 <= k < i - 1 ==> #[trigger] hops[k + 1].delay == hops[k].delay + p[k].channel_state.delay
            &&& i > 0 ==> carry == hops[i - 1].amount_msat + spec_fee_ceil(
                p[i - 1].channel_state.fee_per_millionth,
                p[i - 1].channel_state.base_fee_millisatoshi,
                hops[i - 1].amount_msat,
            )
            &&& forall|k: int| 0 <= k < i - 1 ==> #[trigger] hops[k + 1].amount_msat == hops[k].amount_msat + spec_fee_ceil(
                p[k].channel_state.fee_per_millionth,
                p[k].channel_state.base_fee_millisatoshi,
                hops[k].amount_msat,
            )
        }),
    decreases i,
{
    if i > 0 {
        lemma_steps_fees(p, amount_msat, cltv_delta, (i - 1) as nat);
        let k = i - 1;
        if k > 0 {
            assert(p[k].destination != p[0].destination);
            assert(!spec_node_eq(p[k], p[0]));
        }
    }
}

/// Along a path that passes no node twice, the route delivers `amount_msat`
/// at its last hop with delay `cltv_delta`, and every other hop is paid what
/// the next hop receives plus the fee (base fee plus the proportional fee of
/// that amount, rounded up) that the next hop's channel charges, with the
/// next hop's delay plus that channel's delay; each hop goes over its path
/// node's channel to that node's end.
pub proof fn law_route_pays_fees(p: Seq<DijkstraNode>, amount_msat: u64, cltv_delta: u32)
    requires
        p.len() >= 1,
        spec_route(p, amount_msat, cltv_delta) is Some,
        ends_distinct(p),
    ensures
        ({
            let v = spec_route(p, amount_msat, cltv_delta)->0;
            let n = p.len() as int;
            &&& v.len() == n
            &&& v[n - 1].amount_msat == amount_msat
            &&& v[n - 1].delay == cltv_delta
            &&& forall|i: int| 0 <= i < n - 1 ==> #[trigger] v[i].delay == v[i + 1].delay + p[n - 2 - i].channel_state.delay
            &&& forall|i: int| 0 <= i < n ==> #[trigger] v[i].id == p[n - 1 - i].destination
                && v[i].channel == routing_scid(p[n - 1 - i])
            &&& forall|i: int| 0 <= i < n - 1 ==> #[trigger] v[i].amount_msat == v[i + 1].amount_msat + spec_fee_ceil(
                p[n - 2 - i].channel_state.fee_per_millionth,
                p[n - 2 - i].channel_state.base_fee_millisatoshi,
                v[i + 1].amount_msat,
            )
        }),
{
    assert forall|k: int| 0 < k < p.len() implies #[trigger] p[k].destination != p[0].destination by {
        assert(p[0].destination != p[k].destination);
    }
    lemma_steps_fees(p, amount_msat, cltv_delta, p.len());
    let (hops, _, _) = spec_route_steps(p, amount_msat, cltv_delta, p.len())->0;
    let v = hops.reverse();
    let n = hops.len() as int;
    assert forall|i: int| 0 <= i < n implies #[trigger] v[i].id == p[n - 1 - i].destination && v[i].channel == routing_scid(p[n - 1 - i]) by {
        assert(v[i] == hops[n - 1 - i]);
    }
    assert forall|i: int| 0 <= i < n - 1 implies #[trigger] v[i].amount_msat == v[i + 1].amount_msat + spec_fee_ceil(
        p[n - 2 - i].channel_state.fee_per_millionth,
        p[n - 2 - i].channel_state.base_fee_millisatoshi,
        v[i + 1].amount_msat,
    ) by {
        assert(v[i] == hops[n - 1 - i]);
        assert(v[i + 1] == hops[n - 2 - i]);
        assert(hops[(n - 2 - i) + 1].amount_msat == hops[n - 2 - i].amount_msat + spec_fee_ceil(
            p[n - 2 - i].channel_state.fee_per_millionth,
            p[n - 2 - i].channel_state.base_fee_millisatoshi,
            hops[n - 2 - i].amount_msat,
        ));
    }
    assert forall|i: int| 0 <= i < n - 1 implies #[trigger] v[i].delay == v[i + 1].delay + p[n - 2 - i].channel_state.delay by {
        assert(v[i] == hops[n - 1 - i]);
        assert(v[i + 1] == hops[n - 2 - i]);
        assert(hops[(n - 2 - i) + 1].delay == hops[n - 2 - i].delay + p[n - 2 - i].channel_state.delay);
    }
    assert(v[n - 1] == hops[0]);
}

/// No two nodes of a path end at the same node.
pub open spec fn ends_distinct(p: Seq<DijkstraNode>) -> bool {
    forall|i: int, j: int| #![trigger p[i], p[j]] 0 <= i < j < p.len() ==> p[i].destination != p[j].destination
}

/// A payment route that visits no node twice, delivers `amount_msat` at its
/// last hop, and pays each hop at least what the next one receives.
pub open spec fn route_shape(v: Seq<SendpayRoute>, amount_msat: u64) -> bool {
    &&& v.len() >= 1
    &&& forall|i: int, j: int| 0 <= i < j < v.len() ==> #[trigger] v[i].id != #[trigger] v[j].id
    &&& v[v.len() - 1].amount_msat == amount_msat
    &&& forall|i: int| 0 <= i < v.len() - 1 ==> #[trigger] v[i].amount_msat >= v[i + 1].amount_msat
}

/// The route for a search path given last hop first; `None` when an amount
/// or delay would leave its integer range.
pub fn route_from_path(path: &Vec<DijkstraNode>, amount_msat: u64, cltv_delta: u32) -> (r: Option<Vec<SendpayRoute>>)
    ensures
        match r {
            Some(v) => spec_route(path@, amount_msat, cltv_delta) == Some(v@),
            None => spec_route(path@, amount_msat, cltv_delta) is None,
        },
{
    let mut hops: Vec<SendpayRoute> = Vec::new();
    if path.len() == 0 {
        proof {
            assert(hops@.reverse() =~= hops@);
        }
        return Some(hops);
    }
    let first = path[0];
    let mut carry_amount: u64 = 0;
    let mut carry_delay: u32 = cltv_delta;
    let mut i: usize = 0;
    while i < path.len()
        invariant
            i <= path@.len(),
            path@.len() > 0,
            first == path@[0],
            spec_route_steps(path@, amount_msat, cltv_delta, i as nat) == Some(
                (hops@, carry_amount, carry_delay),
            ),
        decreases path@.len() - i,
    {
        let hop = path[i];
        let amt = if hop.eq(&first) {
            amount_msat
        } else {
            carry_amount
        };
        let fee = fee_total_msat_ceil(
            hop.channel_state.fee_per_millionth,
            hop.channel_state.base_fee_millisatoshi,
            amt,
        );
        let routing = match hop.channel_state.scid_alias {
            Some(a) => a,
            None => hop.short_channel_id,
        };
        let next_amount = match amt.checked_add(fee) {
            Some(v) => v,
            None => {
                proof {
                    lemma_steps_none(path@, amount_msat, cltv_delta, (i + 1) as nat, path@.len());
                }
                return None;
            },
        };
        let next_delay = match carry_delay.checked_add(hop.channel_state.delay) {
            Some(v) => v,
            None => {
                proof {
                    lemma_steps_none(path@, amount_msat, cltv_delta, (i + 1) as nat, path@.len());
                }
                return None;
            },
        };
        hops.push(
            SendpayRoute { amount_msat: amt, id: hop.destination, delay: carry_delay, channel: routing },
        );
        carry_amount = next_amount;
        carry_delay = next_delay;
        i = i + 1;
    }
    let mut route: Vec<SendpayRoute> = Vec::new();
    let mut j: usize = hops.len();
    while j > 0
        invariant
            j <= hops@.len(),
            route@ == hops@.subrange(j as int, hops@.len() as int).reverse(),
        decreases j,
    {
        j = j - 1;
        route.push(hops[j]);
        proof {
            assert(hops@.subrange(j as int, hops@.len() as int).reverse() =~= hops@.subrange(
                j + 1,
                hops@.len() as int,
            ).reverse().push(hops@[j as int]));
        }
    }
    proof {
        assert(hops@.subrange(0, hops@.len() as int) =~= hops@);
    }
    Some(route)
}

/// The nodes the search has met, numbered in the order met, with an index
/// by their index key.
struct NodeTable {
    nodes: Vec<PubKeyBytes>,
    index: HashMap<u64, Vec<usize>>,
}

impl NodeTable {
    spec fn indexed(&self) -> bool {
        forall|i: int| #![trigger self.nodes@[i]]
            0 <= i < self.nodes@.len() ==> self.index@.contains_key(spec_node_index_key(self.nodes@[i]))
                && self.index@[spec_node_index_key(self.nodes@[i])]@.contains(i as usize)
    }

    spec fn sound(&self) -> bool {
        forall|k: u64, j: int| #![trigger self.index@[k]@[j]]
            self.index@.contains_key(k) && 0 <= j < self.index@[k]@.len() ==> self.index@[k]@[j]
                < self.nodes@.len() && spec_node_index_key(self.nodes@[self.index@[k]@[j] as int]) == k
    }

    spec fn distinct(&self) -> bool {
        forall|i: int, j: int|
            #![trigger self.nodes@[i], self.nodes@[j]]
            0 <= i < self.nodes@.len() && 0 <= j < self.nodes@.len() && i != j ==> self.nodes@[i]
                != self.nodes@[j]
    }

    #[verifier::opaque]
    spec fn wf(&self) -> bool {
        &&& self.indexed()
        &&& self.sound()
        &&& self.distinct()
    }

    proof fn lemma_indexed(&self, i: int, k: u64)
        requires
            self.indexed(),
            0 <= i < self.nodes@.len(),
            spec_node_index_key(self.nodes@[i]) == k,
        ensures
            self.index@.contains_key(k),
            self.index@[k]@.contains(i as usize),
    {
        let n_i = self.nodes@[i];
    }

    fn new() -> (r: Self)
        ensures
            r.wf(),
            r.nodes@ == Seq::<PubKeyBytes>::empty(),
    {
        let r = NodeTable { nodes: Vec::new(), index: HashMap::new() };
        proof {
            reveal(NodeTable::wf);
        }
        r
    }

    fn find(&self, key: &PubKeyBytes) -> (r: Option<usize>)
        requires
            self.wf(),
        ensures
            match r {
                Some(i) => i < self.nodes@.len() && self.nodes@[i as int] == *key,
                None => forall|i: int| 0 <= i < self.nodes@.len() ==> self.nodes@[i] != *key,
            },
    {
        proof {
            reveal(NodeTable::wf);
        }
        let k = node_index_key(key);
        let nlen = self.nodes.len();
        match self.index.get(&k) {
            Some(b) => {
                let mut t: usize = 0;
                while t < b.len()
                    invariant
                        nlen == self.nodes@.len(),
                        self.indexed(),
                        self.sound(),
                        self.index@.contains_key(k),
                        b@ == self.index@[k]@,
                        k == spec_node_index_key(*key),
                        t <= b@.len(),
                        forall|u: int| 0 <= u < t ==> self.nodes@[b@[u] as int] != *key,
                    decreases b@.len() - t,
                {
                    let i = b[t];
                    assert(i < self.nodes@.len()) by {
                        assert(self.index@[k]@[t as int] == i);
                    }
                    if self.nodes[i].same_as(key) {
                        proof {
                            assert(self.nodes@[i as int].0 == key.0);
                        }
                        return Some(i);
                    }
                    proof {
                        if self.nodes@[i as int] == *key {
                            assert(self.nodes@[i as int].0@ == key.0@);
                        }
                    }
                    t = t + 1;
                }
                proof {
                    assert forall|i: int| 0 <= i < self.nodes@.len() implies self.nodes@[i] != *key by {
                        if self.nodes@[i] == *key {
                            let n_i = self.nodes@[i];
                            assert(spec_node_index_key(n_i) == k);
                            self.lemma_indexed(i, k);
                            let w = choose|w: int| 0 <= w < self.index@[k]@.len() && self.index@[k]@[w] == i as usize;
                            assert(b@[w] as int == i);
                            assert(w < t);
                            assert(self.nodes@[b@[w] as int] != *key);
                        }
                    }
                }
                None
            },
            None => {
                proof {
                    assert forall|i: int| 0 <= i < self.nodes@.len() implies self.nodes@[i] != *key by {
                        if self.nodes@[i] == *key {
                            assert(self.index@.contains_key(spec_node_index_key(self.nodes@[i])));
                        }
                    }
                }
                None
            },
        }
    }

    fn add(&mut self, key: PubKeyBytes) -> (r: usize)
        requires
            old(self).wf(),
            forall|i: int| 0 <= i < old(self).nodes@.len() ==> old(self).nodes@[i] != key,
            old(self).nodes@.len() < usize::MAX,
        ensures
            final(self).wf(),
            final(self).nodes@ == old(self).nodes@.push(key),
            r == old(self).nodes@.len(),
    {
        proof {
            reveal(NodeTable::wf);
        }
        let r = self.nodes.len();
        let k = node_index_key(&key);
        let ghost old_index = self.index@;
        let mut b: Vec<usize> = match self.index.get(&k) {
            Some(v) => v.clone(),
            None => Vec::new(),
        };
        let ghost b0 = b@;
        proof {
            if old_index.contains_key(k) {
                assert(b@ =~= old_index[k]@);
            }
        }
        b.push(r);
        self.index.insert(k, b);
        self.nodes.push(key);
        proof {
            let n = self.nodes@;
            let ix = self.index@;
            assert forall|i: int| #![trigger n[i]] 0 <= i < n.len() implies ix.contains_key(spec_node_index_key(n[i]))
                && ix[spec_node_index_key(n[i])]@.contains(i as usize) by {
                if i < r {
                    assert(n[i] == old(self).nodes@[i]);
                    let ki = spec_node_index_key(n[i]);
                    assert(old(self).index@.contains_key(ki) && old(self).index@[ki]@.contains(i as usize));
                    if ki == k {
                        let t = choose|t: int| 0 <= t < old_index[k]@.len() && old_index[k]@[t] == i as usize;
                        assert(ix[k]@[t] == i as usize);
                    }
                } else {
                    assert(ix[k]@[b0.len() as int] == r);
                }
            }
            assert forall|kk: u64, j: int| #![trigger ix[kk]@[j]] ix.contains_key(kk) && 0 <= j < ix[kk]@.len() implies ix[kk]@[j]
                < n.len() && spec_node_index_key(n[ix[kk]@[j] as int]) == kk by {
                if kk == k {
                    if j < b0.len() {
                        assert(old_index[k]@[j] == ix[kk]@[j]);
                        assert(old(self).nodes@[ix[kk]@[j] as int] == n[ix[kk]@[j] as int]);
                    }
                } else {
                    assert(old_index[kk]@[j] == ix[kk]@[j]);
                    assert(old(self).nodes@[ix[kk]@[j] as int] == n[ix[kk]@[j] as int]);
                }
            }
        }
        r
    }
}

/// Why no route search could be made.
#[derive(Debug, Clone, Copy, PartialEq, Eq, Structural)]
pub enum DijkstraError {
    /// The job's channel is not in the graph in the direction it is paid over.
    ChanNotInGraph,
    /// An amount or delay of the route found would leave its integer range.
    RouteOverflow,
}

/// The node's channel is a usable channel of the graph that ends at the node.
#[verifier::opaque]
pub open spec fn hop_in_graph(
    g: Map<ShortChannelIdDir, ShortChannelIdDirState>,
    n: DijkstraNode,
    two_weeks_ago: u32,
    candidates: Seq<u64>,
    my_pubkey: PubKeyBytes,
    exclude_peers: Seq<PubKeyBytes>,
    amount_msat: u64,
    excepts: Seq<ShortChannelIdDir>,
    liquidity: Map<u128, Liquidity>,
) -> bool {
    &&& n.channel_state.destination == n.destination
    &&& exists|d: u32|
        #![trigger g[ShortChannelIdDir { short_channel_id: n.short_channel_id, direction: d }]]
        {
            let sd = ShortChannelIdDir { short_channel_id: n.short_channel_id, direction: d };
            &&& g.contains_key(sd)
            &&& g[sd] == n.channel_state
            &&& edge_usable(
                sd,
                g[sd],
                two_weeks_ago,
                candidates,
                my_pubkey,
                exclude_peers,
                amount_msat,
                excepts,
                liquidity,
            )
        }
}

/// No two hops of a search path end at the same node, and none ends at
/// `from`, where it starts: the path never passes a node twice.
pub open spec fn dests_distinct(p: Seq<DijkstraNode>, from: PubKeyBytes) -> bool {
    &&& forall|i: int, j: int|
        #![trigger p[i], p[j]]
        0 <= i < j < p.len() ==> p[i].destination != p[j].destination
    &&& forall|i: int| 0 <= i < p.len() ==> #[trigger] p[i].destination != from
}

/// A search path, last hop first, from `from` to `to` over usable channels
/// of the graph, never passing a node twice.
pub open spec fn path_valid(
    g: Map<ShortChannelIdDir, ShortChannelIdDirState>,
    p: Seq<DijkstraNode>,
    from: PubKeyBytes,
    to: PubKeyBytes,
    two_weeks_ago: u32,
    candidates: Seq<u64>,
    my_pubkey: PubKeyBytes,
    exclude_peers: Seq<PubKeyBytes>,
    amount_msat: u64,
    excepts: Seq<ShortChannelIdDir>,
    liquidity: Map<u128, Liquidity>,
) -> bool {
    &&& p.len() >= 1
    &&& p[0].destination == to
    &&& p[p.len() - 1].channel_state.source == from
    &&& dests_distinct(p, from)
    &&& forall|i: int|
        0 <= i < p.len() - 1 ==> #[trigger] p[i].channel_state.source == p[i + 1].destination
    &&& forall|i: int|
        0 <= i < p.len() ==> hop_in_graph(
            g,
            #[trigger] p[i],
            two_weeks_ago,
            candidates,
            my_pubkey,
            exclude_peers,
            amount_msat,
            excepts,
            liquidity,
        )
}

/// The nodes a search can meet: the graph's channel ends, and its start.
pub open spec fn reachable_universe(g: Map<ShortChannelIdDir, ShortChannelIdDirState>, start: PubKeyBytes) -> Set<PubKeyBytes> {
    g.dom().map(|sd: ShortChannelIdDir| g[sd].destination).insert(start)
}

/// What the search tables say: every node but the start was reached over a
/// usable channel from a visited node one hop closer to the start, and
/// visited nodes had room for one more hop.
#[verifier::opaque]
pub open spec fn tables_sound(
    g: Map<ShortChannelIdDir, ShortChannelIdDirState>,
    nodes: Seq<PubKeyBytes>,
    score: Seq<DijkstraNode>,
    pred: Seq<usize>,
    visited: Seq<bool>,
    current: int,
    start: PubKeyBytes,
    maxhops: u8,
    two_weeks_ago: u32,
    candidates: Seq<u64>,
    my_pubkey: PubKeyBytes,
    exclude_peers: Seq<PubKeyBytes>,
    amount_msat: u64,
    excepts: Seq<ShortChannelIdDir>,
    liquidity: Map<u128, Liquidity>,
) -> bool {
    &&& nodes.len() >= 1
    &&& score.len() == nodes.len()
    &&& pred.len() == nodes.len()
    &&& visited.len() == nodes.len()
    &&& nodes[0] == start
    &&& score[0].hops == 0
    &&& forall|v: int|
        #![trigger score[v]]
        0 < v < nodes.len() ==> {
            &&& pred[v] < nodes.len()
            &&& (visited[pred[v] as int] || pred[v] == current)
            &&& score[v].hops == score[pred[v] as int].hops + 1
            &&& score[v].channel_state.source == nodes[pred[v] as int]
            &&& score[v].destination == nodes[v]
            &&& hop_in_graph(
                g,
                score[v],
                two_weeks_ago,
                candidates,
                my_pubkey,
                exclude_peers,
                amount_msat,
                excepts,
                liquidity,
            )
        }
    &&& forall|v: int| 0 <= v < nodes.len() && #[trigger] visited[v] ==> score[v].hops + 2 <= maxhops
}

/// The nodes of a search path, last hop first, from the node `cur` of the
/// tables to `goal_index`, read off the predecessors.
#[verifier::spinoff_prover]
#[verifier::rlimit(100)]
fn walk_back(
    nodes: &Vec<PubKeyBytes>,
    score: &Vec<DijkstraNode>,
    pred: &Vec<usize>,
    visited: &Vec<bool>,
    goal_index: usize,
    Ghost(g): Ghost<Map<ShortChannelIdDir, ShortChannelIdDirState>>,
    Ghost(start): Ghost<PubKeyBytes>,
    maxhops: u8,
    two_weeks_ago: u32,
    candidates: &[u64],
    my_pubkey: &PubKeyBytes,
    exclude_peers: &[PubKeyBytes],
    amount_msat: u64,
    excepts: &[ShortChannelIdDir],
    liquidity: &HashMap<u128, Liquidity>,
) -> (p: Vec<DijkstraNode>)
    requires
        tables_sound(g, nodes@, score@, pred@, visited@, -1, start, maxhops, two_weeks_ago, candidates@, *my_pubkey, exclude_peers@, amount_msat, excepts@, liquidity@),
        0 < goal_index < nodes@.len(),
        forall|i: int, j: int| 0 <= i < j < nodes@.len() ==> #[trigger] nodes@[i] != #[trigger] nodes@[j],
        scores_follow(score@, pred@, *my_pubkey, amount_msat),
    ensures
        path_valid(g, p@, start, nodes@[goal_index as int], two_weeks_ago, candidates@, *my_pubkey, exclude_peers@, amount_msat, excepts@, liquidity@),
        p@.len() + 1 <= maxhops,
        hop_scores_chain(p@, *my_pubkey, amount_msat),
        p@[0] == score@[goal_index as int],
{
    proof {
        reveal(tables_sound);
    }
    let mut path: Vec<DijkstraNode> = Vec::new();
    path.push(score[goal_index]);
    let mut cur = pred[goal_index];
    let ghost mut idx: Seq<int> = seq![goal_index as int];
    proof {
        assert(score@[goal_index as int].hops == score@[pred@[goal_index as int] as int].hops + 1);
    }
    while cur != 0
        invariant
            tables_sound(g, nodes@, score@, pred@, visited@, -1, start, maxhops, two_weeks_ago, candidates@, *my_pubkey, exclude_peers@, amount_msat, excepts@, liquidity@),
            0 < goal_index < nodes@.len(),
            forall|i: int, j: int| 0 <= i < j < nodes@.len() ==> #[trigger] nodes@[i] != #[trigger] nodes@[j],
            idx.len() == path@.len(),
            forall|k: int| #![trigger idx[k]] 0 <= k < idx.len() ==> {
                &&& 0 < idx[k] < nodes@.len()
                &&& path@[k] == score@[idx[k]]
                &&& path@[k].hops + k == path@[0].hops
            },
            path@[0] == score@[goal_index as int],
            scores_follow(score@, pred@, *my_pubkey, amount_msat),
            forall|k: int| 0 <= k < idx.len() - 1 ==> #[trigger] idx[k + 1] == pred@[idx[k]] as int,
            cur as int == pred@[idx[idx.len() - 1]] as int,
            cur < nodes@.len(),
            path@.len() >= 1,
            path@[0].destination == nodes@[goal_index as int],
            path@[path@.len() - 1].channel_state.source == nodes@[cur as int],
            path@.len() + score@[cur as int].hops == score@[goal_index as int].hops,
            visited@[cur as int],
            forall|i: int| 0 <= i < path@.len() - 1 ==> #[trigger] path@[i].channel_state.source == path@[i + 1].destination,
            forall|i: int|
                0 <= i < path@.len() ==> hop_in_graph(
                    g,
                    #[trigger] path@[i],
                    two_weeks_ago,
                    candidates@,
                    *my_pubkey,
                    exclude_peers@,
                    amount_msat,
                    excepts@,
                    liquidity@,
                ),
        decreases score@[cur as int].hops,
    {
        proof {
            reveal(tables_sound);
        }
        let ghost before = path@;
        let node = score[cur];
        proof {
            assert(score@[cur as int].hops == score@[pred@[cur as int] as int].hops + 1);
        }
        path.push(node);
        proof {
            let ghost old_idx = idx;
            idx = idx.push(cur as int);
            assert forall|k: int| 0 <= k < idx.len() - 1 implies #[trigger] idx[k + 1] == pred@[idx[k]] as int by {
                if k < old_idx.len() - 1 {
                    assert(idx[k + 1] == old_idx[k + 1] && idx[k] == old_idx[k]);
                } else {
                    assert(idx[k] == old_idx[old_idx.len() - 1]);
                }
            }
            assert forall|k: int| #![trigger idx[k]] 0 <= k < idx.len() implies {
                &&& 0 < idx[k] < nodes@.len()
                &&& path@[k] == score@[idx[k]]
                &&& path@[k].hops + k == path@[0].hops
            } by {
                if k < before.len() {
                    assert(path@[k] == before[k]);
                }
            }
            assert forall|i: int| 0 <= i < path@.len() - 1 implies #[trigger] path@[i].channel_state.source == path@[i + 1].destination by {
                if i < before.len() - 1 {
                    assert(path@[i] == before[i] && path@[i + 1] == before[i + 1]);
                } else {
                    assert(path@[i] == before[i]);
                }
            }
            assert forall|i: int| 0 <= i < path@.len() implies hop_in_graph(
                    g,
                    #[trigger] path@[i],
                    two_weeks_ago,
                    candidates@,
                    *my_pubkey,
                    exclude_peers@,
                    amount_msat,
                    excepts@,
                    liquidity@,
                ) by {
                if i < before.len() {
                    assert(path@[i] == before[i]);
                }
            }
        }
        cur = pred[cur];
    }
    proof {
        reveal(tables_sound);
        let gv = goal_index as int;
        assert(visited@[pred@[gv] as int]);
        assert(score@[pred@[gv] as int].hops + 2 <= maxhops);
        assert forall|i: int, j: int| 0 <= i < j < path@.len() implies #[trigger] path@[i].destination != #[trigger] path@[j].destination by {
            assert(path@[i] == score@[idx[i]]);
            assert(path@[j] == score@[idx[j]]);
            assert(score@[idx[i]].destination == nodes@[idx[i]]);
            assert(score@[idx[j]].destination == nodes@[idx[j]]);
            if idx[i] != idx[j] {
                if idx[i] < idx[j] {
                    assert(nodes@[idx[i]] != nodes@[idx[j]]);
                } else {
                    assert(nodes@[idx[j]] != nodes@[idx[i]]);
                }
            }
        }
        assert forall|i: int| 0 <= i < path@.len() implies #[trigger] path@[i].destination != start by {
            assert(path@[i] == score@[idx[i]]);
            assert(score@[idx[i]].destination == nodes@[idx[i]]);
            assert(nodes@[0] != nodes@[idx[i]]);
        }
        let pp = path@;
        assert forall|k: int| #![trigger pp[k]] 0 <= k < pp.len() - 1 implies pp[k].score == step_score(pp[k].channel_state, pp[k + 1].score, *my_pubkey, amount_msat) by {
            assert(pp[k] == score@[idx[k]]);
            assert(pp[k + 1] == score@[idx[k + 1]]);
            assert(idx[k + 1] == pred@[idx[k]] as int);
            assert(0 < idx[k] < nodes@.len());
        }
        let last = pp.len() - 1;
        assert(pp[last] == score@[idx[last]]);
        assert(0 < idx[last] < nodes@.len());
        assert(pred@[idx[last]] == 0);
    }
    path
}

/// The search path and the route it gives, for a job on channel `chan_id`
/// with `other_pubkey`: a pull job searches from us to the partner and ends
/// over the job's channel into us; a push job starts over the job's
/// channel to the partner and searches from there back to us.
pub open spec fn search_ends(sat_direction: SatDirection, my_pubkey: PubKeyBytes, other_pubkey: PubKeyBytes) -> (PubKeyBytes, PubKeyBytes) {
    match sat_direction {
        SatDirection::Pull => (my_pubkey, other_pubkey),
        SatDirection::Push => (other_pubkey, my_pubkey),
    }
}

/// The search node that stands for the job's own channel.
pub open spec fn spec_first_node(
    g: Map<ShortChannelIdDir, ShortChannelIdDirState>,
    sat_direction: SatDirection,
    my_pubkey: PubKeyBytes,
    other_pubkey: PubKeyBytes,
    chan_id: u64,
) -> Option<DijkstraNode> {
    let (from, to) = match sat_direction {
        SatDirection::Pull => (other_pubkey, my_pubkey),
        SatDirection::Push => (my_pubkey, other_pubkey),
    };
    match spec_state_no_direction(g, from, chan_id) {
        Some((_, st)) => Some(
            DijkstraNode { score: 0, channel_state: st, destination: to, short_channel_id: chan_id, hops: 0 },
        ),
        None => None,
    }
}

/// The whole path of a rebalance, last hop first: the job's channel is the
/// last hop of a pull and the first of a push.
pub open spec fn full_path(sat_direction: SatDirection, p: Seq<DijkstraNode>, first: DijkstraNode) -> Seq<DijkstraNode> {
    match sat_direction {
        SatDirection::Pull => seq![first] + p,
        SatDirection::Push => p.push(first),
    }
}

/// The job's own channel as a search node, or `ChanNotInGraph`.
pub fn construct_first_node(
    lngraph: &LnGraph,
    my_pubkey: &PubKeyBytes,
    other_pubkey: &PubKeyBytes,
    chan_id: u64,
    sat_direction: SatDirection,
) -> (r: Result<DijkstraNode, DijkstraError>)
    requires
        lngraph.wf(),
    ensures
        r == (match spec_first_node(lngraph@, sat_direction, *my_pubkey, *other_pubkey, chan_id) {
            Some(n) => Ok::<DijkstraNode, DijkstraError>(n),
            None => Err::<DijkstraNode, DijkstraError>(DijkstraError::ChanNotInGraph),
        }),
{
    match sat_direction {
        SatDirection::Pull => match lngraph.get_state_no_direction(other_pubkey, chan_id) {
            Ok((_sd, st)) => Ok(
                DijkstraNode {
                    score: 0,
                    channel_state: st,
                    destination: *my_pubkey,
                    short_channel_id: chan_id,
                    hops: 0,
                },
            ),
            Err(_) => Err(DijkstraError::ChanNotInGraph),
        },
        SatDirection::Push => match lngraph.get_state_no_direction(my_pubkey, chan_id) {
            Ok((_sd, st)) => Ok(
                DijkstraNode {
                    score: 0,
                    channel_state: st,
                    destination: *other_pubkey,
                    short_channel_id: chan_id,
                    hops: 0,
                },
            ),
            Err(_) => Err(DijkstraError::ChanNotInGraph),
        },
    }
}

/// The keys of the visited nodes.
spec fn visited_set(nodes: Seq<PubKeyBytes>, visited: Seq<bool>) -> Set<PubKeyBytes> {
    Set::new(|k: PubKeyBytes| exists|v: int| 0 <= v < nodes.len() && v < visited.len() && visited[v] && nodes[v] == k)
}

/// The numbers of the queued nodes.
spec fn queued_set(queued: Seq<bool>) -> Set<int> {
    Set::new(|v: int| 0 <= v < queued.len() && queued[v])
}

proof fn lemma_queued_finite(queued: Seq<bool>)
    ensures
        queued_set(queued).finite(),
{
    vstd::set_lib::lemma_int_range(0, queued.len() as int);
    assert(queued_set(queued).subset_of(vstd::set_lib::set_int_range(0, queued.len() as int)));
    vstd::set_lib::lemma_len_subset(queued_set(queued), vstd::set_lib::set_int_range(0, queued.len() as int));
}

/// What sound tables say of one node other than the start.
proof fn lemma_sound_at(
    g: Map<ShortChannelIdDir, ShortChannelIdDirState>,
    nodes: Seq<PubKeyBytes>,
    score: Seq<DijkstraNode>,
    pred: Seq<usize>,
    visited: Seq<bool>,
    current: int,
    start: PubKeyBytes,
    maxhops: u8,
    two_weeks_ago: u32,
    candidates: Seq<u64>,
    my_pubkey: PubKeyBytes,
    exclude_peers: Seq<PubKeyBytes>,
    amount_msat: u64,
    excepts: Seq<ShortChannelIdDir>,
    liquidity: Map<u128, Liquidity>,
    v: int,
)
    requires
        tables_sound(g, nodes, score, pred, visited, current, start, maxhops, two_weeks_ago, candidates, my_pubkey, exclude_peers, amount_msat, excepts, liquidity),
        0 < v < nodes.len(),
    ensures
        pred[v] < nodes.len(),
        visited[pred[v] as int] || pred[v] == current,
        score[v].hops == score[pred[v] as int].hops + 1,
        score[v].channel_state.source == nodes[pred[v] as int],
        score[v].destination == nodes[v],
        hop_in_graph(g, score[v], two_weeks_ago, candidates, my_pubkey, exclude_peers, amount_msat, excepts, liquidity),
{
    reveal(tables_sound);
    let _ = score[v];
}

/// Sound tables have one entry per node, the start first.
proof fn lemma_sound_lens(
    g: Map<ShortChannelIdDir, ShortChannelIdDirState>,
    nodes: Seq<PubKeyBytes>,
    score: Seq<DijkstraNode>,
    pred: Seq<usize>,
    visited: Seq<bool>,
    current: int,
    start: PubKeyBytes,
    maxhops: u8,
    two_weeks_ago: u32,
    candidates: Seq<u64>,
    my_pubkey: PubKeyBytes,
    exclude_peers: Seq<PubKeyBytes>,
    amount_msat: u64,
    excepts: Seq<ShortChannelIdDir>,
    liquidity: Map<u128, Liquidity>,
)
    requires
        tables_sound(g, nodes, score, pred, visited, current, start, maxhops, two_weeks_ago, candidates, my_pubkey, exclude_peers, amount_msat, excepts, liquidity),
    ensures
        nodes.len() >= 1,
        score.len() == nodes.len(),
        pred.len() == nodes.len(),
        visited.len() == nodes.len(),
        nodes[0] == start,
{
    reveal(tables_sound);
}

/// In sound tables, a node's predecessor is visited or being expanded.
proof fn lemma_sound_preds(
    g: Map<ShortChannelIdDir, ShortChannelIdDirState>,
    nodes: Seq<PubKeyBytes>,
    score: Seq<DijkstraNode>,
    pred: Seq<usize>,
    visited: Seq<bool>,
    current: int,
    start: PubKeyBytes,
    maxhops: u8,
    two_weeks_ago: u32,
    candidates: Seq<u64>,
    my_pubkey: PubKeyBytes,
    exclude_peers: Seq<PubKeyBytes>,
    amount_msat: u64,
    excepts: Seq<ShortChannelIdDir>,
    liquidity: Map<u128, Liquidity>,
)
    requires
        tables_sound(g, nodes, score, pred, visited, current, start, maxhops, two_weeks_ago, candidates, my_pubkey, exclude_peers, amount_msat, excepts, liquidity),
    ensures
        forall|v: int| 0 < v < nodes.len() ==> #[trigger] visited[pred[v] as int] || pred[v] == current,
        forall|v: int| 0 < v < nodes.len() ==> #[trigger] pred[v] < nodes.len(),
{
    reveal(tables_sound);
    assert forall|v: int| 0 < v < nodes.len() implies #[trigger] visited[pred[v] as int] || pred[v] == current by {
        let _ = score[v];
    }
    assert forall|v: int| 0 < v < nodes.len() implies #[trigger] pred[v] < nodes.len() by {
        let _ = score[v];
    }
}

/// Tables sound with no node being expanded are sound while any is.
proof fn lemma_sound_current(
    g: Map<ShortChannelIdDir, ShortChannelIdDirState>,
    nodes: Seq<PubKeyBytes>,
    score: Seq<DijkstraNode>,
    pred: Seq<usize>,
    visited: Seq<bool>,
    current: int,
    start: PubKeyBytes,
    maxhops: u8,
    two_weeks_ago: u32,
    candidates: Seq<u64>,
    my_pubkey: PubKeyBytes,
    exclude_peers: Seq<PubKeyBytes>,
    amount_msat: u64,
    excepts: Seq<ShortChannelIdDir>,
    liquidity: Map<u128, Liquidity>,
)
    requires
        tables_sound(g, nodes, score, pred, visited, -1, start, maxhops, two_weeks_ago, candidates, my_pubkey, exclude_peers, amount_msat, excepts, liquidity),
    ensures
        tables_sound(g, nodes, score, pred, visited, current, start, maxhops, two_weeks_ago, candidates, my_pubkey, exclude_peers, amount_msat, excepts, liquidity),
{
    reveal(tables_sound);
}

/// Marking the expanded node visited keeps the tables sound.
proof fn lemma_mark_visited(
    g: Map<ShortChannelIdDir, ShortChannelIdDirState>,
    nodes: Seq<PubKeyBytes>,
    score: Seq<DijkstraNode>,
    pred: Seq<usize>,
    visited: Seq<bool>,
    u: int,
    start: PubKeyBytes,
    maxhops: u8,
    two_weeks_ago: u32,
    candidates: Seq<u64>,
    my_pubkey: PubKeyBytes,
    exclude_peers: Seq<PubKeyBytes>,
    amount_msat: u64,
    excepts: Seq<ShortChannelIdDir>,
    liquidity: Map<u128, Liquidity>,
)
    requires
        tables_sound(g, nodes, score, pred, visited, u, start, maxhops, two_weeks_ago, candidates, my_pubkey, exclude_peers, amount_msat, excepts, liquidity),
        0 <= u < nodes.len(),
        score[u].hops + 2 <= maxhops,
    ensures
        tables_sound(g, nodes, score, pred, visited.update(u, true), -1, start, maxhops, two_weeks_ago, candidates, my_pubkey, exclude_peers, amount_msat, excepts, liquidity),
{
    reveal(tables_sound);
    let nv = visited.update(u, true);
    assert forall|x: int| 0 <= x < nodes.len() && #[trigger] nv[x] implies score[x].hops + 2 <= maxhops by {
        if x != u {
            assert(visited[x]);
        }
    }
    assert forall|x: int| #![trigger score[x]] 0 < x < nodes.len() implies (nv[pred[x] as int] || pred[x] == -1) by {
        lemma_sound_at(g, nodes, score, pred, visited, u, start, maxhops, two_weeks_ago, candidates, my_pubkey, exclude_peers, amount_msat, excepts, liquidity, x);
    }
}

/// Giving the unvisited node `w` the way over `u` keeps the tables sound.
proof fn lemma_improve(
    g: Map<ShortChannelIdDir, ShortChannelIdDirState>,
    nodes: Seq<PubKeyBytes>,
    score: Seq<DijkstraNode>,
    pred: Seq<usize>,
    visited: Seq<bool>,
    u: int,
    w: int,
    nd: DijkstraNode,
    start: PubKeyBytes,
    maxhops: u8,
    two_weeks_ago: u32,
    candidates: Seq<u64>,
    my_pubkey: PubKeyBytes,
    exclude_peers: Seq<PubKeyBytes>,
    amount_msat: u64,
    excepts: Seq<ShortChannelIdDir>,
    liquidity: Map<u128, Liquidity>,
)
    requires
        tables_sound(g, nodes, score, pred, visited, u, start, maxhops, two_weeks_ago, candidates, my_pubkey, exclude_peers, amount_msat, excepts, liquidity),
        0 <= u < nodes.len(),
        nodes.len() <= usize::MAX,
        0 < w < nodes.len(),
        w != u,
        !visited[w],
        nd.hops == score[u].hops + 1,
        nd.channel_state.source == nodes[u],
        nd.destination == nodes[w],
        hop_in_graph(g, nd, two_weeks_ago, candidates, my_pubkey, exclude_peers, amount_msat, excepts, liquidity),
    ensures
        tables_sound(g, nodes, score.update(w, nd), pred.update(w, u as usize), visited, u, start, maxhops, two_weeks_ago, candidates, my_pubkey, exclude_peers, amount_msat, excepts, liquidity),
{
    reveal(tables_sound);
    let ns = score.update(w, nd);
    let np = pred.update(w, u as usize);
    assert forall|x: int| #![trigger ns[x]] 0 < x < nodes.len() implies {
        &&& np[x] < nodes.len()
        &&& (visited[np[x] as int] || np[x] == u)
        &&& ns[x].hops == ns[np[x] as int].hops + 1
        &&& ns[x].channel_state.source == nodes[np[x] as int]
        &&& ns[x].destination == nodes[x]
        &&& hop_in_graph(g, ns[x], two_weeks_ago, candidates, my_pubkey, exclude_peers, amount_msat, excepts, liquidity)
    } by {
        if x != w {
            lemma_sound_at(g, nodes, score, pred, visited, u, start, maxhops, two_weeks_ago, candidates, my_pubkey, exclude_peers, amount_msat, excepts, liquidity, x);
            assert(score[x] == ns[x]);
            assert(np[x] == pred[x]);
            assert(pred[x] as int != w);
            assert(ns[np[x] as int] == score[pred[x] as int]);
        } else {
            assert(ns[u] == score[u]);
        }
    }
    assert forall|x: int| 0 <= x < nodes.len() && #[trigger] visited[x] implies ns[x].hops + 2 <= maxhops by {
        assert(x != w);
        assert(ns[x] == score[x]);
    }
}

/// Numbering a new node `nodes.len()` with the way over `u` keeps the
/// tables sound.
proof fn lemma_append(
    g: Map<ShortChannelIdDir, ShortChannelIdDirState>,
    nodes: Seq<PubKeyBytes>,
    score: Seq<DijkstraNode>,
    pred: Seq<usize>,
    visited: Seq<bool>,
    u: int,
    key: PubKeyBytes,
    nd: DijkstraNode,
    start: PubKeyBytes,
    maxhops: u8,
    two_weeks_ago: u32,
    candidates: Seq<u64>,
    my_pubkey: PubKeyBytes,
    exclude_peers: Seq<PubKeyBytes>,
    amount_msat: u64,
    excepts: Seq<ShortChannelIdDir>,
    liquidity: Map<u128, Liquidity>,
)
    requires
        tables_sound(g, nodes, score, pred, visited, u, start, maxhops, two_weeks_ago, candidates, my_pubkey, exclude_peers, amount_msat, excepts, liquidity),
        0 <= u < nodes.len(),
        nodes.len() <= usize::MAX,
        nd.hops == score[u].hops + 1,
        nd.channel_state.source == nodes[u],
        nd.destination == key,
        hop_in_graph(g, nd, two_weeks_ago, candidates, my_pubkey, exclude_peers, amount_msat, excepts, liquidity),
    ensures
        tables_sound(g, nodes.push(key), score.push(nd), pred.push(u as usize), visited.push(false), u, start, maxhops, two_weeks_ago, candidates, my_pubkey, exclude_peers, amount_msat, excepts, liquidity),
{
    reveal(tables_sound);
    let nn = nodes.push(key);
    let ns = score.push(nd);
    let np = pred.push(u as usize);
    let nv = visited.push(false);
    assert forall|x: int| #![trigger ns[x]] 0 < x < nn.len() implies {
        &&& np[x] < nn.len()
        &&& (nv[np[x] as int] || np[x] == u)
        &&& ns[x].hops == ns[np[x] as int].hops + 1
        &&& ns[x].channel_state.source == nn[np[x] as int]
        &&& ns[x].destination == nn[x]
        &&& hop_in_graph(g, ns[x], two_weeks_ago, candidates, my_pubkey, exclude_peers, amount_msat, excepts, liquidity)
    } by {
        if x < nodes.len() {
            lemma_sound_at(g, nodes, score, pred, visited, u, start, maxhops, two_weeks_ago, candidates, my_pubkey, exclude_peers, amount_msat, excepts, liquidity, x);
            assert(ns[x] == score[x]);
            assert(np[x] == pred[x]);
            assert(nn[x] == nodes[x]);
            assert(ns[pred[x] as int] == score[pred[x] as int]);
            assert(nn[pred[x] as int] == nodes[pred[x] as int]);
            assert(nv[pred[x] as int] == visited[pred[x] as int]);
        } else {
            assert(ns[u] == score[u]);
            assert(nn[u] == nodes[u]);
        }
    }
    assert forall|x: int| 0 <= x < nn.len() && #[trigger] nv[x] implies ns[x].hops + 2 <= maxhops by {
        assert(x < nodes.len());
        assert(visited[x]);
        assert(ns[x] == score[x]);
    }
}

/// Where node `k` stands in the table, if it is there.
spec fn node_pos(nodes: Seq<PubKeyBytes>, k: PubKeyBytes) -> Option<int> {
    if exists|w: int| 0 <= w < nodes.len() && nodes[w] == k {
        Some(choose|w: int| 0 <= w < nodes.len() && nodes[w] == k)
    } else {
        None
    }
}

/// The search node that relaxing channel `sd` out of a node of score
/// `node_score` and `hops_u` hops proposes for the channel's end: a score
/// of 0 for a channel leaving us, else the node's score plus the channel's
/// cost (saturating).
spec fn relaxed_node(
    sd: ShortChannelIdDir,
    st: ShortChannelIdDirState,
    hops_u: u8,
    node_score: u64,
    my_pubkey: PubKeyBytes,
    amount_msat: u64,
) -> DijkstraNode {
    DijkstraNode {
        score: if st.source == my_pubkey {
            0
        } else if node_score + spec_edge_cost(st, amount_msat) > u64::MAX {
            u64::MAX
        } else {
            (node_score + spec_edge_cost(st, amount_msat)) as u64
        },
        channel_state: st,
        short_channel_id: sd.short_channel_id,
        destination: st.destination,
        hops: (hops_u + 1) as u8,
    }
}

/// How relaxing a channel out of node `u` towards `nd.destination` changes
/// the tables: a node already met, not the start, not visited and not `u`,
/// takes `nd` with `u` as its predecessor when `nd` scores lower, and is
/// queued again; a new node is appended, queued, with `nd` (unless the table
/// is full); otherwise nothing changes.
spec fn relax_result(
    n0: Seq<PubKeyBytes>, s0: Seq<DijkstraNode>, p0: Seq<usize>, v0: Seq<bool>, q0: Seq<bool>,
    n1: Seq<PubKeyBytes>, s1: Seq<DijkstraNode>, p1: Seq<usize>, v1: Seq<bool>, q1: Seq<bool>,
    u: usize,
    nd: DijkstraNode,
) -> bool {
    let unchanged = n1 == n0 && s1 == s0 && p1 == p0 && v1 == v0 && q1 == q0;
    match node_pos(n0, nd.destination) {
        Some(w) => if w != 0 && !v0[w] && w != u && nd.score < s0[w].score {
            &&& n1 == n0
            &&& s1 == s0.update(w, nd)
            &&& p1 == p0.update(w, u)
            &&& v1 == v0
            &&& q1 == q0.update(w, true)
        } else {
            unchanged
        },
        None => if n0.len() < usize::MAX - 1 {
            &&& n1 == n0.push(nd.destination)
            &&& s1 == s0.push(nd)
            &&& p1 == p0.push(u)
            &&& v1 == v0.push(false)
            &&& q1 == q0.push(true)
        } else {
            unchanged
        },
    }
}

/// Relaxes one channel out of the node `u` being expanded: its end is met
/// (numbered if new) and, if not visited, takes the way over `u` when that
/// scores better or it had none.
#[verifier::spinoff_prover]
#[verifier::rlimit(80)]
fn relax(
    table: &mut NodeTable,
    score: &mut Vec<DijkstraNode>,
    pred: &mut Vec<usize>,
    visited: &mut Vec<bool>,
    queued: &mut Vec<bool>,
    u: usize,
    hops_u: u8,
    node_score: u64,
    sd: ShortChannelIdDir,
    st: ShortChannelIdDirState,
    Ghost(g): Ghost<Map<ShortChannelIdDir, ShortChannelIdDirState>>,
    Ghost(start): Ghost<PubKeyBytes>,
    maxhops: u8,
    two_weeks_ago: u32,
    candidates: &[u64],
    my_pubkey: &PubKeyBytes,
    exclude_peers: &[PubKeyBytes],
    amount_msat: u64,
    excepts: &[ShortChannelIdDir],
    liquidity: &HashMap<u128, Liquidity>,
)
    requires
        old(table).wf(),
        old(queued)@.len() == old(table).nodes@.len(),
        tables_sound(g, old(table).nodes@, old(score)@, old(pred)@, old(visited)@, u as int, start, maxhops, two_weeks_ago, candidates@, *my_pubkey, exclude_peers@, amount_msat, excepts@, liquidity@),
        u < old(table).nodes@.len(),
        !old(visited)@[u as int],
        old(score)@[u as int].hops == hops_u,
        old(score)@[u as int].score == node_score,
        hops_u + 2 <= maxhops,
        g.contains_key(sd),
        g[sd] == st,
        st.source == old(table).nodes@[u as int],
        edge_usable(sd, st, two_weeks_ago, candidates@, *my_pubkey, exclude_peers@, amount_msat, excepts@, liquidity@),
        forall|w: int| 0 <= w < old(table).nodes@.len() ==> reachable_universe(g, start).contains(#[trigger] old(table).nodes@[w]),
    ensures
        final(table).wf(),
        final(queued)@.len() == final(table).nodes@.len(),
        tables_sound(g, final(table).nodes@, final(score)@, final(pred)@, final(visited)@, u as int, start, maxhops, two_weeks_ago, candidates@, *my_pubkey, exclude_peers@, amount_msat, excepts@, liquidity@),
        u < final(table).nodes@.len(),
        final(table).nodes@[u as int] == old(table).nodes@[u as int],
        !final(visited)@[u as int],
        final(score)@[u as int] == old(score)@[u as int],
        visited_set(final(table).nodes@, final(visited)@) == visited_set(old(table).nodes@, old(visited)@),
        forall|w: int| 0 <= w < final(table).nodes@.len() ==> reachable_universe(g, start).contains(#[trigger] final(table).nodes@[w]),
        final(table).nodes@.len() >= old(table).nodes@.len(),
        forall|w: int| 0 <= w < old(table).nodes@.len() ==> #[trigger] final(visited)@[w] == old(visited)@[w],
        forall|w: int| old(table).nodes@.len() <= w < final(table).nodes@.len() ==> !#[trigger] final(visited)@[w],
        relax_result(
            old(table).nodes@, old(score)@, old(pred)@, old(visited)@, old(queued)@,
            final(table).nodes@, final(score)@, final(pred)@, final(visited)@, final(queued)@,
            u, relaxed_node(sd, st, hops_u, node_score, *my_pubkey, amount_msat),
        ),
{
    proof {
        lemma_sound_lens(g, table.nodes@, score@, pred@, visited@, u as int, start, maxhops, two_weeks_ago, candidates@, *my_pubkey, exclude_peers@, amount_msat, excepts@, liquidity@);
    }
    let nlen = table.nodes.len();
    let next = st.destination;
    let ns = if st.source.same_as(my_pubkey) {
        0
    } else {
        node_score.saturating_add(edge_cost(&st, amount_msat))
    };
    let nd = DijkstraNode {
        score: ns,
        channel_state: st,
        short_channel_id: sd.short_channel_id,
        destination: next,
        hops: hops_u + 1,
    };
    let ghost old_n = table.nodes@.len();
    let ghost old_score = score@;
    let ghost old_pred = pred@;
    let ghost old_visited = visited@;
    let ghost old_nodes = table.nodes@;
    proof {
        assert(g[ShortChannelIdDir { short_channel_id: nd.short_channel_id, direction: sd.direction }] == st);
        assert(hop_in_graph(g, nd, two_weeks_ago, candidates@, *my_pubkey, exclude_peers@, amount_msat, excepts@, liquidity@)) by {
            reveal(hop_in_graph);
        }
        assert(reachable_universe(g, start).contains(next)) by {
            assert(g.dom().contains(sd));
            assert(g.dom().map(|x: ShortChannelIdDir| g[x].destination).contains(g[sd].destination));
        }
    }
    proof {
        assert(nd == relaxed_node(sd, st, hops_u, node_score, *my_pubkey, amount_msat));
    }
    match table.find(&next) {
        Some(w) => {
            proof {
                reveal(NodeTable::wf);
                let c = choose|x: int| 0 <= x < old_nodes.len() && old_nodes[x] == next;
                assert(old_nodes[w as int] == next);
                if c != w as int {
                    assert(old_nodes[c] != old_nodes[w as int]);
                }
                assert(node_pos(old_nodes, next) == Some(w as int));
            }
            if w != 0 && !visited[w] && w != u && ns < score[w].score {
                proof {
                    lemma_improve(g, old_nodes, old_score, old_pred, old_visited, u as int, w as int, nd, start, maxhops, two_weeks_ago, candidates@, *my_pubkey, exclude_peers@, amount_msat, excepts@, liquidity@);
                }
                score.set(w, nd);
                pred.set(w, u);
                queued.set(w, true);
            }
        },
        None => {
            proof {
                assert(node_pos(old_nodes, next) is None);
            }
            if table.nodes.len() < usize::MAX - 1 {
                proof {
                    lemma_append(g, old_nodes, old_score, old_pred, old_visited, u as int, next, nd, start, maxhops, two_weeks_ago, candidates@, *my_pubkey, exclude_peers@, amount_msat, excepts@, liquidity@);
                }
                let nw = table.add(next);
                score.push(nd);
                pred.push(u);
                visited.push(false);
                queued.push(true);
                proof {
                    assert forall|w: int| 0 <= w < table.nodes@.len() implies reachable_universe(g, start).contains(#[trigger] table.nodes@[w]) by {
                        if w < old_n {
                            assert(old_nodes[w] == table.nodes@[w]);
                        }
                    }
                    assert forall|k: PubKeyBytes| #[trigger] visited_set(table.nodes@, visited@).contains(k) <==> visited_set(old_nodes, old_visited).contains(k) by {
                        if visited_set(old_nodes, old_visited).contains(k) {
                            let w = choose|w: int| 0 <= w < old_nodes.len() && w < old_visited.len() && old_visited[w] && old_nodes[w] == k;
                            assert(visited@[w] && table.nodes@[w] == k);
                        }
                        if visited_set(table.nodes@, visited@).contains(k) {
                            let w = choose|w: int| 0 <= w < table.nodes@.len() && w < visited@.len() && visited@[w] && table.nodes@[w] == k;
                            assert(w < old_n);
                            assert(old_visited[w] && old_nodes[w] == k);
                        }
                    }
                    assert(visited_set(table.nodes@, visited@) =~= visited_set(old_nodes, old_visited));
                }
            }
        },
    }
}

/// The score a search node gets over channel `st` from a node scoring
/// `x`: 0 for a channel leaving us, else `x` plus the channel's cost
/// (saturating).
pub open spec fn step_score(st: ShortChannelIdDirState, x: u64, my_pubkey: PubKeyBytes, amount_msat: u64) -> u64 {
    if st.source == my_pubkey {
        0
    } else if x + spec_edge_cost(st, amount_msat) > u64::MAX {
        u64::MAX
    } else {
        (x + spec_edge_cost(st, amount_msat)) as u64
    }
}

/// The score of a search path (last hop first): the scores of its hops
/// added up from the start, which scores 0.
pub open spec fn path_score(p: Seq<DijkstraNode>, my_pubkey: PubKeyBytes, amount_msat: u64) -> u64
    decreases p.len(),
{
    if p.len() == 0 {
        0
    } else {
        step_score(p[0].channel_state, path_score(p.subrange(1, p.len() as int), my_pubkey, amount_msat), my_pubkey, amount_msat)
    }
}

/// Every node's score is what its channel adds to its predecessor's, and
/// the start scores 0.
pub open spec fn scores_follow(score: Seq<DijkstraNode>, pred: Seq<usize>, my_pubkey: PubKeyBytes, amount_msat: u64) -> bool {
    &&& score.len() >= 1
    &&& score[0].score == 0
    &&& forall|v: int| #![trigger score[v]]
        0 < v < score.len() ==> pred[v] < score.len() && score[v].score == step_score(
            score[v].channel_state,
            score[pred[v] as int].score,
            my_pubkey,
            amount_msat,
        )
}

/// Each hop of a path scores what its channel adds to the hop after it
/// (towards the start), and the hop leaving the start adds to 0.
spec fn hop_scores_chain(p: Seq<DijkstraNode>, my_pubkey: PubKeyBytes, amount_msat: u64) -> bool {
    &&& p.len() >= 1
    &&& p[p.len() - 1].score == step_score(p[p.len() - 1].channel_state, 0, my_pubkey, amount_msat)
    &&& forall|k: int| #![trigger p[k]]
        0 <= k < p.len() - 1 ==> p[k].score == step_score(p[k].channel_state, p[k + 1].score, my_pubkey, amount_msat)
}

/// A path whose hops carry their scores scores as its last hop does.
proof fn lemma_path_score_chain(p: Seq<DijkstraNode>, my_pubkey: PubKeyBytes, amount_msat: u64)
    requires
        hop_scores_chain(p, my_pubkey, amount_msat),
    ensures
        path_score(p, my_pubkey, amount_msat) == p[0].score,
    decreases p.len(),
{
    let rest = p.subrange(1, p.len() as int);
    if p.len() == 1 {
        assert(rest.len() == 0);
        assert(path_score(rest, my_pubkey, amount_msat) == 0);
    } else {
        assert forall|k: int| #![trigger rest[k]] 0 <= k < rest.len() - 1 implies rest[k].score == step_score(rest[k].channel_state, rest[k + 1].score, my_pubkey, amount_msat) by {
            assert(rest[k] == p[k + 1] && rest[k + 1] == p[k + 2]);
        }
        assert(rest[rest.len() - 1] == p[p.len() - 1]);
        lemma_path_score_chain(rest, my_pubkey, amount_msat);
        assert(rest[0] == p[1]);
        assert(p[0].score == step_score(p[0].channel_state, p[1].score, my_pubkey, amount_msat));
    }
}

/// Relaxing a channel out of `u`, with `u`'s own score, keeps every score
/// following its predecessor's.
proof fn lemma_relax_follows(
    n0: Seq<PubKeyBytes>, s0: Seq<DijkstraNode>, p0: Seq<usize>, v0: Seq<bool>, q0: Seq<bool>,
    n1: Seq<PubKeyBytes>, s1: Seq<DijkstraNode>, p1: Seq<usize>, v1: Seq<bool>, q1: Seq<bool>,
    u: usize,
    sd: ShortChannelIdDir,
    st: ShortChannelIdDirState,
    hops_u: u8,
    my_pubkey: PubKeyBytes,
    amount_msat: u64,
)
    requires
        relax_result(n0, s0, p0, v0, q0, n1, s1, p1, v1, q1, u, relaxed_node(sd, st, hops_u, s0[u as int].score, my_pubkey, amount_msat)),
        scores_follow(s0, p0, my_pubkey, amount_msat),
        s0.len() == n0.len(),
        p0.len() == n0.len(),
        v0.len() == n0.len(),
        u < n0.len(),
        !v0[u as int],
        forall|v: int| 0 < v < n0.len() ==> #[trigger] v0[p0[v] as int] || p0[v] == u,
    ensures
        scores_follow(s1, p1, my_pubkey, amount_msat),
{
    let nd = relaxed_node(sd, st, hops_u, s0[u as int].score, my_pubkey, amount_msat);
    lemma_node_pos(n0, nd.destination);
    match node_pos(n0, nd.destination) {
        Some(w) => {
            if w != 0 && !v0[w] && w != u && nd.score < s0[w].score {
                assert forall|v: int| #![trigger s1[v]] 0 < v < s1.len() implies p1[v] < s1.len() && s1[v].score == step_score(
                    s1[v].channel_state, s1[p1[v] as int].score, my_pubkey, amount_msat) by {
                    if v == w {
                        assert(s1[v] == nd);
                        assert(p1[v] == u);
                        assert(s1[u as int] == s0[u as int]);
                    } else {
                        assert(s1[v] == s0[v]);
                        assert(p1[v] == p0[v]);
                        assert(v0[p0[v] as int] || p0[v] == u);
                        assert(p0[v] as int != w);
                        assert(s1[p1[v] as int] == s0[p0[v] as int]);
                    }
                }
            }
        },
        None => {
            if n0.len() < usize::MAX - 1 {
                assert forall|v: int| #![trigger s1[v]] 0 < v < s1.len() implies p1[v] < s1.len() && s1[v].score == step_score(
                    s1[v].channel_state, s1[p1[v] as int].score, my_pubkey, amount_msat) by {
                    if v == n0.len() {
                        assert(s1[v] == nd);
                        assert(p1[v] == u);
                        assert(s1[u as int] == s0[u as int]);
                    } else {
                        assert(s1[v] == s0[v]);
                        assert(p1[v] == p0[v]);
                        assert(s1[p1[v] as int] == s0[p0[v] as int]);
                    }
                }
            }
        },
    }
}

/// A channel's score never falls below its source's, unless it leaves us.
proof fn lemma_step_grows(st: ShortChannelIdDirState, x: u64, my_pubkey: PubKeyBytes, amount_msat: u64)
    requires
        st.source != my_pubkey,
    ensures
        x <= step_score(st, x, my_pubkey, amount_msat),
{
}

/// A channel's score grows with its source's.
proof fn lemma_step_mono(st: ShortChannelIdDirState, x: u64, y: u64, my_pubkey: PubKeyBytes, amount_msat: u64)
    requires
        x <= y,
    ensures
        step_score(st, x, my_pubkey, amount_msat) <= step_score(st, y, my_pubkey, amount_msat),
{
}

/// Every usable channel out of a visited node towards a node of the table
/// other than the start leaves that node scoring at most what the channel
/// adds to the visited node's score.
#[verifier::opaque]
pub open spec fn scores_closed(
    g: Map<ShortChannelIdDir, ShortChannelIdDirState>,
    nodes: Seq<PubKeyBytes>,
    score: Seq<DijkstraNode>,
    visited: Seq<bool>,
    two_weeks_ago: u32,
    candidates: Seq<u64>,
    my_pubkey: PubKeyBytes,
    exclude_peers: Seq<PubKeyBytes>,
    amount_msat: u64,
    excepts: Seq<ShortChannelIdDir>,
    liquidity: Map<u128, Liquidity>,
) -> bool {
    forall|v: int, sd: ShortChannelIdDir, w: int|
        #![trigger visited[v], g[sd], nodes[w]]
        0 <= v < nodes.len() && visited[v] && g.contains_key(sd) && g[sd].source == nodes[v]
            && edge_usable(sd, g[sd], two_weeks_ago, candidates, my_pubkey, exclude_peers, amount_msat, excepts, liquidity)
            && 0 < w < nodes.len() && nodes[w] == g[sd].destination
            ==> score[w].score <= step_score(g[sd], score[v].score, my_pubkey, amount_msat)
}

/// Visited nodes score no more than queued unvisited ones.
#[verifier::opaque]
spec fn scores_ordered(score: Seq<DijkstraNode>, visited: Seq<bool>, queued: Seq<bool>) -> bool {
    forall|v: int, w: int|
        #![trigger visited[v], queued[w]]
        0 <= v < score.len() && 0 <= w < score.len() && visited[v] && !visited[w] && queued[w]
            ==> score[v].score <= score[w].score
}

/// While node `u` is being expanded: the channels `es[..i]` out of it
/// leave every unvisited node they reach (but the start and `u`) scoring at
/// most what they add to `u`'s score `x`.
spec fn relaxed_upto(
    nodes: Seq<PubKeyBytes>,
    score: Seq<DijkstraNode>,
    visited: Seq<bool>,
    u: int,
    x: u64,
    es: Seq<(ShortChannelIdDir, ShortChannelIdDirState)>,
    i: int,
    my_pubkey: PubKeyBytes,
    amount_msat: u64,
) -> bool {
    forall|j: int, w: int|
        #![trigger es[j], nodes[w]]
        0 <= j < i && 0 < w < nodes.len() && nodes[w] == es[j].1.destination && !visited[w] && w != u
            ==> score[w].score <= step_score(es[j].1, x, my_pubkey, amount_msat)
}

/// What relaxing channel `es[i]` out of `u` keeps of the search's order and
/// closure facts, and adds for `es[i]`.
#[verifier::spinoff_prover]
#[verifier::rlimit(50)]
proof fn lemma_relax_order(
    n0: Seq<PubKeyBytes>, s0: Seq<DijkstraNode>, p0: Seq<usize>, v0: Seq<bool>, q0: Seq<bool>,
    n1: Seq<PubKeyBytes>, s1: Seq<DijkstraNode>, p1: Seq<usize>, v1: Seq<bool>, q1: Seq<bool>,
    u: usize,
    hops_u: u8,
    es: Seq<(ShortChannelIdDir, ShortChannelIdDirState)>,
    i: int,
    g: Map<ShortChannelIdDir, ShortChannelIdDirState>,
    goal: PubKeyBytes,
    two_weeks_ago: u32,
    candidates: Seq<u64>,
    my_pubkey: PubKeyBytes,
    exclude_peers: Seq<PubKeyBytes>,
    amount_msat: u64,
    excepts: Seq<ShortChannelIdDir>,
    liquidity: Map<u128, Liquidity>,
)
    requires
        0 <= i < es.len(),
        relax_result(n0, s0, p0, v0, q0, n1, s1, p1, v1, q1, u,
            relaxed_node(es[i].0, es[i].1, hops_u, s0[u as int].score, my_pubkey, amount_msat)),
        s0.len() == n0.len(),
        v0.len() == n0.len(),
        q0.len() == n0.len(),
        p0.len() == n0.len(),
        u < n0.len(),
        !v0[u as int],
        forall|a: int, b: int| 0 <= a < b < n0.len() ==> #[trigger] n0[a] != #[trigger] n0[b],
        forall|a: int, b: int| 0 <= a < b < n1.len() ==> #[trigger] n1[a] != #[trigger] n1[b],
        s0[u as int].score <= step_score(es[i].1, s0[u as int].score, my_pubkey, amount_msat),
        scores_closed(g, n0, s0, v0, two_weeks_ago, candidates, my_pubkey, exclude_peers, amount_msat, excepts, liquidity),
        expanded_closed(g, n0, v0, two_weeks_ago, candidates, my_pubkey, exclude_peers, amount_msat, excepts, liquidity),
        scores_ordered(s0, v0, q0),
        forall|v: int| 0 <= v < n0.len() && #[trigger] v0[v] ==> s0[v].score <= s0[u as int].score,
        forall|w: int| 0 <= w < n0.len() && !v0[w] && #[trigger] q0[w] && w != u ==> s0[u as int].score <= s0[w].score,
        relaxed_upto(n0, s0, v0, u as int, s0[u as int].score, es, i, my_pubkey, amount_msat),
        forall|w: int| 0 <= w < n0.len() && #[trigger] n0[w] == goal ==> q0[w] && !v0[w],
        forall|j: int| 0 <= j < i ==> in_table(n0, #[trigger] es[j].1.destination) || n0.len() >= usize::MAX - 1,
    ensures
        scores_closed(g, n1, s1, v1, two_weeks_ago, candidates, my_pubkey, exclude_peers, amount_msat, excepts, liquidity),
        scores_ordered(s1, v1, q1),
        s1[u as int] == s0[u as int],
        forall|v: int| 0 <= v < n1.len() && #[trigger] v1[v] ==> s1[v].score <= s1[u as int].score,
        forall|w: int| 0 <= w < n1.len() && !v1[w] && #[trigger] q1[w] && w != u ==> s1[u as int].score <= s1[w].score,
        relaxed_upto(n1, s1, v1, u as int, s1[u as int].score, es, i + 1, my_pubkey, amount_msat),
        forall|w: int| 0 <= w < n1.len() && #[trigger] n1[w] == goal ==> q1[w] && !v1[w],
{
    reveal(scores_closed);
    reveal(scores_ordered);
    reveal(expanded_closed);
    let x = s0[u as int].score;
    let nd = relaxed_node(es[i].0, es[i].1, hops_u, x, my_pubkey, amount_msat);
    assert(nd.score == step_score(es[i].1, x, my_pubkey, amount_msat));
    lemma_node_pos(n0, nd.destination);
    // every node keeps its place, and no score rises
    assert forall|w: int| 0 <= w < n0.len() implies #[trigger] n1[w] == n0[w] && s1[w].score <= s0[w].score
        && v1[w] == v0[w] && (q0[w] ==> q1[w]) by {
    }
    assert(s1[u as int] == s0[u as int]);
    // new and improved nodes score at least x
    assert forall|w: int| 0 <= w < n1.len() && (w >= n0.len() || s1[w] != s0[w]) implies #[trigger] s1[w].score == nd.score && !v1[w] by {
    }
    assert forall|v: int, sd: ShortChannelIdDir, w: int|
        #![trigger v1[v], g[sd], n1[w]]
        0 <= v < n1.len() && v1[v] && g.contains_key(sd) && g[sd].source == n1[v]
            && edge_usable(sd, g[sd], two_weeks_ago, candidates, my_pubkey, exclude_peers, amount_msat, excepts, liquidity)
            && 0 < w < n1.len() && n1[w] == g[sd].destination
        implies s1[w].score <= step_score(g[sd], s1[v].score, my_pubkey, amount_msat) by {
        assert(v < n0.len());
        assert(v0[v] && n0[v] == n1[v] && s1[v] == s0[v]);
        if w >= n0.len() {
            if n0.len() < usize::MAX - 1 {
                assert(in_table(n0, g[sd].destination));
                let z = choose|z: int| 0 <= z < n0.len() && n0[z] == g[sd].destination;
                assert(n1[z] == n0[z]);
                assert(n1[z] != n1[w]);
            } else {
                assert(n1.len() == n0.len());
            }
        } else {
            assert(s0[w].score <= step_score(g[sd], s0[v].score, my_pubkey, amount_msat));
        }
    }
    assert forall|v: int, w: int|
        #![trigger v1[v], q1[w]]
        0 <= v < s1.len() && 0 <= w < s1.len() && v1[v] && !v1[w] && q1[w]
        implies s1[v].score <= s1[w].score by {
        assert(v < n0.len());
        assert(s1[v] == s0[v]);
        if w < n0.len() && s1[w] == s0[w] && q0[w] {
        } else {
            assert(s0[v].score <= x);
        }
    }
    assert forall|w: int| 0 <= w < n1.len() && !v1[w] && #[trigger] q1[w] && w != u implies s1[u as int].score <= s1[w].score by {
        if w < n0.len() && s1[w] == s0[w] && q0[w] {
        } else {
        }
    }
    assert forall|j: int, w: int|
        #![trigger es[j], n1[w]]
        0 <= j < i + 1 && 0 < w < n1.len() && n1[w] == es[j].1.destination && !v1[w] && w != u
        implies s1[w].score <= step_score(es[j].1, x, my_pubkey, amount_msat) by {
        if j < i {
            if w < n0.len() {
                assert(s0[w].score <= step_score(es[j].1, x, my_pubkey, amount_msat));
            } else {
                // a node new in the table is no end of a channel relaxed before
                assert(n1.len() > n0.len());
                assert(in_table(n0, es[j].1.destination));
                let z = choose|z: int| 0 <= z < n0.len() && n0[z] == es[j].1.destination;
                assert(n1[z] == n0[z]);
                assert(n1[z] != n1[w]);
            }
        } else {
            match node_pos(n0, nd.destination) {
                Some(z) => {
                    if w < n0.len() {
                        assert(n0[w] == n0[z]);
                        if w != z {
                            if w < z {
                                assert(n0[w] != n0[z]);
                            } else {
                                assert(n0[z] != n0[w]);
                            }
                        }
                    }
                },
                None => {},
            }
        }
    }
    assert forall|w: int| 0 <= w < n1.len() && #[trigger] n1[w] == goal implies q1[w] && !v1[w] by {
    }
}

/// Marking the expanded node `u` visited, once all its channels are
/// relaxed, keeps the search's order and closure facts.
#[verifier::spinoff_prover]
#[verifier::rlimit(50)]
proof fn lemma_mark_order(
    n: Seq<PubKeyBytes>,
    s: Seq<DijkstraNode>,
    vis: Seq<bool>,
    q: Seq<bool>,
    u: usize,
    es: Seq<(ShortChannelIdDir, ShortChannelIdDirState)>,
    g: Map<ShortChannelIdDir, ShortChannelIdDirState>,
    two_weeks_ago: u32,
    candidates: Seq<u64>,
    my_pubkey: PubKeyBytes,
    exclude_peers: Seq<PubKeyBytes>,
    amount_msat: u64,
    excepts: Seq<ShortChannelIdDir>,
    liquidity: Map<u128, Liquidity>,
)
    requires
        s.len() == n.len(),
        vis.len() == n.len(),
        q.len() == n.len(),
        u < n.len(),
        !vis[u as int],
        u == 0 || n[u as int] != my_pubkey,
        u == 0 ==> forall|v: int| 0 <= v < n.len() ==> !#[trigger] vis[v],
        scores_closed(g, n, s, vis, two_weeks_ago, candidates, my_pubkey, exclude_peers, amount_msat, excepts, liquidity),
        scores_ordered(s, vis, q),
        forall|v: int| 0 <= v < n.len() && #[trigger] vis[v] ==> s[v].score <= s[u as int].score,
        forall|w: int| 0 <= w < n.len() && !vis[w] && #[trigger] q[w] && w != u ==> s[u as int].score <= s[w].score,
        relaxed_upto(n, s, vis, u as int, s[u as int].score, es, es.len() as int, my_pubkey, amount_msat),
        forall|j: int| 0 <= j < es.len() ==> g[#[trigger] es[j].0] == es[j].1,
        forall|sd: ShortChannelIdDir|
            #![trigger g[sd]]
            g.contains_key(sd) && g[sd].source == n[u as int] && edge_usable(
                sd,
                g[sd],
                two_weeks_ago,
                candidates,
                my_pubkey,
                exclude_peers,
                amount_msat,
                excepts,
                liquidity,
            ) ==> exists|i: int| 0 <= i < es.len() && es[i].0 == sd,
    ensures
        scores_closed(g, n, s, vis.update(u as int, true), two_weeks_ago, candidates, my_pubkey, exclude_peers, amount_msat, excepts, liquidity),
        scores_ordered(s, vis.update(u as int, true), q),
{
    reveal(scores_closed);
    reveal(scores_ordered);
    let nv = vis.update(u as int, true);
    let x = s[u as int].score;
    assert forall|v: int, sd: ShortChannelIdDir, w: int|
        #![trigger nv[v], g[sd], n[w]]
        0 <= v < n.len() && nv[v] && g.contains_key(sd) && g[sd].source == n[v]
            && edge_usable(sd, g[sd], two_weeks_ago, candidates, my_pubkey, exclude_peers, amount_msat, excepts, liquidity)
            && 0 < w < n.len() && n[w] == g[sd].destination
        implies s[w].score <= step_score(g[sd], s[v].score, my_pubkey, amount_msat) by {
        if v == u as int {
            let j = choose|j: int| 0 <= j < es.len() && es[j].0 == sd;
            assert(g[es[j].0] == es[j].1);
            if !vis[w] && w != u as int {
                assert(s[w].score <= step_score(es[j].1, x, my_pubkey, amount_msat));
            } else {
                if u == 0 {
                    assert(w != 0);
                    assert(!vis[w]);
                } else {
                    lemma_step_grows(g[sd], x, my_pubkey, amount_msat);
                    if vis[w] {
                        assert(s[w].score <= x);
                    }
                }
            }
        } else {
            assert(vis[v]);
        }
    }
    assert forall|v: int, w: int|
        #![trigger nv[v], q[w]]
        0 <= v < s.len() && 0 <= w < s.len() && nv[v] && !nv[w] && q[w]
        implies s[v].score <= s[w].score by {
        if v != u as int {
            assert(vis[v]);
        }
    }
}

/// Whether the node `k` is in the table.
pub open spec fn in_table(nodes: Seq<PubKeyBytes>, k: PubKeyBytes) -> bool {
    exists|w: int| 0 <= w < nodes.len() && nodes[w] == k
}

/// Every usable channel out of a visited node ends at a node of the table
/// (unless the table is full).
#[verifier::opaque]
pub open spec fn expanded_closed(
    g: Map<ShortChannelIdDir, ShortChannelIdDirState>,
    nodes: Seq<PubKeyBytes>,
    visited: Seq<bool>,
    two_weeks_ago: u32,
    candidates: Seq<u64>,
    my_pubkey: PubKeyBytes,
    exclude_peers: Seq<PubKeyBytes>,
    amount_msat: u64,
    excepts: Seq<ShortChannelIdDir>,
    liquidity: Map<u128, Liquidity>,
) -> bool {
    nodes.len() >= usize::MAX - 1 || forall|v: int, sd: ShortChannelIdDir|
        #![trigger visited[v], g[sd]]
        0 <= v < nodes.len() && v < visited.len() && visited[v] && g.contains_key(sd) && g[sd].source == nodes[v]
            && edge_usable(sd, g[sd], two_weeks_ago, candidates, my_pubkey, exclude_peers, amount_msat, excepts, liquidity)
            ==> in_table(nodes, g[sd].destination)
}

/// Every node, but `except`, that is neither visited nor queued has no room
/// for another hop.
#[verifier::opaque]
spec fn unqueued_pruned(score: Seq<DijkstraNode>, visited: Seq<bool>, queued: Seq<bool>, maxhops: u8, except: int) -> bool {
    forall|v: int| #![trigger queued[v]]
        0 <= v < queued.len() && v != except && !visited[v] && !queued[v] ==> score[v].hops + 2 > maxhops
}

proof fn lemma_node_pos(nodes: Seq<PubKeyBytes>, k: PubKeyBytes)
    ensures
        match node_pos(nodes, k) {
            Some(w) => 0 <= w < nodes.len() && nodes[w] == k,
            None => !in_table(nodes, k),
        },
{
}

/// What relaxing a channel keeps of the search's completeness facts, and
/// that the channel's end is then in the table (unless it is full).
proof fn lemma_relax_keeps(
    n0: Seq<PubKeyBytes>, s0: Seq<DijkstraNode>, p0: Seq<usize>, v0: Seq<bool>, q0: Seq<bool>,
    n1: Seq<PubKeyBytes>, s1: Seq<DijkstraNode>, p1: Seq<usize>, v1: Seq<bool>, q1: Seq<bool>,
    u: usize,
    nd: DijkstraNode,
    g: Map<ShortChannelIdDir, ShortChannelIdDirState>,
    maxhops: u8,
    two_weeks_ago: u32,
    candidates: Seq<u64>,
    my_pubkey: PubKeyBytes,
    exclude_peers: Seq<PubKeyBytes>,
    amount_msat: u64,
    excepts: Seq<ShortChannelIdDir>,
    liquidity: Map<u128, Liquidity>,
)
    requires
        relax_result(n0, s0, p0, v0, q0, n1, s1, p1, v1, q1, u, nd),
        q0.len() == n0.len(),
        v0.len() == n0.len(),
        s0.len() == n0.len(),
        u < n0.len(),
        expanded_closed(g, n0, v0, two_weeks_ago, candidates, my_pubkey, exclude_peers, amount_msat, excepts, liquidity),
        unqueued_pruned(s0, v0, q0, maxhops, u as int),
    ensures
        expanded_closed(g, n1, v1, two_weeks_ago, candidates, my_pubkey, exclude_peers, amount_msat, excepts, liquidity),
        unqueued_pruned(s1, v1, q1, maxhops, u as int),
        in_table(n1, nd.destination) || n1.len() >= usize::MAX - 1,
        forall|k: PubKeyBytes| in_table(n0, k) ==> #[trigger] in_table(n1, k),
        n1.len() >= n0.len(),
        q1.len() == n1.len(),
        v1.len() == n1.len(),
        s1.len() == n1.len(),
{
    reveal(expanded_closed);
    reveal(unqueued_pruned);
    lemma_node_pos(n0, nd.destination);
    assert forall|k: PubKeyBytes| in_table(n0, k) implies #[trigger] in_table(n1, k) by {
        let w = choose|w: int| 0 <= w < n0.len() && n0[w] == k;
        assert(n1[w] == n0[w]);
    }
    if n1.len() < usize::MAX - 1 {
        assert forall|v: int, sd: ShortChannelIdDir|
            #![trigger v1[v], g[sd]]
            0 <= v < n1.len() && v < v1.len() && v1[v] && g.contains_key(sd) && g[sd].source == n1[v]
                && edge_usable(sd, g[sd], two_weeks_ago, candidates, my_pubkey, exclude_peers, amount_msat, excepts, liquidity)
            implies in_table(n1, g[sd].destination) by {
            assert(v < n0.len());
            assert(v0[v] && n0[v] == n1[v]);
            assert(in_table(n0, g[sd].destination));
        }
        match node_pos(n0, nd.destination) {
            Some(w) => {
                assert(n1[w] == nd.destination);
            },
            None => {
                assert(n1[n1.len() - 1] == nd.destination);
            },
        }
    }
    assert forall|v: int| #![trigger q1[v]]
        0 <= v < q1.len() && v != u as int && !v1[v] && !q1[v] implies s1[v].hops + 2 > maxhops by {
        if v < n0.len() {
            assert(!v0[v]);
            assert(!q0[v]);
            assert(s1[v] == s0[v]);
        }
    }
}

/// The predecessors of a node in the tables, read back to the start, form
/// a valid search path to it with as many hops as the node has.
#[verifier::spinoff_prover]
#[verifier::rlimit(40)]
proof fn lemma_chain_path(
    g: Map<ShortChannelIdDir, ShortChannelIdDirState>,
    nodes: Seq<PubKeyBytes>,
    score: Seq<DijkstraNode>,
    pred: Seq<usize>,
    visited: Seq<bool>,
    start: PubKeyBytes,
    maxhops: u8,
    two_weeks_ago: u32,
    candidates: Seq<u64>,
    my_pubkey: PubKeyBytes,
    exclude_peers: Seq<PubKeyBytes>,
    amount_msat: u64,
    excepts: Seq<ShortChannelIdDir>,
    liquidity: Map<u128, Liquidity>,
    v: int,
) -> (r: (Seq<DijkstraNode>, Seq<int>))
    requires
        tables_sound(g, nodes, score, pred, visited, -1, start, maxhops, two_weeks_ago, candidates, my_pubkey, exclude_peers, amount_msat, excepts, liquidity),
        0 < v < nodes.len(),
        forall|i: int, j: int| 0 <= i < j < nodes.len() ==> #[trigger] nodes[i] != #[trigger] nodes[j],
    ensures
        path_valid(g, r.0, start, nodes[v], two_weeks_ago, candidates, my_pubkey, exclude_peers, amount_msat, excepts, liquidity),
        r.0.len() == score[v].hops,
        r.1.len() == r.0.len(),
        forall|k: int| #![trigger r.1[k]] 0 <= k < r.1.len() ==> {
            &&& 0 < r.1[k] < nodes.len()
            &&& r.0[k] == score[r.1[k]]
            &&& r.0[k].hops + k == score[v].hops
        },
    decreases score[v].hops,
{
    reveal(tables_sound);
    let w = pred[v] as int;
    assert(score[v].hops == score[w].hops + 1);
    assert(nodes[0] != nodes[v]);
    if w == 0 {
        let p = seq![score[v]];
        let idx = seq![v];
        (p, idx)
    } else {
        let (q, iq) = lemma_chain_path(g, nodes, score, pred, visited, start, maxhops, two_weeks_ago, candidates, my_pubkey, exclude_peers, amount_msat, excepts, liquidity, w);
        let p = seq![score[v]] + q;
        let idx = seq![v] + iq;
        assert forall|k: int| #![trigger idx[k]] 0 <= k < idx.len() implies {
            &&& 0 < idx[k] < nodes.len()
            &&& p[k] == score[idx[k]]
            &&& p[k].hops + k == score[v].hops
        } by {
            if k > 0 {
                assert(idx[k] == iq[k - 1]);
                assert(p[k] == q[k - 1]);
            }
        }
        assert forall|i: int| 0 <= i < p.len() - 1 implies #[trigger] p[i].channel_state.source == p[i + 1].destination by {
            if i > 0 {
                assert(p[i] == q[i - 1] && p[i + 1] == q[i]);
            }
        }
        assert forall|i: int| 0 <= i < p.len() implies hop_in_graph(g, #[trigger] p[i], two_weeks_ago, candidates, my_pubkey, exclude_peers, amount_msat, excepts, liquidity) by {
            if i > 0 {
                assert(p[i] == q[i - 1]);
            }
        }
        assert forall|i: int, j: int| #![trigger p[i], p[j]] 0 <= i < j < p.len() implies p[i].destination != p[j].destination by {
            assert(p[j] == q[j - 1]);
            if i > 0 {
                assert(p[i] == q[i - 1]);
            } else {
                let x = iq[j - 1];
                assert(q[j - 1] == score[x]);
                assert(score[x].destination == nodes[x]);
                if x == v {
                    assert(q[j - 1].hops + (j - 1) == score[w].hops);
                } else if x < v {
                    assert(nodes[x] != nodes[v]);
                } else {
                    assert(nodes[v] != nodes[x]);
                }
            }
        }
        assert forall|i: int| 0 <= i < p.len() implies #[trigger] p[i].destination != start by {
            if i > 0 {
                assert(p[i] == q[i - 1]);
            }
        }
        assert(p[p.len() - 1] == q[q.len() - 1]);
        (p, idx)
    }
}

/// When every node of the table is visited and the table is closed, every
/// hop of a valid path from the start ends at a node of the table.
proof fn lemma_reach(
    g: Map<ShortChannelIdDir, ShortChannelIdDirState>,
    nodes: Seq<PubKeyBytes>,
    visited: Seq<bool>,
    p: Seq<DijkstraNode>,
    start: PubKeyBytes,
    to: PubKeyBytes,
    two_weeks_ago: u32,
    candidates: Seq<u64>,
    my_pubkey: PubKeyBytes,
    exclude_peers: Seq<PubKeyBytes>,
    amount_msat: u64,
    excepts: Seq<ShortChannelIdDir>,
    liquidity: Map<u128, Liquidity>,
    k: int,
)
    requires
        path_valid(g, p, start, to, two_weeks_ago, candidates, my_pubkey, exclude_peers, amount_msat, excepts, liquidity),
        0 <= k < p.len(),
        nodes.len() >= 1,
        nodes[0] == start,
        visited.len() == nodes.len(),
        forall|v: int| 0 <= v < nodes.len() ==> #[trigger] visited[v],
        expanded_closed(g, nodes, visited, two_weeks_ago, candidates, my_pubkey, exclude_peers, amount_msat, excepts, liquidity),
        nodes.len() < usize::MAX - 1,
    ensures
        in_table(nodes, p[k].destination),
    decreases p.len() - k,
{
    reveal(expanded_closed);
    reveal(hop_in_graph);
    let src = p[k].channel_state.source;
    if k < p.len() - 1 {
        lemma_reach(g, nodes, visited, p, start, to, two_weeks_ago, candidates, my_pubkey, exclude_peers, amount_msat, excepts, liquidity, k + 1);
        assert(p[k].channel_state.source == p[k + 1].destination);
    }
    assert(in_table(nodes, src));
    let w = choose|w: int| 0 <= w < nodes.len() && nodes[w] == src;
    assert(hop_in_graph(g, p[k], two_weeks_ago, candidates, my_pubkey, exclude_peers, amount_msat, excepts, liquidity));
    let d = choose|d: u32| #![trigger g[ShortChannelIdDir { short_channel_id: p[k].short_channel_id, direction: d }]] {
        let sd = ShortChannelIdDir { short_channel_id: p[k].short_channel_id, direction: d };
        &&& g.contains_key(sd)
        &&& g[sd] == p[k].channel_state
        &&& edge_usable(sd, g[sd], two_weeks_ago, candidates, my_pubkey, exclude_peers, amount_msat, excepts, liquidity)
    };
    let sd = ShortChannelIdDir { short_channel_id: p[k].short_channel_id, direction: d };
    assert(visited[w]);
    assert(g[sd].source == nodes[w]);
    assert(in_table(nodes, g[sd].destination));
}

/// Marking the expanded node `u` visited, once every usable channel out of
/// it ends in the table, keeps the table closed and leaves no node but the
/// pruned ones unqueued.
proof fn lemma_expand_done(
    g: Map<ShortChannelIdDir, ShortChannelIdDirState>,
    nodes: Seq<PubKeyBytes>,
    visited: Seq<bool>,
    score: Seq<DijkstraNode>,
    queued: Seq<bool>,
    u: usize,
    es: Seq<(ShortChannelIdDir, ShortChannelIdDirState)>,
    maxhops: u8,
    two_weeks_ago: u32,
    candidates: Seq<u64>,
    my_pubkey: PubKeyBytes,
    exclude_peers: Seq<PubKeyBytes>,
    amount_msat: u64,
    excepts: Seq<ShortChannelIdDir>,
    liquidity: Map<u128, Liquidity>,
)
    requires
        u < nodes.len(),
        visited.len() == nodes.len(),
        score.len() == nodes.len(),
        queued.len() == nodes.len(),
        expanded_closed(g, nodes, visited, two_weeks_ago, candidates, my_pubkey, exclude_peers, amount_msat, excepts, liquidity),
        unqueued_pruned(score, visited, queued, maxhops, u as int),
        forall|j: int| 0 <= j < es.len() ==> in_table(nodes, #[trigger] es[j].1.destination)
            || nodes.len() >= usize::MAX - 1,
        forall|j: int| 0 <= j < es.len() ==> g[#[trigger] es[j].0] == es[j].1,
        forall|sd: ShortChannelIdDir|
            #![trigger g[sd]]
            g.contains_key(sd) && g[sd].source == nodes[u as int] && edge_usable(
                sd,
                g[sd],
                two_weeks_ago,
                candidates,
                my_pubkey,
                exclude_peers,
                amount_msat,
                excepts,
                liquidity,
            ) ==> exists|i: int| 0 <= i < es.len() && es[i].0 == sd,
    ensures
        expanded_closed(g, nodes, visited.update(u as int, true), two_weeks_ago, candidates, my_pubkey, exclude_peers, amount_msat, excepts, liquidity),
        unqueued_pruned(score, visited.update(u as int, true), queued, maxhops, -1),
{
    reveal(expanded_closed);
    reveal(unqueued_pruned);
    let nv = visited.update(u as int, true);
    if nodes.len() < usize::MAX - 1 {
        assert forall|v: int, sd: ShortChannelIdDir|
            #![trigger nv[v], g[sd]]
            0 <= v < nodes.len() && v < nv.len() && nv[v] && g.contains_key(sd) && g[sd].source == nodes[v]
                && edge_usable(sd, g[sd], two_weeks_ago, candidates, my_pubkey, exclude_peers, amount_msat, excepts, liquidity)
            implies in_table(nodes, g[sd].destination) by {
            if v == u as int {
                let i = choose|i: int| 0 <= i < es.len() && es[i].0 == sd;
                assert(g[es[i].0] == es[i].1);
                assert(in_table(nodes, es[i].1.destination));
            } else {
                assert(visited[v]);
            }
        }
    }
    assert forall|v: int| #![trigger queued[v]]
        0 <= v < queued.len() && v != -1 && !nv[v] && !queued[v] implies score[v].hops + 2 > maxhops by {
        assert(v != u as int);
        assert(!visited[v]);
    }
}

/// The search tables after the search from `start` has visited what it
/// could reach within the hop limit, or stopped at `goal`.
#[verifier::spinoff_prover]
#[verifier::rlimit(100)]
fn search(
    lngraph: &LnGraph,
    start: &PubKeyBytes,
    goal: &PubKeyBytes,
    first: DijkstraNode,
    maxhops: u8,
    two_weeks_ago: u32,
    candidates: &[u64],
    my_pubkey: &PubKeyBytes,
    exclude_peers: &[PubKeyBytes],
    amount_msat: u64,
    excepts: &[ShortChannelIdDir],
    liquidity: &HashMap<u128, Liquidity>,
) -> (r: (NodeTable, Vec<DijkstraNode>, Vec<usize>, Vec<bool>))
    requires
        lngraph.wf(),
        first.hops == 0,
        first.score == 0,
        *start == *my_pubkey || *goal == *my_pubkey,
    ensures
        r.0.wf(),
        scores_follow(r.1@, r.2@, *my_pubkey, amount_msat),
        scores_closed(lngraph@, r.0.nodes@, r.1@, r.3@, two_weeks_ago, candidates@, *my_pubkey, exclude_peers@, amount_msat, excepts@, liquidity@),
        r.0.nodes@.len() > 1 ==> r.3@[0],
        forall|gi: int| 0 <= gi < r.0.nodes@.len() && #[trigger] r.0.nodes@[gi] == *goal ==> !r.3@[gi] && forall|w: int|
            0 <= w < r.0.nodes@.len() && !#[trigger] r.3@[w] && w != gi ==> r.1@[w].hops + 2 > maxhops || r.1@[gi].score <= r.1@[w].score,
        tables_sound(lngraph@, r.0.nodes@, r.1@, r.2@, r.3@, -1, *start, maxhops, two_weeks_ago, candidates@, *my_pubkey, exclude_peers@, amount_msat, excepts@, liquidity@),
        expanded_closed(lngraph@, r.0.nodes@, r.3@, two_weeks_ago, candidates@, *my_pubkey, exclude_peers@, amount_msat, excepts@, liquidity@),
        forall|w: int| 0 <= w < r.0.nodes@.len() ==> reachable_universe(lngraph@, *start).contains(#[trigger] r.0.nodes@[w]),
        in_table(r.0.nodes@, *goal) || forall|v: int|
            0 <= v < r.0.nodes@.len() ==> #[trigger] r.3@[v] || r.1@[v].hops + 2 > maxhops,
{
    let ghost g = lngraph@;
    let mut table = NodeTable::new();
    table.add(*start);
    let mut score: Vec<DijkstraNode> = Vec::new();
    score.push(first);
    let mut pred: Vec<usize> = Vec::new();
    pred.push(0);
    let mut visited: Vec<bool> = Vec::new();
    visited.push(false);
    let mut queued: Vec<bool> = Vec::new();
    queued.push(true);
    let ghost univ = reachable_universe(g, *start);
    proof {
        reveal(tables_sound);
        lngraph.lemma_finite();
        g.dom().lemma_map_finite(|sd: ShortChannelIdDir| g[sd].destination);
        assert(visited_set(table.nodes@, visited@).subset_of(univ));
        reveal(expanded_closed);
        reveal(unqueued_pruned);
        reveal(scores_closed);
        reveal(scores_ordered);
    }
    loop
        invariant_except_break
            unqueued_pruned(score@, visited@, queued@, maxhops, -1),
            scores_ordered(score@, visited@, queued@),
            forall|w: int| 0 <= w < table.nodes@.len() && #[trigger] table.nodes@[w] == *goal ==> queued@[w] && !visited@[w],
        invariant
            lngraph.wf(),
            g == lngraph@,
            table.wf(),
            queued@.len() == table.nodes@.len(),
            tables_sound(g, table.nodes@, score@, pred@, visited@, -1, *start, maxhops, two_weeks_ago, candidates@, *my_pubkey, exclude_peers@, amount_msat, excepts@, liquidity@),
            univ == reachable_universe(g, *start),
            univ.finite(),
            forall|v: int| 0 <= v < table.nodes@.len() ==> univ.contains(#[trigger] table.nodes@[v]),
            visited_set(table.nodes@, visited@).subset_of(univ),
            expanded_closed(g, table.nodes@, visited@, two_weeks_ago, candidates@, *my_pubkey, exclude_peers@, amount_msat, excepts@, liquidity@),
            scores_follow(score@, pred@, *my_pubkey, amount_msat),
            scores_closed(g, table.nodes@, score@, visited@, two_weeks_ago, candidates@, *my_pubkey, exclude_peers@, amount_msat, excepts@, liquidity@),
            table.nodes@.len() > 1 ==> visited@[0],
            *start == *my_pubkey || *goal == *my_pubkey,
        ensures
            in_table(table.nodes@, *goal) || forall|v: int|
                0 <= v < table.nodes@.len() ==> #[trigger] visited@[v] || score@[v].hops + 2 > maxhops,
            forall|gi: int| 0 <= gi < table.nodes@.len() && #[trigger] table.nodes@[gi] == *goal ==> !visited@[gi] && forall|w: int|
                0 <= w < table.nodes@.len() && !#[trigger] visited@[w] && w != gi ==> score@[w].hops + 2 > maxhops || score@[gi].score <= score@[w].score,
        decreases univ.len() - visited_set(table.nodes@, visited@).len(), queued_set(queued@).len(),
    {
        proof {
            vstd::set_lib::lemma_len_subset(visited_set(table.nodes@, visited@), univ);
            lemma_queued_finite(queued@);
            lemma_sound_lens(g, table.nodes@, score@, pred@, visited@, -1, *start, maxhops, two_weeks_ago, candidates@, *my_pubkey, exclude_peers@, amount_msat, excepts@, liquidity@);
        }
        let n = table.nodes.len();
        let mut best: Option<usize> = None;
        let mut v: usize = 0;
        while v < n
            invariant
                n == table.nodes@.len(),
                queued@.len() == n,
                visited@.len() == n,
                score@.len() == n,
                v <= n,
                match best {
                    Some(b) => b < n && queued@[b as int] && !visited@[b as int] && forall|w: int|
                        0 <= w < v && #[trigger] queued@[w] && !visited@[w] ==> score@[b as int].score <= score@[w].score,
                    None => forall|w: int| 0 <= w < v ==> !(#[trigger] queued@[w] && !visited@[w]),
                },
            decreases n - v,
        {
            if queued[v] && !visited[v] {
                match best {
                    None => {
                        best = Some(v);
                    },
                    Some(b) => {
                        if score[v].score < score[b].score {
                            best = Some(v);
                        }
                    },
                }
            }
            v = v + 1;
        }
        let u = match best {
            None => {
                proof {
                    assert forall|gi: int| 0 <= gi < table.nodes@.len() && #[trigger] table.nodes@[gi] == *goal implies false by {
                        assert(queued@[gi] && !visited@[gi]);
                    }
                    reveal(unqueued_pruned);
                    assert forall|w: int| 0 <= w < table.nodes@.len() implies #[trigger] visited@[w] || score@[w].hops + 2 > maxhops by {
                        if !visited@[w] {
                            assert(!queued@[w]);
                        }
                    }
                }
                break;
            },
            Some(b) => b,
        };
        let ghost q0 = queued@;
        queued.set(u, false);
        proof {
            reveal(scores_ordered);
            reveal(NodeTable::wf);
            assert(scores_ordered(score@, visited@, queued@)) by {
                assert forall|a: int, b: int| #![trigger visited@[a], queued@[b]]
                    0 <= a < score@.len() && 0 <= b < score@.len() && visited@[a] && !visited@[b] && queued@[b]
                    implies score@[a].score <= score@[b].score by {
                    assert(q0[b]);
                }
            }
            assert forall|v: int| 0 <= v < table.nodes@.len() && #[trigger] visited@[v] implies score@[v].score <= score@[u as int].score by {
                assert(q0[u as int]);
            }
            assert forall|w: int| 0 <= w < table.nodes@.len() && !visited@[w] && #[trigger] queued@[w] && w != u implies score@[u as int].score <= score@[w].score by {
                assert(q0[w]);
            }
            assert(queued_set(queued@) =~= queued_set(q0).remove(u as int));
            assert(queued_set(q0).contains(u as int));
            reveal(unqueued_pruned);
            assert(unqueued_pruned(score@, visited@, queued@, maxhops, u as int)) by {
                assert forall|w: int| #![trigger queued@[w]]
                    0 <= w < queued@.len() && w != u as int && !visited@[w] && !queued@[w] implies score@[w].hops + 2 > maxhops by {
                    assert(!q0[w]);
                }
            }
        }
        if table.nodes[u].same_as(goal) {
            proof {
                assert(table.nodes@[u as int] == *goal);
                reveal(unqueued_pruned);
                assert forall|gi: int| 0 <= gi < table.nodes@.len() && #[trigger] table.nodes@[gi] == *goal implies !visited@[gi] && forall|w: int|
                    0 <= w < table.nodes@.len() && !#[trigger] visited@[w] && w != gi ==> score@[w].hops + 2 > maxhops || score@[gi].score <= score@[w].score by {
                    if gi != u as int {
                        if gi < u {
                            assert(table.nodes@[gi] != table.nodes@[u as int]);
                        } else {
                            assert(table.nodes@[u as int] != table.nodes@[gi]);
                        }
                    }
                    assert forall|w: int| 0 <= w < table.nodes@.len() && !#[trigger] visited@[w] && w != gi implies score@[w].hops + 2 > maxhops || score@[gi].score <= score@[w].score by {
                        if !queued@[w] {
                            assert(score@[w].hops + 2 > maxhops);
                        }
                    }
                }
            }
            break;
        }
        proof {
            assert(table.nodes@[u as int] != *goal);
        }
        let hops_u = score[u].hops;
        if hops_u as u16 + 2 > maxhops as u16 {
            proof {
                reveal(unqueued_pruned);
            }
            continue;
        }
        let node_key = table.nodes[u];
        let node_score = score[u].score;
        let es = lngraph.edges(
            &node_key,
            two_weeks_ago,
            candidates,
            my_pubkey,
            exclude_peers,
            amount_msat,
            excepts,
            liquidity,
        );
        proof {
            lemma_sound_current(g, table.nodes@, score@, pred@, visited@, u as int, *start, maxhops, two_weeks_ago, candidates@, *my_pubkey, exclude_peers@, amount_msat, excepts@, liquidity@);
        }
        let ghost vs0 = visited_set(table.nodes@, visited@);
        let ghost n0 = table.nodes@.len();
        let ghost visited0 = visited@;
        proof {
            reveal(NodeTable::wf);
            if u != 0 {
                if *start == *my_pubkey {
                    assert(table.nodes@[0] == *start);
                    assert(table.nodes@[0] != table.nodes@[u as int]);
                }
            } else {
                assert forall|v: int| 0 <= v < table.nodes@.len() implies !#[trigger] visited@[v] by {
                    if table.nodes@.len() > 1 {
                        assert(visited@[0]);
                    }
                }
            }
        }
        let mut i: usize = 0;
        while i < es.len()
            invariant
                lngraph.wf(),
                g == lngraph@,
                table.wf(),
                u < table.nodes@.len(),
                table.nodes@[u as int] == node_key,
                !visited@[u as int],
                score@[u as int].hops == hops_u,
                score@[u as int].score == node_score,
                hops_u + 2 <= maxhops,
                queued@.len() == table.nodes@.len(),
                tables_sound(g, table.nodes@, score@, pred@, visited@, u as int, *start, maxhops, two_weeks_ago, candidates@, *my_pubkey, exclude_peers@, amount_msat, excepts@, liquidity@),
                forall|j: int|
                    0 <= j < es@.len() ==> {
                        &&& g.contains_key(#[trigger] es@[j].0)
                        &&& g[es@[j].0] == es@[j].1
                        &&& es@[j].1.source == node_key
                        &&& edge_usable(
                            es@[j].0,
                            es@[j].1,
                            two_weeks_ago,
                            candidates@,
                            *my_pubkey,
                            exclude_peers@,
                            amount_msat,
                            excepts@,
                            liquidity@,
                        )
                    },
                univ == reachable_universe(g, *start),
                forall|w: int| 0 <= w < table.nodes@.len() ==> univ.contains(#[trigger] table.nodes@[w]),
                visited_set(table.nodes@, visited@) == vs0,
                table.nodes@.len() >= n0,
                visited0.len() == n0,
                forall|w: int| 0 <= w < n0 ==> #[trigger] visited@[w] == visited0[w],
                forall|w: int| n0 <= w < table.nodes@.len() ==> !#[trigger] visited@[w],
                i <= es@.len(),
                expanded_closed(g, table.nodes@, visited@, two_weeks_ago, candidates@, *my_pubkey, exclude_peers@, amount_msat, excepts@, liquidity@),
                unqueued_pruned(score@, visited@, queued@, maxhops, u as int),
                forall|j: int| 0 <= j < i ==> in_table(table.nodes@, #[trigger] es@[j].1.destination)
                    || table.nodes@.len() >= usize::MAX - 1,
                scores_follow(score@, pred@, *my_pubkey, amount_msat),
                scores_closed(g, table.nodes@, score@, visited@, two_weeks_ago, candidates@, *my_pubkey, exclude_peers@, amount_msat, excepts@, liquidity@),
                scores_ordered(score@, visited@, queued@),
                forall|v: int| 0 <= v < table.nodes@.len() && #[trigger] visited@[v] ==> score@[v].score <= node_score,
                forall|w: int| 0 <= w < table.nodes@.len() && !visited@[w] && #[trigger] queued@[w] && w != u ==> node_score <= score@[w].score,
                relaxed_upto(table.nodes@, score@, visited@, u as int, node_score, es@, i as int, *my_pubkey, amount_msat),
                forall|w: int| 0 <= w < table.nodes@.len() && #[trigger] table.nodes@[w] == *goal ==> queued@[w] && !visited@[w],
                u == 0 || node_key != *my_pubkey,
                u == 0 ==> forall|v: int| 0 <= v < table.nodes@.len() ==> !#[trigger] visited@[v],
                score@[0].score == 0,
                u != 0 ==> visited@[0],
            decreases es@.len() - i,
        {
            let (sd, st) = es[i];
            proof {
                assert(g.contains_key(es@[i as int].0));
                lemma_sound_lens(g, table.nodes@, score@, pred@, visited@, u as int, *start, maxhops, two_weeks_ago, candidates@, *my_pubkey, exclude_peers@, amount_msat, excepts@, liquidity@);
            }
            let ghost n1 = table.nodes@.len();
            let ghost visited1 = visited@;
            let ghost t_n = table.nodes@;
            let ghost t_s = score@;
            let ghost t_p = pred@;
            let ghost t_q = queued@;
            proof {
                lemma_sound_preds(g, table.nodes@, score@, pred@, visited@, u as int, *start, maxhops, two_weeks_ago, candidates@, *my_pubkey, exclude_peers@, amount_msat, excepts@, liquidity@);
                reveal(NodeTable::wf);
                assert forall|a: int, b: int| 0 <= a < b < t_n.len() implies #[trigger] t_n[a] != #[trigger] t_n[b] by {
                    assert(table.distinct());
                }
                assert((sd, st) == es@[i as int]);
                if u != 0 {
                    lemma_step_grows(st, node_score, *my_pubkey, amount_msat);
                }
            }
            relax(
                &mut table,
                &mut score,
                &mut pred,
                &mut visited,
                &mut queued,
                u,
                hops_u,
                node_score,
                sd,
                st,
                Ghost(g),
                Ghost(*start),
                maxhops,
                two_weeks_ago,
                candidates,
                my_pubkey,
                exclude_peers,
                amount_msat,
                excepts,
                liquidity,
            );
            proof {
                lemma_relax_keeps(
                    t_n, t_s, t_p, visited1, t_q,
                    table.nodes@, score@, pred@, visited@, queued@,
                    u, relaxed_node(sd, st, hops_u, node_score, *my_pubkey, amount_msat),
                    g, maxhops, two_weeks_ago, candidates@, *my_pubkey, exclude_peers@, amount_msat, excepts@, liquidity@,
                );
                lemma_relax_follows(
                    t_n, t_s, t_p, visited1, t_q,
                    table.nodes@, score@, pred@, visited@, queued@,
                    u, sd, st, hops_u, *my_pubkey, amount_msat,
                );
                reveal(NodeTable::wf);
                assert forall|a: int, b: int| 0 <= a < b < table.nodes@.len() implies #[trigger] table.nodes@[a] != #[trigger] table.nodes@[b] by {
                    assert(table.distinct());
                }
                lemma_relax_order(
                    t_n, t_s, t_p, visited1, t_q,
                    table.nodes@, score@, pred@, visited@, queued@,
                    u, hops_u, es@, i as int, g, *goal,
                    two_weeks_ago, candidates@, *my_pubkey, exclude_peers@, amount_msat, excepts@, liquidity@,
                );
                assert forall|j: int| 0 <= j < i + 1 implies in_table(table.nodes@, #[trigger] es@[j].1.destination)
                    || table.nodes@.len() >= usize::MAX - 1 by {
                    if j < i {
                        if in_table(t_n, es@[j].1.destination) {
                            assert(in_table(table.nodes@, es@[j].1.destination));
                        }
                    }
                }
                assert forall|w: int| 0 <= w < n0 implies #[trigger] visited@[w] == visited0[w] by {
                    assert(visited@[w] == visited1[w]);
                }
                assert forall|w: int| n0 <= w < table.nodes@.len() implies !#[trigger] visited@[w] by {
                    if w < n1 {
                        assert(visited@[w] == visited1[w]);
                    }
                }
            }
            i = i + 1;
        }
        let ghost visited2 = visited@;
        proof {
            lemma_sound_lens(g, table.nodes@, score@, pred@, visited@, u as int, *start, maxhops, two_weeks_ago, candidates@, *my_pubkey, exclude_peers@, amount_msat, excepts@, liquidity@);
        }
        visited.set(u, true);
        proof {
            lemma_mark_order(table.nodes@, score@, visited2, queued@, u, es@, g, two_weeks_ago, candidates@, *my_pubkey, exclude_peers@, amount_msat, excepts@, liquidity@);
            lemma_expand_done(g, table.nodes@, visited2, score@, queued@, u, es@, maxhops, two_weeks_ago, candidates@, *my_pubkey, exclude_peers@, amount_msat, excepts@, liquidity@);
            assert(visited@ == visited2.update(u as int, true));
        }
        proof {
            let key_u = table.nodes@[u as int];
            let vs1 = visited_set(table.nodes@, visited2);
            assert(!vs1.contains(key_u)) by {
                if vs1.contains(key_u) {
                    let w = choose|w: int| 0 <= w < table.nodes@.len() && w < visited2.len() && visited2[w] && table.nodes@[w] == key_u;
                    assert(w != u);
                    reveal(NodeTable::wf);
                    assert(table.distinct());
                    assert(table.nodes@[w] != table.nodes@[u as int]);
                }
            }
            assert forall|k: PubKeyBytes| #[trigger] visited_set(table.nodes@, visited@).contains(k) <==> vs1.insert(key_u).contains(k) by {
                if vs1.contains(k) {
                    let w = choose|w: int| 0 <= w < table.nodes@.len() && w < visited2.len() && visited2[w] && table.nodes@[w] == k;
                    assert(visited@[w]);
                }
                if k == key_u {
                    assert(visited@[u as int]);
                }
                if visited_set(table.nodes@, visited@).contains(k) {
                    let w = choose|w: int| 0 <= w < table.nodes@.len() && w < visited@.len() && visited@[w] && table.nodes@[w] == k;
                    if w != u {
                        assert(visited2[w]);
                    }
                }
            }
            assert(visited_set(table.nodes@, visited@) =~= vs1.insert(key_u));
            assert(visited_set(table.nodes@, visited@).subset_of(univ));
            vstd::set_lib::lemma_len_subset(visited_set(table.nodes@, visited@), univ);
            vstd::set_lib::lemma_len_subset(vs1, univ);
            lemma_mark_visited(g, table.nodes@, score@, pred@, visited2, u as int, *start, maxhops, two_weeks_ago, candidates@, *my_pubkey, exclude_peers@, amount_msat, excepts@, liquidity@);
            assert(visited@ == visited2.update(u as int, true));
        }
    }
    (table, score, pred, visited)
}

/// The inputs on which the search owes a route: its two ends differ, the
/// graph has fewer nodes than the search can number, a usable path leads
/// from `start` to `goal`, and no usable path out of `start` is long
/// enough for the hop limit to cut it short.
pub open spec fn route_owed(
    g: Map<ShortChannelIdDir, ShortChannelIdDirState>,
    start: PubKeyBytes,
    goal: PubKeyBytes,
    maxhops: u8,
    two_weeks_ago: u32,
    candidates: Seq<u64>,
    my_pubkey: PubKeyBytes,
    exclude_peers: Seq<PubKeyBytes>,
    amount_msat: u64,
    excepts: Seq<ShortChannelIdDir>,
    liquidity: Map<u128, Liquidity>,
) -> bool {
    &&& start != goal
    &&& reachable_universe(g, start).len() < usize::MAX - 1
    &&& exists|p: Seq<DijkstraNode>|
        #[trigger] path_valid(g, p, start, goal, two_weeks_ago, candidates, my_pubkey, exclude_peers, amount_msat, excepts, liquidity)
    &&& forall|q: Seq<DijkstraNode>, t: PubKeyBytes|
        #[trigger] path_valid(g, q, start, t, two_weeks_ago, candidates, my_pubkey, exclude_peers, amount_msat, excepts, liquidity)
            ==> q.len() + 2 <= maxhops
}

/// A finished search on which a route is owed has met its goal.
#[verifier::spinoff_prover]
#[verifier::rlimit(50)]
proof fn lemma_owed_found(
    g: Map<ShortChannelIdDir, ShortChannelIdDirState>,
    nodes: Seq<PubKeyBytes>,
    score: Seq<DijkstraNode>,
    pred: Seq<usize>,
    visited: Seq<bool>,
    start: PubKeyBytes,
    goal: PubKeyBytes,
    maxhops: u8,
    two_weeks_ago: u32,
    candidates: Seq<u64>,
    my_pubkey: PubKeyBytes,
    exclude_peers: Seq<PubKeyBytes>,
    amount_msat: u64,
    excepts: Seq<ShortChannelIdDir>,
    liquidity: Map<u128, Liquidity>,
)
    requires
        tables_sound(g, nodes, score, pred, visited, -1, start, maxhops, two_weeks_ago, candidates, my_pubkey, exclude_peers, amount_msat, excepts, liquidity),
        forall|i: int, j: int| 0 <= i < j < nodes.len() ==> #[trigger] nodes[i] != #[trigger] nodes[j],
        reachable_universe(g, start).finite(),
        forall|w: int| 0 <= w < nodes.len() ==> reachable_universe(g, start).contains(#[trigger] nodes[w]),
        expanded_closed(g, nodes, visited, two_weeks_ago, candidates, my_pubkey, exclude_peers, amount_msat, excepts, liquidity),
        in_table(nodes, goal) || forall|v: int|
            0 <= v < nodes.len() ==> #[trigger] visited[v] || score[v].hops + 2 > maxhops,
        route_owed(g, start, goal, maxhops, two_weeks_ago, candidates, my_pubkey, exclude_peers, amount_msat, excepts, liquidity),
    ensures
        in_table(nodes, goal),
{
    if !in_table(nodes, goal) {
        lemma_sound_lens(g, nodes, score, pred, visited, -1, start, maxhops, two_weeks_ago, candidates, my_pubkey, exclude_peers, amount_msat, excepts, liquidity);
        let p = choose|p: Seq<DijkstraNode>|
            #[trigger] path_valid(g, p, start, goal, two_weeks_ago, candidates, my_pubkey, exclude_peers, amount_msat, excepts, liquidity);
        assert(p.len() + 2 <= maxhops);
        assert forall|v: int| 0 <= v < nodes.len() implies #[trigger] visited[v] by {
            if v == 0 {
                reveal(tables_sound);
                assert(score[0].hops + 2 <= maxhops);
            } else {
                let (q, iq) = lemma_chain_path(g, nodes, score, pred, visited, start, maxhops, two_weeks_ago, candidates, my_pubkey, exclude_peers, amount_msat, excepts, liquidity, v);
                assert(path_valid(g, q, start, nodes[v], two_weeks_ago, candidates, my_pubkey, exclude_peers, amount_msat, excepts, liquidity));
                assert(q.len() + 2 <= maxhops);
            }
        }
        lemma_table_small(g, nodes, start);
        lemma_reach(g, nodes, visited, p, start, goal, two_weeks_ago, candidates, my_pubkey, exclude_peers, amount_msat, excepts, liquidity, 0);
    }
}

/// Whether a visited node of the table has key `k`.
spec fn visited_key(nodes: Seq<PubKeyBytes>, visited: Seq<bool>, k: PubKeyBytes) -> bool {
    exists|v: int| 0 <= v < nodes.len() && visited[v] && nodes[v] == k
}

/// A path's score is at least that of any part of it that reaches its
/// start, where none of the hops left out leaves us.
proof fn lemma_suffix_le(q: Seq<DijkstraNode>, my_pubkey: PubKeyBytes, amount_msat: u64, k: int)
    requires
        0 <= k <= q.len(),
        forall|i: int| 0 <= i < k ==> #[trigger] q[i].channel_state.source != my_pubkey,
    ensures
        path_score(q.subrange(k, q.len() as int), my_pubkey, amount_msat) <= path_score(q, my_pubkey, amount_msat),
    decreases k,
{
    if k == 0 {
        assert(q.subrange(0, q.len() as int) =~= q);
    } else {
        lemma_suffix_le(q, my_pubkey, amount_msat, k - 1);
        let a = q.subrange(k - 1, q.len() as int);
        assert(a.subrange(1, a.len() as int) =~= q.subrange(k, q.len() as int));
        assert(a[0] == q[k - 1]);
        lemma_step_grows(q[k - 1].channel_state, path_score(q.subrange(k, q.len() as int), my_pubkey, amount_msat), my_pubkey, amount_msat);
    }
}

/// Along a valid path from the start whose hops after the `k`-th all end
/// at visited nodes, the `k`-th hop ends at a node of the table that
/// scores at most what the path scores up to there.
#[verifier::spinoff_prover]
#[verifier::rlimit(50)]
proof fn lemma_bound(
    g: Map<ShortChannelIdDir, ShortChannelIdDirState>,
    nodes: Seq<PubKeyBytes>,
    score: Seq<DijkstraNode>,
    visited: Seq<bool>,
    q: Seq<DijkstraNode>,
    start: PubKeyBytes,
    t: PubKeyBytes,
    two_weeks_ago: u32,
    candidates: Seq<u64>,
    my_pubkey: PubKeyBytes,
    exclude_peers: Seq<PubKeyBytes>,
    amount_msat: u64,
    excepts: Seq<ShortChannelIdDir>,
    liquidity: Map<u128, Liquidity>,
    k: int,
) -> (w: int)
    requires
        path_valid(g, q, start, t, two_weeks_ago, candidates, my_pubkey, exclude_peers, amount_msat, excepts, liquidity),
        0 <= k < q.len(),
        nodes.len() >= 1,
        nodes[0] == start,
        visited.len() == nodes.len(),
        score.len() == nodes.len(),
        visited[0],
        score[0].score == 0,
        forall|i: int, j: int| 0 <= i < j < nodes.len() ==> #[trigger] nodes[i] != #[trigger] nodes[j],
        expanded_closed(g, nodes, visited, two_weeks_ago, candidates, my_pubkey, exclude_peers, amount_msat, excepts, liquidity),
        nodes.len() < usize::MAX - 1,
        scores_closed(g, nodes, score, visited, two_weeks_ago, candidates, my_pubkey, exclude_peers, amount_msat, excepts, liquidity),
        forall|i: int| k < i < q.len() ==> visited_key(nodes, visited, #[trigger] q[i].destination),
    ensures
        0 < w < nodes.len(),
        nodes[w] == q[k].destination,
        score[w].score <= path_score(q.subrange(k, q.len() as int), my_pubkey, amount_msat),
    decreases q.len() - k,
{
    reveal(hop_in_graph);
    reveal(expanded_closed);
    reveal(scores_closed);
    let rest = q.subrange(k + 1, q.len() as int);
    let v: int = if k == q.len() - 1 {
        assert(rest.len() == 0);
        0
    } else {
        let w1 = lemma_bound(g, nodes, score, visited, q, start, t, two_weeks_ago, candidates, my_pubkey, exclude_peers, amount_msat, excepts, liquidity, k + 1);
        assert(visited_key(nodes, visited, q[k + 1].destination));
        let v1 = choose|v1: int| 0 <= v1 < nodes.len() && visited[v1] && nodes[v1] == q[k + 1].destination;
        if v1 != w1 {
            if v1 < w1 {
                assert(nodes[v1] != nodes[w1]);
            } else {
                assert(nodes[w1] != nodes[v1]);
            }
        }
        assert(q[k].channel_state.source == q[k + 1].destination);
        w1
    };
    assert(visited[v] && nodes[v] == q[k].channel_state.source);
    assert(score[v].score <= path_score(rest, my_pubkey, amount_msat));
    assert(hop_in_graph(g, q[k], two_weeks_ago, candidates, my_pubkey, exclude_peers, amount_msat, excepts, liquidity));
    let d = choose|d: u32| #![trigger g[ShortChannelIdDir { short_channel_id: q[k].short_channel_id, direction: d }]] {
        let sd = ShortChannelIdDir { short_channel_id: q[k].short_channel_id, direction: d };
        &&& g.contains_key(sd)
        &&& g[sd] == q[k].channel_state
        &&& edge_usable(sd, g[sd], two_weeks_ago, candidates, my_pubkey, exclude_peers, amount_msat, excepts, liquidity)
    };
    let sd = ShortChannelIdDir { short_channel_id: q[k].short_channel_id, direction: d };
    assert(in_table(nodes, g[sd].destination));
    let w = choose|w: int| 0 <= w < nodes.len() && nodes[w] == g[sd].destination;
    assert(q[k].destination != start);
    assert(w != 0);
    assert(score[w].score <= step_score(g[sd], score[v].score, my_pubkey, amount_msat));
    lemma_step_mono(g[sd], score[v].score, path_score(rest, my_pubkey, amount_msat), my_pubkey, amount_msat);
    let a = q.subrange(k, q.len() as int);
    assert(a.subrange(1, a.len() as int) =~= rest);
    assert(a[0] == q[k]);
    w
}

/// No valid path to the goal that the hop limit did not cut scores less
/// than the goal's node in the finished tables.
#[verifier::spinoff_prover]
#[verifier::rlimit(50)]
proof fn lemma_found_cheapest(
    g: Map<ShortChannelIdDir, ShortChannelIdDirState>,
    nodes: Seq<PubKeyBytes>,
    score: Seq<DijkstraNode>,
    pred: Seq<usize>,
    visited: Seq<bool>,
    start: PubKeyBytes,
    goal: PubKeyBytes,
    gi: int,
    maxhops: u8,
    two_weeks_ago: u32,
    candidates: Seq<u64>,
    my_pubkey: PubKeyBytes,
    exclude_peers: Seq<PubKeyBytes>,
    amount_msat: u64,
    excepts: Seq<ShortChannelIdDir>,
    liquidity: Map<u128, Liquidity>,
    q: Seq<DijkstraNode>,
    k: int,
)
    requires
        tables_sound(g, nodes, score, pred, visited, -1, start, maxhops, two_weeks_ago, candidates, my_pubkey, exclude_peers, amount_msat, excepts, liquidity),
        forall|i: int, j: int| 0 <= i < j < nodes.len() ==> #[trigger] nodes[i] != #[trigger] nodes[j],
        expanded_closed(g, nodes, visited, two_weeks_ago, candidates, my_pubkey, exclude_peers, amount_msat, excepts, liquidity),
        nodes.len() < usize::MAX - 1,
        scores_closed(g, nodes, score, visited, two_weeks_ago, candidates, my_pubkey, exclude_peers, amount_msat, excepts, liquidity),
        visited[0],
        score[0].score == 0,
        0 < gi < nodes.len(),
        nodes[gi] == goal,
        !visited[gi],
        forall|w: int| 0 <= w < nodes.len() && !#[trigger] visited[w] && w != gi ==> score[w].hops + 2 > maxhops || score[gi].score <= score[w].score,
        forall|k2: int, w: int|
            0 <= k2 < q.len() && 0 < w < nodes.len() && nodes[w] == #[trigger] q[k2].destination && !#[trigger] visited[w] && w != gi
                ==> score[w].hops + 2 <= maxhops,
        start == my_pubkey || goal == my_pubkey,
        path_valid(g, q, start, goal, two_weeks_ago, candidates, my_pubkey, exclude_peers, amount_msat, excepts, liquidity),
        0 <= k < q.len(),
        forall|i: int| k < i < q.len() ==> visited_key(nodes, visited, #[trigger] q[i].destination),
    ensures
        score[gi].score <= path_score(q, my_pubkey, amount_msat),
    decreases k,
{
    lemma_sound_lens(g, nodes, score, pred, visited, -1, start, maxhops, two_weeks_ago, candidates, my_pubkey, exclude_peers, amount_msat, excepts, liquidity);
    if visited_key(nodes, visited, q[k].destination) {
        let v = choose|v: int| 0 <= v < nodes.len() && visited[v] && nodes[v] == q[k].destination;
        if k == 0 {
            assert(q[0].destination == goal);
            if v < gi {
                assert(nodes[v] != nodes[gi]);
            } else if v > gi {
                assert(nodes[gi] != nodes[v]);
            }
            assert(false);
        }
        lemma_found_cheapest(g, nodes, score, pred, visited, start, goal, gi, maxhops, two_weeks_ago, candidates, my_pubkey, exclude_peers, amount_msat, excepts, liquidity, q, k - 1);
    } else {
        let w = lemma_bound(g, nodes, score, visited, q, start, goal, two_weeks_ago, candidates, my_pubkey, exclude_peers, amount_msat, excepts, liquidity, k);
        assert(!visited[w]);
        assert forall|i: int| 0 <= i < k implies #[trigger] q[i].channel_state.source != my_pubkey by {
            assert(q[i].channel_state.source == q[i + 1].destination);
            if start == my_pubkey {
                assert(q[i + 1].destination != start);
            } else {
                assert(q[0].destination == goal);
                assert(q[0].destination != q[i + 1].destination);
            }
        }
        lemma_suffix_le(q, my_pubkey, amount_msat, k);
        if w == gi {
            if k != 0 {
                assert(q[0].destination != q[k].destination);
            }
            assert(q.subrange(0, q.len() as int) =~= q);
        } else {
            assert(nodes[w] == q[k].destination && !visited[w]);
            assert(score[w].hops + 2 <= maxhops);
            assert(score[gi].score <= score[w].score);
        }
    }
}

/// A table of distinct nodes of a graph small enough to owe a route is not
/// full.
proof fn lemma_table_small(g: Map<ShortChannelIdDir, ShortChannelIdDirState>, nodes: Seq<PubKeyBytes>, start: PubKeyBytes)
    requires
        reachable_universe(g, start).finite(),
        reachable_universe(g, start).len() < usize::MAX - 1,
        forall|i: int, j: int| 0 <= i < j < nodes.len() ==> #[trigger] nodes[i] != #[trigger] nodes[j],
        forall|w: int| 0 <= w < nodes.len() ==> reachable_universe(g, start).contains(#[trigger] nodes[w]),
    ensures
        nodes.len() < usize::MAX - 1,
{
    let univ = reachable_universe(g, start);
    assert(nodes.no_duplicates()) by {
        assert forall|i: int, j: int| 0 <= i < nodes.len() && 0 <= j < nodes.len() && i != j implies nodes[i] != nodes[j] by {
            if i < j {
                assert(nodes[i] != nodes[j]);
            } else {
                assert(nodes[j] != nodes[i]);
            }
        }
    }
    nodes.unique_seq_to_set();
    assert(nodes.to_set().subset_of(univ)) by {
        assert forall|k: PubKeyBytes| nodes.to_set().contains(k) implies univ.contains(k) by {
            let w = choose|w: int| 0 <= w < nodes.len() && nodes[w] == k;
            assert(univ.contains(nodes[w]));
        }
    }
    vstd::set_lib::lemma_len_subset(nodes.to_set(), univ);
}

/// Two weeks before `now_secs`, as the search's oldest accepted update
/// time: the difference wraps below zero, and is cut to 32 bits.
pub open spec fn two_weeks_before(now_secs: u64) -> u32 {
    now_secs.wrapping_sub(1_209_600) as u32
}

/// The tables of a finished search from `start` that did not meet `goal`,
/// whatever the order in which it took nodes of equal score: nodes
/// numbered without repeats, each but the start reached over a usable
/// channel from a visited node (`tables_sound`), with the score that
/// channel adds (`scores_follow`); every usable channel out of a visited
/// node ends in the table (`expanded_closed`) at a node scoring no more
/// than the channel adds (`scores_closed`); the goal is not in the table,
/// and every node left unvisited has no room for another hop.
pub open spec fn settled_without_goal(
    g: Map<ShortChannelIdDir, ShortChannelIdDirState>,
    start: PubKeyBytes,
    goal: PubKeyBytes,
    maxhops: u8,
    two_weeks_ago: u32,
    candidates: Seq<u64>,
    my_pubkey: PubKeyBytes,
    exclude_peers: Seq<PubKeyBytes>,
    amount_msat: u64,
    excepts: Seq<ShortChannelIdDir>,
    liquidity: Map<u128, Liquidity>,
    nodes: Seq<PubKeyBytes>,
    score: Seq<DijkstraNode>,
    pred: Seq<usize>,
    visited: Seq<bool>,
) -> bool {
    &&& tables_sound(g, nodes, score, pred, visited, -1, start, maxhops, two_weeks_ago, candidates, my_pubkey, exclude_peers, amount_msat, excepts, liquidity)
    &&& forall|i: int, j: int| 0 <= i < j < nodes.len() ==> #[trigger] nodes[i] != #[trigger] nodes[j]
    &&& forall|w: int| 0 <= w < nodes.len() ==> reachable_universe(g, start).contains(#[trigger] nodes[w])
    &&& scores_follow(score, pred, my_pubkey, amount_msat)
    &&& expanded_closed(g, nodes, visited, two_weeks_ago, candidates, my_pubkey, exclude_peers, amount_msat, excepts, liquidity)
    &&& scores_closed(g, nodes, score, visited, two_weeks_ago, candidates, my_pubkey, exclude_peers, amount_msat, excepts, liquidity)
    &&& !in_table(nodes, goal)
    &&& forall|v: int| 0 <= v < nodes.len() ==> #[trigger] visited[v] || score[v].hops + 2 > maxhops
}

/// Walking a valid path from the start over visited nodes of settled
/// tables that lack the goal, some hop ends at a node the search reached
/// but left unvisited for want of room.
proof fn lemma_cut_from(
    g: Map<ShortChannelIdDir, ShortChannelIdDirState>,
    start: PubKeyBytes,
    goal: PubKeyBytes,
    maxhops: u8,
    two_weeks_ago: u32,
    candidates: Seq<u64>,
    my_pubkey: PubKeyBytes,
    exclude_peers: Seq<PubKeyBytes>,
    amount_msat: u64,
    excepts: Seq<ShortChannelIdDir>,
    liquidity: Map<u128, Liquidity>,
    nodes: Seq<PubKeyBytes>,
    score: Seq<DijkstraNode>,
    pred: Seq<usize>,
    visited: Seq<bool>,
    q: Seq<DijkstraNode>,
    k: int,
)
    requires
        settled_without_goal(g, start, goal, maxhops, two_weeks_ago, candidates, my_pubkey, exclude_peers, amount_msat, excepts, liquidity, nodes, score, pred, visited),
        path_valid(g, q, start, goal, two_weeks_ago, candidates, my_pubkey, exclude_peers, amount_msat, excepts, liquidity),
        nodes.len() < usize::MAX - 1,
        visited[0],
        0 <= k < q.len(),
        forall|i: int| k < i < q.len() ==> visited_key(nodes, visited, #[trigger] q[i].destination),
    ensures
        exists|k2: int, w: int|
            0 <= k2 < q.len() && 0 < w < nodes.len() && nodes[w] == #[trigger] q[k2].destination && !#[trigger] visited[w]
                && score[w].hops + 2 > maxhops,
    decreases k,
{
    reveal(hop_in_graph);
    reveal(expanded_closed);
    lemma_sound_lens(g, nodes, score, pred, visited, -1, start, maxhops, two_weeks_ago, candidates, my_pubkey, exclude_peers, amount_msat, excepts, liquidity);
    let v: int = if k == q.len() - 1 {
        0
    } else {
        assert(visited_key(nodes, visited, q[k + 1].destination));
        let v1 = choose|v1: int| 0 <= v1 < nodes.len() && visited[v1] && nodes[v1] == q[k + 1].destination;
        assert(q[k].channel_state.source == q[k + 1].destination);
        v1
    };
    assert(visited[v] && nodes[v] == q[k].channel_state.source);
    assert(hop_in_graph(g, q[k], two_weeks_ago, candidates, my_pubkey, exclude_peers, amount_msat, excepts, liquidity));
    let d = choose|d: u32| #![trigger g[ShortChannelIdDir { short_channel_id: q[k].short_channel_id, direction: d }]] {
        let sd = ShortChannelIdDir { short_channel_id: q[k].short_channel_id, direction: d };
        &&& g.contains_key(sd)
        &&& g[sd] == q[k].channel_state
        &&& edge_usable(sd, g[sd], two_weeks_ago, candidates, my_pubkey, exclude_peers, amount_msat, excepts, liquidity)
    };
    let sd = ShortChannelIdDir { short_channel_id: q[k].short_channel_id, direction: d };
    assert(in_table(nodes, g[sd].destination));
    let w = choose|w: int| 0 <= w < nodes.len() && nodes[w] == g[sd].destination;
    assert(q[k].destination != start);
    assert(w != 0);
    if visited[w] {
        if k == 0 {
            assert(q[0].destination == goal);
            assert(in_table(nodes, goal));
        }
        assert(visited_key(nodes, visited, q[k].destination));
        lemma_cut_from(g, start, goal, maxhops, two_weeks_ago, candidates, my_pubkey, exclude_peers, amount_msat, excepts, liquidity, nodes, score, pred, visited, q, k - 1);
    } else {
        assert(score[w].hops + 2 > maxhops);
        assert(nodes[w] == q[k].destination && !visited[w]);
    }
}

/// Settled tables that lack the goal leave it out only for want of room:
/// every valid path from the start to the goal passes a node that the
/// search reached but could not go on from within the hop limit (or the
/// limit leaves no room for a hop at all).
pub proof fn law_missed_goal_is_cut(
    g: Map<ShortChannelIdDir, ShortChannelIdDirState>,
    start: PubKeyBytes,
    goal: PubKeyBytes,
    maxhops: u8,
    two_weeks_ago: u32,
    candidates: Seq<u64>,
    my_pubkey: PubKeyBytes,
    exclude_peers: Seq<PubKeyBytes>,
    amount_msat: u64,
    excepts: Seq<ShortChannelIdDir>,
    liquidity: Map<u128, Liquidity>,
    nodes: Seq<PubKeyBytes>,
    score: Seq<DijkstraNode>,
    pred: Seq<usize>,
    visited: Seq<bool>,
    q: Seq<DijkstraNode>,
)
    requires
        settled_without_goal(g, start, goal, maxhops, two_weeks_ago, candidates, my_pubkey, exclude_peers, amount_msat, excepts, liquidity, nodes, score, pred, visited),
        path_valid(g, q, start, goal, two_weeks_ago, candidates, my_pubkey, exclude_peers, amount_msat, excepts, liquidity),
        g.dom().finite(),
        reachable_universe(g, start).len() < usize::MAX - 1,
    ensures
        maxhops < 2 || exists|k: int, w: int|
            0 <= k < q.len() && 0 < w < nodes.len() && nodes[w] == #[trigger] q[k].destination && !#[trigger] visited[w]
                && score[w].hops + 2 > maxhops,
{
    if maxhops >= 2 {
        lemma_sound_lens(g, nodes, score, pred, visited, -1, start, maxhops, two_weeks_ago, candidates, my_pubkey, exclude_peers, amount_msat, excepts, liquidity);
        reveal(tables_sound);
        assert(visited[0] || score[0].hops + 2 > maxhops);
        g.dom().lemma_map_finite(|sd: ShortChannelIdDir| g[sd].destination);
        lemma_table_small(g, nodes, start);
        lemma_cut_from(g, start, goal, maxhops, two_weeks_ago, candidates, my_pubkey, exclude_peers, amount_msat, excepts, liquidity, nodes, score, pred, visited, q, q.len() - 1);
    }
}

/// The tables of a search from `start` that stopped on meeting `goal` at
/// node `gi`, whatever the order in which it took nodes of equal score: as
/// in `settled_without_goal`, but the goal is in the table, unvisited, and
/// scores no more than any other unvisited node that still had room for a
/// hop; the start is visited.
pub open spec fn settled_at_goal(
    g: Map<ShortChannelIdDir, ShortChannelIdDirState>,
    start: PubKeyBytes,
    goal: PubKeyBytes,
    maxhops: u8,
    two_weeks_ago: u32,
    candidates: Seq<u64>,
    my_pubkey: PubKeyBytes,
    exclude_peers: Seq<PubKeyBytes>,
    amount_msat: u64,
    excepts: Seq<ShortChannelIdDir>,
    liquidity: Map<u128, Liquidity>,
    nodes: Seq<PubKeyBytes>,
    score: Seq<DijkstraNode>,
    pred: Seq<usize>,
    visited: Seq<bool>,
    gi: int,
) -> bool {
    &&& tables_sound(g, nodes, score, pred, visited, -1, start, maxhops, two_weeks_ago, candidates, my_pubkey, exclude_peers, amount_msat, excepts, liquidity)
    &&& forall|i: int, j: int| 0 <= i < j < nodes.len() ==> #[trigger] nodes[i] != #[trigger] nodes[j]
    &&& forall|w: int| 0 <= w < nodes.len() ==> reachable_universe(g, start).contains(#[trigger] nodes[w])
    &&& scores_follow(score, pred, my_pubkey, amount_msat)
    &&& expanded_closed(g, nodes, visited, two_weeks_ago, candidates, my_pubkey, exclude_peers, amount_msat, excepts, liquidity)
    &&& scores_closed(g, nodes, score, visited, two_weeks_ago, candidates, my_pubkey, exclude_peers, amount_msat, excepts, liquidity)
    &&& 0 < gi < nodes.len()
    &&& nodes[gi] == goal
    &&& !visited[gi]
    &&& visited[0]
    &&& forall|w: int|
        0 <= w < nodes.len() && !#[trigger] visited[w] && w != gi ==> score[w].hops + 2 > maxhops || score[gi].score <= score[w].score
}

/// The goal's score in tables settled at the goal is no more than the score
/// of any valid path to it that the hop limit did not cut: no node of the
/// path that the search met but left unvisited (other than the goal) was
/// short of room.
pub proof fn law_route_cheapest_uncut(
    g: Map<ShortChannelIdDir, ShortChannelIdDirState>,
    start: PubKeyBytes,
    goal: PubKeyBytes,
    maxhops: u8,
    two_weeks_ago: u32,
    candidates: Seq<u64>,
    my_pubkey: PubKeyBytes,
    exclude_peers: Seq<PubKeyBytes>,
    amount_msat: u64,
    excepts: Seq<ShortChannelIdDir>,
    liquidity: Map<u128, Liquidity>,
    nodes: Seq<PubKeyBytes>,
    score: Seq<DijkstraNode>,
    pred: Seq<usize>,
    visited: Seq<bool>,
    gi: int,
    q: Seq<DijkstraNode>,
)
    requires
        settled_at_goal(g, start, goal, maxhops, two_weeks_ago, candidates, my_pubkey, exclude_peers, amount_msat, excepts, liquidity, nodes, score, pred, visited, gi),
        path_valid(g, q, start, goal, two_weeks_ago, candidates, my_pubkey, exclude_peers, amount_msat, excepts, liquidity),
        start == my_pubkey || goal == my_pubkey,
        g.dom().finite(),
        reachable_universe(g, start).len() < usize::MAX - 1,
        forall|k: int, w: int|
            0 <= k < q.len() && 0 < w < nodes.len() && nodes[w] == #[trigger] q[k].destination && !#[trigger] visited[w] && w != gi
                ==> score[w].hops + 2 <= maxhops,
    ensures
        score[gi].score <= path_score(q, my_pubkey, amount_msat),
{
    g.dom().lemma_map_finite(|sd: ShortChannelIdDir| g[sd].destination);
    lemma_table_small(g, nodes, start);
    lemma_sound_lens(g, nodes, score, pred, visited, -1, start, maxhops, two_weeks_ago, candidates, my_pubkey, exclude_peers, amount_msat, excepts, liquidity);
    lemma_found_cheapest(g, nodes, score, pred, visited, start, goal, gi, maxhops, two_weeks_ago, candidates, my_pubkey, exclude_peers, amount_msat, excepts, liquidity, q, q.len() - 1);
}

/// What the route search returns: `ChanNotInGraph` when the job's channel
/// is not in the graph; else, when it owes one (`route_owed`), a route that
/// is not empty; a route `v` only along a valid path within the hop limit,
/// which on the inputs of `route_owed` scores no more than any valid path
/// to the goal; and `RouteOverflow` only for such a path whose amounts or
/// delays leave their range.
pub open spec fn dijkstra_result(
    g: Map<ShortChannelIdDir, ShortChannelIdDirState>,
    my_pubkey: PubKeyBytes,
    other_pubkey: PubKeyBytes,
    chan_id: u64,
    sat_direction: SatDirection,
    amount_msat: u64,
    maxhops: u8,
    cltv_delta: u32,
    now_secs: u64,
    actual_candidates: Seq<u64>,
    exclude_peers: Seq<PubKeyBytes>,
    excepts: Seq<ShortChannelIdDir>,
    liquidity: Map<u128, Liquidity>,
    r: Result<Vec<SendpayRoute>, DijkstraError>,
) -> bool {
    match spec_first_node(g, sat_direction, my_pubkey, other_pubkey, chan_id) {
        None => r == Err::<Vec<SendpayRoute>, DijkstraError>(DijkstraError::ChanNotInGraph),
        Some(first) => {
            let (start, goal) = search_ends(sat_direction, my_pubkey, other_pubkey);
            &&& (route_owed(
                g,
                start,
                goal,
                maxhops,
                two_weeks_before(now_secs),
                actual_candidates,
                my_pubkey,
                exclude_peers,
                amount_msat,
                excepts,
                liquidity,
            ) ==> !(r matches Ok(v) && v@.len() == 0))
            &&& ((r matches Ok(v) && v@.len() == 0) ==> start == goal || exists|
                nodes: Seq<PubKeyBytes>,
                score: Seq<DijkstraNode>,
                pred: Seq<usize>,
                visited: Seq<bool>,
            | #[trigger] settled_without_goal(
                g,
                start,
                goal,
                maxhops,
                two_weeks_before(now_secs),
                actual_candidates,
                my_pubkey,
                exclude_peers,
                amount_msat,
                excepts,
                liquidity,
                nodes,
                score,
                pred,
                visited,
            ))
            &&& match r {
                Ok(v) => v@.len() == 0 || route_shape(v@, amount_msat) && exists|p: Seq<DijkstraNode>|
                    {
                        &&& path_valid(
                            g,
                            p,
                            start,
                            goal,
                            two_weeks_before(now_secs),
                            actual_candidates,
                            my_pubkey,
                            exclude_peers,
                            amount_msat,
                            excepts,
                            liquidity,
                        )
                        &&& p.len() + 1 <= maxhops
                        &&& (exists|
                            nodes: Seq<PubKeyBytes>,
                            score: Seq<DijkstraNode>,
                            pred: Seq<usize>,
                            visited: Seq<bool>,
                            gi: int,
                        | #[trigger] settled_at_goal(
                            g,
                            start,
                            goal,
                            maxhops,
                            two_weeks_before(now_secs),
                            actual_candidates,
                            my_pubkey,
                            exclude_peers,
                            amount_msat,
                            excepts,
                            liquidity,
                            nodes,
                            score,
                            pred,
                            visited,
                            gi,
                        ) && path_score(p, my_pubkey, amount_msat) == score[gi].score)
                        &&& (route_owed(
                            g,
                            start,
                            goal,
                            maxhops,
                            two_weeks_before(now_secs),
                            actual_candidates,
                            my_pubkey,
                            exclude_peers,
                            amount_msat,
                            excepts,
                            liquidity,
                        ) ==> forall|q: Seq<DijkstraNode>|
                            #[trigger] path_valid(
                                g,
                                q,
                                start,
                                goal,
                                two_weeks_before(now_secs),
                                actual_candidates,
                                my_pubkey,
                                exclude_peers,
                                amount_msat,
                                excepts,
                                liquidity,
                            ) ==> path_score(p, my_pubkey, amount_msat) <= path_score(q, my_pubkey, amount_msat))
                        &&& spec_route(full_path(sat_direction, p, first), amount_msat, cltv_delta)
                            == Some(v@)
                        &&& ends_distinct(full_path(sat_direction, p, first))
                    },
                Err(e) => e == DijkstraError::RouteOverflow && exists|p: Seq<DijkstraNode>|
                    {
                        &&& path_valid(
                            g,
                            p,
                            start,
                            goal,
                            two_weeks_before(now_secs),
                            actual_candidates,
                            my_pubkey,
                            exclude_peers,
                            amount_msat,
                            excepts,
                            liquidity,
                        )
                        &&& p.len() + 1 <= maxhops
                        &&& spec_route(full_path(sat_direction, p, first), amount_msat, cltv_delta) is None
                    },
            }
        },
    }
}

/// The route of a rebalance on channel `chan_id` with `other_pubkey`: the
/// search from `search_ends` over the channels that `edge_usable` admits
/// (updated within two weeks of `now_secs`), at most `maxhops` hops with the
/// job's channel, and the payment route along the path found. Empty when
/// the search does not reach its goal; on the inputs of `route_owed` never
/// empty, and along a path that scores (`path_score`) no more than any
/// other valid path to the goal.
#[verifier::spinoff_prover]
#[verifier::rlimit(100)]
pub fn dijkstra(
    lngraph: &LnGraph,
    my_pubkey: &PubKeyBytes,
    other_pubkey: &PubKeyBytes,
    chan_id: u64,
    sat_direction: SatDirection,
    amount_msat: u64,
    maxhops: u8,
    cltv_delta: u32,
    now_secs: u64,
    actual_candidates: &[u64],
    exclude_peers: &[PubKeyBytes],
    excepts: &[ShortChannelIdDir],
    liquidity: &HashMap<u128, Liquidity>,
) -> (r: Result<Vec<SendpayRoute>, DijkstraError>)
    requires
        lngraph.wf(),
    ensures
        dijkstra_result(
            lngraph@,
            *my_pubkey,
            *other_pubkey,
            chan_id,
            sat_direction,
            amount_msat,
            maxhops,
            cltv_delta,
            now_secs,
            actual_candidates@,
            exclude_peers@,
            excepts@,
            liquidity@,
            r,
        ),
{
    let two_weeks_ago = now_secs.wrapping_sub(1_209_600) as u32;
    let first = construct_first_node(lngraph, my_pubkey, other_pubkey, chan_id, sat_direction)?;
    let (start, goal) = match sat_direction {
        SatDirection::Pull => (*my_pubkey, *other_pubkey),
        SatDirection::Push => (*other_pubkey, *my_pubkey),
    };
    let (table, score, pred, visited) = search(
        lngraph,
        &start,
        &goal,
        first,
        maxhops,
        two_weeks_ago,
        actual_candidates,
        my_pubkey,
        exclude_peers,
        amount_msat,
        excepts,
        liquidity,
    );
    proof {
        lemma_sound_lens(lngraph@, table.nodes@, score@, pred@, visited@, -1, start, maxhops, two_weeks_ago, actual_candidates@, *my_pubkey, exclude_peers@, amount_msat, excepts@, liquidity@);
        let g = lngraph@;
        if route_owed(g, start, goal, maxhops, two_weeks_ago, actual_candidates@, *my_pubkey, exclude_peers@, amount_msat, excepts@, liquidity@) {
            lngraph.lemma_finite();
            g.dom().lemma_map_finite(|sd: ShortChannelIdDir| g[sd].destination);
            reveal(NodeTable::wf);
            assert forall|i: int, j: int| 0 <= i < j < table.nodes@.len() implies #[trigger] table.nodes@[i] != #[trigger] table.nodes@[j] by {
                assert(table.distinct());
            }
            lemma_owed_found(g, table.nodes@, score@, pred@, visited@, start, goal, maxhops, two_weeks_ago, actual_candidates@, *my_pubkey, exclude_peers@, amount_msat, excepts@, liquidity@);
        }
    }
    match table.find(&goal) {
        Some(gi) => {
            if gi == 0 {
                return Ok(Vec::new());
            }
            proof {
                reveal(NodeTable::wf);
                assert forall|i: int, j: int| 0 <= i < j < table.nodes@.len() implies #[trigger] table.nodes@[i] != #[trigger] table.nodes@[j] by {
                    assert(table.distinct());
                }
            }
            let path = walk_back(
                &table.nodes,
                &score,
                &pred,
                &visited,
                gi,
                Ghost(lngraph@),
                Ghost(start),
                maxhops,
                two_weeks_ago,
                actual_candidates,
                my_pubkey,
                exclude_peers,
                amount_msat,
                excepts,
                liquidity,
            );
            proof {
                lemma_path_score_chain(path@, *my_pubkey, amount_msat);
                assert(settled_at_goal(lngraph@, start, goal, maxhops, two_weeks_before(now_secs), actual_candidates@, *my_pubkey, exclude_peers@, amount_msat, excepts@, liquidity@, table.nodes@, score@, pred@, visited@, gi as int));
                assert(path_score(path@, *my_pubkey, amount_msat) == score@[gi as int].score);
                let g = lngraph@;
                if route_owed(g, start, goal, maxhops, two_weeks_ago, actual_candidates@, *my_pubkey, exclude_peers@, amount_msat, excepts@, liquidity@) {
                    lemma_table_small(g, table.nodes@, start);
                    assert forall|q: Seq<DijkstraNode>|
                        #[trigger] path_valid(g, q, start, goal, two_weeks_ago, actual_candidates@, *my_pubkey, exclude_peers@, amount_msat, excepts@, liquidity@)
                        implies path_score(path@, *my_pubkey, amount_msat) <= path_score(q, *my_pubkey, amount_msat) by {
                        assert forall|k2: int, w: int|
                            0 <= k2 < q.len() && 0 < w < table.nodes@.len() && table.nodes@[w] == #[trigger] q[k2].destination && !#[trigger] visited@[w] && w != gi
                            implies score@[w].hops + 2 <= maxhops by {
                            let (cq, iq) = lemma_chain_path(g, table.nodes@, score@, pred@, visited@, start, maxhops, two_weeks_ago, actual_candidates@, *my_pubkey, exclude_peers@, amount_msat, excepts@, liquidity@, w);
                            assert(path_valid(g, cq, start, table.nodes@[w], two_weeks_ago, actual_candidates@, *my_pubkey, exclude_peers@, amount_msat, excepts@, liquidity@));
                        }
                        lemma_found_cheapest(g, table.nodes@, score@, pred@, visited@, start, goal, gi as int, maxhops, two_weeks_ago, actual_candidates@, *my_pubkey, exclude_peers@, amount_msat, excepts@, liquidity@, q, q.len() - 1);
                    }
                }
            }
            let mut full: Vec<DijkstraNode> = Vec::new();
            match sat_direction {
                SatDirection::Pull => {
                    full.push(first);
                    let mut i: usize = 0;
                    while i < path.len()
                        invariant
                            i <= path@.len(),
                            full@ == seq![first] + path@.subrange(0, i as int),
                        decreases path@.len() - i,
                    {
                        full.push(path[i]);
                        proof {
                            assert(path@.subrange(0, i + 1) =~= path@.subrange(0, i as int).push(path@[i as int]));
                            assert(seq![first] + path@.subrange(0, i + 1) =~= (seq![first] + path@.subrange(0, i as int)).push(path@[i as int]));
                        }
                        i = i + 1;
                    }
                    proof {
                        assert(path@.subrange(0, path@.len() as int) =~= path@);
                    }
                },
                SatDirection::Push => {
                    let mut i: usize = 0;
                    while i < path.len()
                        invariant
                            i <= path@.len(),
                            full@ == path@.subrange(0, i as int),
                        decreases path@.len() - i,
                    {
                        full.push(path[i]);
                        proof {
                            assert(path@.subrange(0, i + 1) =~= path@.subrange(0, i as int).push(path@[i as int]));
                        }
                        i = i + 1;
                    }
                    proof {
                        assert(path@.subrange(0, path@.len() as int) =~= path@);
                    }
                    full.push(first);
                },
            }
            proof {
                assert(full@ == full_path(sat_direction, path@, first));
                assert(table.nodes@[gi as int] == goal);
                assert(two_weeks_ago == two_weeks_before(now_secs));
                assert(spec_first_node(lngraph@, sat_direction, *my_pubkey, *other_pubkey, chan_id) == Some(first));
                assert(search_ends(sat_direction, *my_pubkey, *other_pubkey) == (start, goal));
                assert(path_valid(lngraph@, path@, start, goal, two_weeks_before(now_secs), actual_candidates@, *my_pubkey, exclude_peers@, amount_msat, excepts@, liquidity@));
            }
            proof {
                let fp = full@;
                assert forall|i: int, j: int| #![trigger fp[i], fp[j]] 0 <= i < j < fp.len() implies fp[i].destination != fp[j].destination by {
                    match sat_direction {
                        SatDirection::Pull => {
                            if i == 0 {
                                assert(fp[j] == path@[j - 1]);
                                assert(path@[j - 1].destination != start);
                            } else {
                                assert(fp[i] == path@[i - 1] && fp[j] == path@[j - 1]);
                            }
                        },
                        SatDirection::Push => {
                            if j == fp.len() - 1 {
                                assert(fp[i] == path@[i]);
                                assert(path@[i].destination != start);
                            } else {
                                assert(fp[i] == path@[i] && fp[j] == path@[j]);
                            }
                        },
                    }
                }
                if spec_route(fp, amount_msat, cltv_delta) is Some {
                    lemma_route_shape(fp, amount_msat, cltv_delta);
                }
            }
            match route_from_path(&full, amount_msat, cltv_delta) {
                Some(v) => Ok(v),
                None => Err(DijkstraError::RouteOverflow),
            }
        },
        None => {
            proof {
                reveal(NodeTable::wf);
                assert forall|i: int, j: int| 0 <= i < j < table.nodes@.len() implies #[trigger] table.nodes@[i] != #[trigger] table.nodes@[j] by {
                    assert(table.distinct());
                }
                assert(!in_table(table.nodes@, goal));
                assert(settled_without_goal(lngraph@, start, goal, maxhops, two_weeks_before(now_secs), actual_candidates@, *my_pubkey, exclude_peers@, amount_msat, excepts@, liquidity@, table.nodes@, score@, pred@, visited@));
            }
            Ok(Vec::new())
        },
    }
}

} // verus!
