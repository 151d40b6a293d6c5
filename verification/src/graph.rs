//! The channel graph that the gossip store is read into: one state per
//! directed channel, channels that still lack an announcement or an update,
//! and the index of channels by the node they leave.
use crate::model::{
    bytes_lt, contains_key_bytes, contains_scid, contains_scid_dir, lemma_scid_dir_key_injective, node_index_key,
    scid_dir_from_key, scid_dir_key,
    spec_node_index_key, spec_scid_dir_key,
    ChannelAnnouncement, ChannelUpdate, Liquidity, PubKeyBytes, ShortChannelIdDir,
};
use std::collections::HashMap;
use vstd::prelude::*;

verus! {

broadcast use vstd::std_specs::hash::group_hash_axioms;

/// What the graph knows of one direction of a channel.
#[derive(Debug, Clone, Copy)]
pub struct ShortChannelIdDirState {
    pub source: PubKeyBytes,
    pub destination: PubKeyBytes,
    pub active: bool,
    pub scid_alias: Option<u64>,
    pub fee_per_millionth: u32,
    pub base_fee_millisatoshi: u32,
    pub htlc_maximum_msat: u64,
    pub htlc_minimum_msat: u64,
    pub delay: u32,
    pub last_update: u32,
    pub private: bool,
}

/// The state after a `channel_update`: the update's fields replace the
/// channel's, its nodes, alias and privacy stay.
pub open spec fn spec_updated(s: ShortChannelIdDirState, u: ChannelUpdate) -> ShortChannelIdDirState {
    ShortChannelIdDirState {
        active: u.active,
        last_update: u.last_update,
        base_fee_millisatoshi: u.base_fee_millisatoshi,
        fee_per_millionth: u.fee_per_millionth,
        delay: u.delay,
        htlc_minimum_msat: u.htlc_minimum_msat,
        htlc_maximum_msat: u.htlc_maximum_msat,
        ..s
    }
}

/// A `channel_update` sets every field it carries (active flag, time of
/// update, base fee, proportional fee, delay, HTLC minimum and maximum) to
/// its own value, and leaves the channel's nodes, alias and privacy as they
/// were.
pub proof fn law_update_takes_fields(s: ShortChannelIdDirState, u: ChannelUpdate)
    ensures
        spec_updated(s, u).active == u.active,
        spec_updated(s, u).last_update == u.last_update,
        spec_updated(s, u).base_fee_millisatoshi == u.base_fee_millisatoshi,
        spec_updated(s, u).fee_per_millionth == u.fee_per_millionth,
        spec_updated(s, u).delay == u.delay,
        spec_updated(s, u).htlc_minimum_msat == u.htlc_minimum_msat,
        spec_updated(s, u).htlc_maximum_msat == u.htlc_maximum_msat,
        spec_updated(s, u).source == s.source,
        spec_updated(s, u).destination == s.destination,
        spec_updated(s, u).scid_alias == s.scid_alias,
        spec_updated(s, u).private == s.private,
{
}

impl ShortChannelIdDirState {
    /// Takes the fields of a `channel_update`.
    pub fn update(&mut self, channel_update: ChannelUpdate)
        ensures
            *final(self) == spec_updated(*old(self), channel_update),
            final(self).active == channel_update.active,
            final(self).last_update == channel_update.last_update,
            final(self).base_fee_millisatoshi == channel_update.base_fee_millisatoshi,
            final(self).fee_per_millionth == channel_update.fee_per_millionth,
            final(self).delay == channel_update.delay,
            final(self).htlc_minimum_msat == channel_update.htlc_minimum_msat,
            final(self).htlc_maximum_msat == channel_update.htlc_maximum_msat,
            final(self).source == old(self).source,
            final(self).destination == old(self).destination,
            final(self).scid_alias == old(self).scid_alias,
            final(self).private == old(self).private,
    {
        self.active = channel_update.active;
        self.last_update = channel_update.last_update;
        self.base_fee_millisatoshi = channel_update.base_fee_millisatoshi;
        self.fee_per_millionth = channel_update.fee_per_millionth;
        self.delay = channel_update.delay;
        self.htlc_minimum_msat = channel_update.htlc_minimum_msat;
        self.htlc_maximum_msat = channel_update.htlc_maximum_msat;
    }
}

/// A directed channel as far as the gossip has described it: the
/// announcement gives its nodes, an update the rest.
#[derive(Debug, Clone, Copy)]
pub struct ShortChannelIdDirStateBuilder {
    pub source: Option<PubKeyBytes>,
    pub destination: Option<PubKeyBytes>,
    pub active: Option<bool>,
    pub scid_alias: Option<u64>,
    pub fee_per_millionth: Option<u32>,
    pub base_fee_millisatoshi: Option<u32>,
    pub htlc_maximum_msat: Option<u64>,
    pub htlc_minimum_msat: Option<u64>,
    pub delay: Option<u32>,
    pub last_update: Option<u32>,
    pub private: Option<bool>,
}

/// What `build` gives: the finished state, or the builder back.
#[derive(Debug)]
pub enum BuildResult {
    Success(ShortChannelIdDirState),
    Failure(ShortChannelIdDirStateBuilder),
}

/// The state a builder finishes to, if every field that a state needs is set.
pub open spec fn spec_build(b: ShortChannelIdDirStateBuilder) -> Option<ShortChannelIdDirState> {
    if b.htlc_maximum_msat is Some && b.source is Some && b.destination is Some && b.active is Some
        && b.fee_per_millionth is Some && b.base_fee_millisatoshi is Some
        && b.htlc_minimum_msat is Some && b.delay is Some && b.last_update is Some {
        Some(
            ShortChannelIdDirState {
                source: b.source->0,
                destination: b.destination->0,
                active: b.active->0,
                scid_alias: b.scid_alias,
                fee_per_millionth: b.fee_per_millionth->0,
                base_fee_millisatoshi: b.base_fee_millisatoshi->0,
                htlc_maximum_msat: b.htlc_maximum_msat->0,
                htlc_minimum_msat: b.htlc_minimum_msat->0,
                delay: b.delay->0,
                last_update: b.last_update->0,
                private: match b.private {
                    Some(p) => p,
                    None => false,
                },
            },
        )
    } else {
        None
    }
}

/// A builder after a `channel_update`.
pub open spec fn spec_add_update(
    b: ShortChannelIdDirStateBuilder,
    u: ChannelUpdate,
) -> ShortChannelIdDirStateBuilder {
    ShortChannelIdDirStateBuilder {
        active: Some(u.active),
        last_update: Some(u.last_update),
        base_fee_millisatoshi: Some(u.base_fee_millisatoshi),
        fee_per_millionth: Some(u.fee_per_millionth),
        delay: Some(u.delay),
        htlc_minimum_msat: Some(u.htlc_minimum_msat),
        htlc_maximum_msat: Some(u.htlc_maximum_msat),
        ..b
    }
}

/// The empty builder: nothing known, public.
pub open spec fn spec_new_builder() -> ShortChannelIdDirStateBuilder {
    ShortChannelIdDirStateBuilder {
        source: None,
        destination: None,
        active: None,
        scid_alias: None,
        fee_per_millionth: None,
        base_fee_millisatoshi: None,
        htlc_maximum_msat: None,
        htlc_minimum_msat: None,
        delay: None,
        last_update: None,
        private: Some(false),
    }
}

/// The nodes of a channel in the order of one of its directions: for
/// direction 0 the smaller key (by its bytes) is the source, for direction 1
/// the larger; any other direction has no order.
pub open spec fn spec_node_order(direction: u32, node_1: PubKeyBytes, node_2: PubKeyBytes) -> Option<
    (PubKeyBytes, PubKeyBytes),
> {
    if direction == 0 {
        if bytes_lt(node_1.0@, node_2.0@) {
            Some((node_1, node_2))
        } else {
            Some((node_2, node_1))
        }
    } else if direction == 1 {
        if bytes_lt(node_1.0@, node_2.0@) {
            Some((node_2, node_1))
        } else {
            Some((node_1, node_2))
        }
    } else {
        None
    }
}

/// Orders the two nodes of an announcement as `direction` runs; a
/// direction other than 0 or 1 is refused and handed back.
pub fn get_node_order(direction: u32, node_1: PubKeyBytes, node_2: PubKeyBytes) -> (r: Result<
    (PubKeyBytes, PubKeyBytes),
    u32,
>)
    ensures
        direction <= 1 ==> r == Ok::<(PubKeyBytes, PubKeyBytes), u32>(
            spec_node_order(direction, node_1, node_2)->0,
        ),
        direction > 1 ==> r == Err::<(PubKeyBytes, PubKeyBytes), u32>(direction),
{
    if direction == 0 {
        if node_1.less_than(&node_2) {
            Ok((node_1, node_2))
        } else {
            Ok((node_2, node_1))
        }
    } else if direction == 1 {
        if node_1.less_than(&node_2) {
            Ok((node_2, node_1))
        } else {
            Ok((node_1, node_2))
        }
    } else {
        Err(direction)
    }
}

/// The first index at or after `j` where two equally long, different byte
/// strings differ, when they agree before `j`.
proof fn first_difference(a: Seq<u8>, b: Seq<u8>, j: int) -> (i: int)
    requires
        a.len() == b.len(),
        0 <= j <= a.len(),
        a.take(j) == b.take(j),
        a != b,
    ensures
        j <= i < a.len(),
        a.take(i) == b.take(i),
        a[i] != b[i],
    decreases a.len() - j,
{
    if j == a.len() {
        assert(a =~= a.take(j));
        assert(b =~= b.take(j));
        assert(false);
        j
    } else if a[j] != b[j] {
        j
    } else {
        assert(a.take(j + 1) =~= a.take(j).push(a[j]));
        assert(b.take(j + 1) =~= b.take(j).push(b[j]));
        first_difference(a, b, j + 1)
    }
}

/// The byte order of keys is a strict total order: of two different keys
/// exactly one is the smaller, and no key is smaller than itself.
pub proof fn lemma_bytes_lt_total(a: Seq<u8>, b: Seq<u8>)
    requires
        a.len() == b.len(),
    ensures
        a != b ==> (bytes_lt(a, b) || bytes_lt(b, a)),
        !(bytes_lt(a, b) && bytes_lt(b, a)),
        !bytes_lt(a, a),
{
    if a != b {
        assert(a.take(0) =~= b.take(0));
        let i = first_difference(a, b, 0);
        if a[i] < b[i] {
            assert(bytes_lt(a, b));
        } else {
            assert(bytes_lt(b, a));
        }
    }
    if bytes_lt(a, b) && bytes_lt(b, a) {
        let i = choose|i: int|
            0 <= i < a.len() && i < b.len() && a.take(i) == b.take(i) && #[trigger] a[i] < b[i];
        let k = choose|k: int|
            0 <= k < b.len() && k < a.len() && b.take(k) == a.take(k) && #[trigger] b[k] < a[k];
        if i < k {
            assert(a.take(k)[i] == b.take(k)[i]);
        } else if k < i {
            assert(a.take(i)[k] == b.take(i)[k]);
        }
    }
}

/// Of a channel between two different nodes, the two directions run
/// opposite ways, whichever node the announcement names first; the
/// source of direction 0 is the smaller key.
pub proof fn lemma_node_order_directions(node_1: PubKeyBytes, node_2: PubKeyBytes)
    requires
        node_1 != node_2,
    ensures
        spec_node_order(0, node_1, node_2) == spec_node_order(0, node_2, node_1),
        spec_node_order(1, node_1, node_2) == spec_node_order(1, node_2, node_1),
        spec_node_order(1, node_1, node_2)->0 == ((spec_node_order(0, node_1, node_2)->0).1,
        (spec_node_order(0, node_1, node_2)->0).0),
        bytes_lt(
            (spec_node_order(0, node_1, node_2)->0).0.0@,
            (spec_node_order(0, node_1, node_2)->0).1.0@,
        ),
{
    assert(node_1.0@ != node_2.0@) by {
        if node_1.0@ == node_2.0@ {
            assert(node_1.0 == node_2.0);
        }
    }
    lemma_bytes_lt_total(node_1.0@, node_2.0@);
}

impl ShortChannelIdDirStateBuilder {
    pub fn new() -> (r: Self)
        ensures
            r == spec_new_builder(),
    {
        ShortChannelIdDirStateBuilder {
            source: None,
            destination: None,
            active: None,
            scid_alias: None,
            fee_per_millionth: None,
            base_fee_millisatoshi: None,
            htlc_maximum_msat: None,
            htlc_minimum_msat: None,
            delay: None,
            last_update: None,
            private: Some(false),
        }
    }

    /// Whether the announcement (the channel's nodes) is known.
    pub fn has_announcement(&self) -> (r: bool)
        ensures
            r == self.source is Some,
    {
        self.source.is_some()
    }

    /// Takes the nodes of an announcement, ordered for `direction`; a
    /// direction other than 0 or 1 is refused and nothing changes.
    pub fn add_announcement(&mut self, direction: u32, announcement: ChannelAnnouncement) -> (r:
        Result<(), u32>)
        ensures
            direction > 1 ==> r == Err::<(), u32>(direction) && *final(self) == *old(self),
            direction <= 1 ==> r == Ok::<(), u32>(()) && *final(self) == (
            ShortChannelIdDirStateBuilder {
                source: Some(
                    (spec_node_order(direction, announcement.source, announcement.destination)->0).0,
                ),
                destination: Some(
                    (spec_node_order(direction, announcement.source, announcement.destination)->0).1,
                ),
                ..*old(self)
            }),
    {
        let (source, destination) = get_node_order(
            direction,
            announcement.source,
            announcement.destination,
        )?;
        self.source = Some(source);
        self.destination = Some(destination);
        Ok(())
    }

    /// Takes the fields of a `channel_update`.
    pub fn add_update(&mut self, update: ChannelUpdate)
        ensures
            *final(self) == spec_add_update(*old(self), update),
    {
        self.active = Some(update.active);
        self.last_update = Some(update.last_update);
        self.base_fee_millisatoshi = Some(update.base_fee_millisatoshi);
        self.fee_per_millionth = Some(update.fee_per_millionth);
        self.delay = Some(update.delay);
        self.htlc_minimum_msat = Some(update.htlc_minimum_msat);
        self.htlc_maximum_msat = Some(update.htlc_maximum_msat);
    }

    /// The finished state if every field it needs is set (a missing privacy
    /// flag counts as public), else the builder unchanged.
    pub fn build(self) -> (r: BuildResult)
        ensures
            spec_build(self) is Some ==> r == BuildResult::Success(spec_build(self)->0),
            spec_build(self) is None ==> r == BuildResult::Failure(self),
    {
        let htlc_maximum_msat = match self.htlc_maximum_msat {
            Some(v) => v,
            None => return BuildResult::Failure(self),
        };
        let source = match self.source {
            Some(v) => v,
            None => return BuildResult::Failure(self),
        };
        let destination = match self.destination {
            Some(v) => v,
            None => return BuildResult::Failure(self),
        };
        let active = match self.active {
            Some(v) => v,
            None => return BuildResult::Failure(self),
        };
        let fee_per_millionth = match self.fee_per_millionth {
            Some(v) => v,
            None => return BuildResult::Failure(self),
        };
        let base_fee_millisatoshi = match self.base_fee_millisatoshi {
            Some(v) => v,
            None => return BuildResult::Failure(self),
        };
        let htlc_minimum_msat = match self.htlc_minimum_msat {
            Some(v) => v,
            None => return BuildResult::Failure(self),
        };
        let delay = match self.delay {
            Some(v) => v,
            None => return BuildResult::Failure(self),
        };
        let last_update = match self.last_update {
            Some(v) => v,
            None => return BuildResult::Failure(self),
        };
        let private = match self.private {
            Some(p) => p,
            None => false,
        };
        let scid_alias = self.scid_alias;
        BuildResult::Success(
            ShortChannelIdDirState {
                source,
                destination,
                active,
                scid_alias,
                fee_per_millionth,
                base_fee_millisatoshi,
                htlc_maximum_msat,
                htlc_minimum_msat,
                delay,
                last_update,
                private,
            },
        )
    }
}


/// The directed channel filed under a key of the graph.
pub open spec fn spec_dir_of_key(k: u128) -> ShortChannelIdDir {
    ShortChannelIdDir {
        short_channel_id: (k / 0x1_0000_0000) as u64,
        direction: (k % 0x1_0000_0000) as u32,
    }
}

proof fn lemma_key_roundtrip(k: u128)
    requires
        k < 0x1_0000_0000_0000_0000_0000_0000,
    ensures
        spec_scid_dir_key(spec_dir_of_key(k)) == k,
{
}

proof fn lemma_key_decode(sd: ShortChannelIdDir)
    ensures
        spec_dir_of_key(spec_scid_dir_key(sd)) == sd,
        spec_scid_dir_key(sd) < 0x1_0000_0000_0000_0000_0000_0000,
{
}

/// The channels of a bucket of the index (empty for an absent bucket).
pub open spec fn bucket(g: Map<u64, Vec<u128>>, i: u64) -> Seq<u128> {
    if g.contains_key(i) {
        g[i]@
    } else {
        Seq::empty()
    }
}

/// Every key of the channel map encodes a directed channel.
pub open spec fn keys_bounded(ch: Map<u128, ShortChannelIdDirState>) -> bool {
    forall|k: u128| #[trigger] ch.contains_key(k) ==> k < 0x1_0000_0000_0000_0000_0000_0000
}

/// Every channel is filed in the bucket of its source.
pub open spec fn indexed(ch: Map<u128, ShortChannelIdDirState>, g: Map<u64, Vec<u128>>) -> bool {
    forall|k: u128| #[trigger]
        ch.contains_key(k) ==> g.contains_key(spec_node_index_key(ch[k].source)) && g[spec_node_index_key(ch[k].source)]@.contains(k)
}

/// Every bucket holds channels of the graph whose source it is named by,
/// each once, and no bucket is empty.
pub open spec fn buckets_sound(ch: Map<u128, ShortChannelIdDirState>, g: Map<u64, Vec<u128>>) -> bool {
    &&& forall|i: u64, j: int|
        #![trigger g[i]@[j]]
        g.contains_key(i) && 0 <= j < g[i]@.len() ==> ch.contains_key(g[i]@[j])
            && spec_node_index_key(ch[g[i]@[j]].source) == i
    &&& forall|i: u64| #[trigger]
        g.contains_key(i) ==> g[i]@.len() > 0 && g[i]@.no_duplicates()
}

/// The list of keys holds every channel once.
pub open spec fn keys_listed(ch: Map<u128, ShortChannelIdDirState>, keys: Seq<u128>) -> bool {
    &&& keys.no_duplicates()
    &&& forall|k: u128| keys.contains(k) <==> #[trigger] ch.contains_key(k)
}

/// The channel `scid` in the direction that leaves `source`, direction 0
/// first.
pub open spec fn spec_state_no_direction(
    g: Map<ShortChannelIdDir, ShortChannelIdDirState>,
    source: PubKeyBytes,
    scid: u64,
) -> Option<(ShortChannelIdDir, ShortChannelIdDirState)> {
    let d0 = ShortChannelIdDir { short_channel_id: scid, direction: 0 };
    let d1 = ShortChannelIdDir { short_channel_id: scid, direction: 1 };
    if g.contains_key(d0) && g[d0].source == source {
        Some((d0, g[d0]))
    } else if g.contains_key(d1) && g[d1].source == source {
        Some((d1, g[d1]))
    } else {
        None
    }
}

/// The keys under which the index files the sources of a set of channels.
pub open spec fn source_index_keys(m: Map<ShortChannelIdDir, ShortChannelIdDirState>) -> Set<u64> {
    Set::new(
        |i: u64|
            exists|sd: ShortChannelIdDir| #[trigger]
                m.contains_key(sd) && spec_node_index_key(m[sd].source) == i,
    )
}

/// The channel graph: the state of each directed channel, and an index
/// of the channels by their source.
pub struct LnGraph {
    channels: HashMap<u128, ShortChannelIdDirState>,
    graph: HashMap<u64, Vec<u128>>,
    keys: Vec<u128>,
}

impl View for LnGraph {
    type V = Map<ShortChannelIdDir, ShortChannelIdDirState>;

    closed spec fn view(&self) -> Map<ShortChannelIdDir, ShortChannelIdDirState> {
        Map::new(
            |sd: ShortChannelIdDir| self.channels@.contains_key(spec_scid_dir_key(sd)),
            |sd: ShortChannelIdDir| self.channels@[spec_scid_dir_key(sd)],
        )
    }
}

impl LnGraph {
    /// The graph's own bookkeeping is consistent.
    pub closed spec fn wf(&self) -> bool {
        &&& keys_bounded(self.channels@)
        &&& indexed(self.channels@, self.graph@)
        &&& buckets_sound(self.channels@, self.graph@)
        &&& keys_listed(self.channels@, self.keys@)
    }

    proof fn lemma_view(&self, sd: ShortChannelIdDir)
        ensures
            self@.contains_key(sd) == self.channels@.contains_key(spec_scid_dir_key(sd)),
            self@.contains_key(sd) ==> self@[sd] == self.channels@[spec_scid_dir_key(sd)],
    {
    }

    pub fn new() -> (r: Self)
        ensures
            r.wf(),
            r@ == Map::<ShortChannelIdDir, ShortChannelIdDirState>::empty(),
    {
        let r = LnGraph { channels: HashMap::new(), graph: HashMap::new(), keys: Vec::new() };
        assert(r@ =~= Map::<ShortChannelIdDir, ShortChannelIdDirState>::empty());
        r
    }

    /// Files `key` in bucket `idx`, once.
    fn attach(&mut self, idx: u64, key: u128)
        ensures
            final(self).channels@ == old(self).channels@,
            final(self).keys@ == old(self).keys@,
            final(self).graph@ == old(self).graph@.insert(idx, final(self).graph@[idx]),
            final(self).graph@[idx]@ == (if bucket(old(self).graph@, idx).contains(key) {
                bucket(old(self).graph@, idx)
            } else {
                bucket(old(self).graph@, idx).push(key)
            }),
    {
        match self.graph.get(&idx) {
            Some(b) => {
                let mut nb = b.clone();
                assert(nb@ =~= b@);
                let mut found = false;
                let mut j: usize = 0;
                while j < nb.len()
                    invariant
                        j <= nb@.len(),
                        found == (exists|t: int| 0 <= t < j && nb@[t] == key),
                    decreases nb@.len() - j,
                {
                    if nb[j] == key {
                        found = true;
                    }
                    j = j + 1;
                }
                if !found {
                    nb.push(key);
                }
                self.graph.insert(idx, nb);
            },
            None => {
                let mut nb: Vec<u128> = Vec::new();
                nb.push(key);
                self.graph.insert(idx, nb);
                assert(nb@ =~= Seq::<u128>::empty().push(key));
            },
        }
    }

    /// Takes `key` out of bucket `idx`, dropping the bucket when it empties.
    fn detach(&mut self, idx: u64, key: u128)
        requires
            old(self).graph@.contains_key(idx) ==> old(self).graph@[idx]@.no_duplicates(),
        ensures
            final(self).channels@ == old(self).channels@,
            final(self).keys@ == old(self).keys@,
            forall|i: u64| i != idx ==> (#[trigger] final(self).graph@.contains_key(i) == old(self).graph@.contains_key(i)),
            forall|i: u64| i != idx && #[trigger] final(self).graph@.contains_key(i) ==> final(self).graph@[i] == old(self).graph@[i],
            final(self).graph@.contains_key(idx) ==> final(self).graph@[idx]@.len() > 0,
            final(self).graph@.contains_key(idx) ==> final(self).graph@[idx]@.no_duplicates(),
            forall|k: u128| #[trigger] bucket(final(self).graph@, idx).contains(k) <==> (bucket(old(self).graph@, idx).contains(k) && k != key),
    {
        match self.graph.get(&idx) {
            Some(b) => {
                let mut nb = b.clone();
                assert(nb@ =~= b@);
                let mut j: usize = 0;
                let mut pos: Option<usize> = None;
                while j < nb.len()
                    invariant
                        j <= nb@.len(),
                        match pos {
                            Some(p) => p < nb@.len() && nb@[p as int] == key,
                            None => forall|t: int| 0 <= t < j ==> nb@[t] != key,
                        },
                    decreases nb@.len() - j,
                {
                    if nb[j] == key {
                        pos = Some(j);
                    }
                    j = j + 1;
                }
                let ghost before = nb@;
                match pos {
                    Some(p) => {
                        nb.remove(p);
                        assert forall|k: u128| nb@.contains(k) <==> (before.contains(k) && k != key) by {
                            if nb@.contains(k) {
                                let t = choose|t: int| 0 <= t < nb@.len() && nb@[t] == k;
                                if t < p {
                                    assert(before[t] == k);
                                } else {
                                    assert(before[t + 1] == k);
                                }
                                assert(k != key) by {
                                    if k == key {
                                        if t < p {
                                            assert(before[t] == before[p as int]);
                                        } else {
                                            assert(before[t + 1] == before[p as int]);
                                        }
                                    }
                                }
                            }
                            if before.contains(k) && k != key {
                                let t = choose|t: int| 0 <= t < before.len() && before[t] == k;
                                if t < p {
                                    assert(nb@[t] == k);
                                } else {
                                    assert(nb@[t - 1] == k);
                                }
                            }
                        }
                        assert(nb@.no_duplicates()) by {
                            assert forall|a: int, c: int| 0 <= a < nb@.len() && 0 <= c < nb@.len() && a != c implies nb@[a] != nb@[c] by {
                                let a2 = if a < p { a } else { a + 1 };
                                let c2 = if c < p { c } else { c + 1 };
                                assert(nb@[a] == before[a2]);
                                assert(nb@[c] == before[c2]);
                            }
                        }
                    },
                    None => {
                        assert forall|k: u128| nb@.contains(k) <==> (before.contains(k) && k != key) by {
                            if nb@.contains(k) {
                                let t = choose|t: int| 0 <= t < nb@.len() && nb@[t] == k;
                            }
                        }
                    },
                }
                if nb.len() == 0 {
                    self.graph.remove(&idx);
                } else {
                    self.graph.insert(idx, nb);
                }
            },
            None => {},
        }
    }
    /// Files `dir_chan_state` under `scid_dir`, replacing what was there;
    /// returns the replaced state.
    pub fn insert(&mut self, scid_dir: ShortChannelIdDir, dir_chan_state: ShortChannelIdDirState) -> (r:
        Option<ShortChannelIdDirState>)
        requires
            old(self).wf(),
        ensures
            final(self).wf(),
            final(self)@ == old(self)@.insert(scid_dir, dir_chan_state),
            r == (if old(self)@.contains_key(scid_dir) {
                Some(old(self)@[scid_dir])
            } else {
                None
            }),
    {
        let key = scid_dir_key(&scid_dir);
        let new_idx = node_index_key(&dir_chan_state.source);
        proof {
            lemma_key_decode(scid_dir);
        }
        let ghost och = self.channels@;
        let ghost og = self.graph@;
        let ghost okeys = self.keys@;
        let prev = self.channels.insert(key, dir_chan_state);
        match prev {
            Some(p) => {
                let old_idx = node_index_key(&p.source);
                if old_idx != new_idx {
                    self.detach(old_idx, key);
                    let ghost g1 = self.graph@;
                    self.attach(new_idx, key);
                    proof {
                        let ch = self.channels@;
                        let g = self.graph@;
                        assert(forall|i: u64| i != old_idx ==> #[trigger] g1.contains_key(i) == og.contains_key(i));
                        assert forall|k: u128| #[trigger] ch.contains_key(k) implies g.contains_key(spec_node_index_key(ch[k].source)) && g[spec_node_index_key(ch[k].source)]@.contains(k) by {
                            let i = spec_node_index_key(ch[k].source);
                            if k != key {
                                assert(och.contains_key(k) && och[k] == ch[k]);
                                assert(og.contains_key(i) && og[i]@.contains(k));
                                assert(bucket(og, i).contains(k));
                                if i == old_idx {
                                    assert(bucket(g1, old_idx).contains(k));
                                    assert(g1.contains_key(old_idx));
                                    assert(g[old_idx] == g1[old_idx]);
                                } else if i != new_idx {
                                    assert(g1.contains_key(i));
                                    assert(g1[i] == og[i]);
                                    assert(g[i] == g1[i]);
                                } else {
                                    assert(g1.contains_key(i));
                                    assert(g1[i] == og[i]);
                                    assert(bucket(g1, i).contains(k));
                                    let t = choose|t: int| 0 <= t < bucket(g1, i).len() && bucket(g1, i)[t] == k;
                                    assert(g[i]@[t] == k);
                                }
                            } else {
                                if !bucket(g1, new_idx).contains(key) {
                                    assert(g[new_idx]@[g[new_idx]@.len() - 1] == key);
                                }
                            }
                        }
                        assert forall|i: u64, j: int| g.contains_key(i) && 0 <= j < g[i]@.len() implies ch.contains_key(#[trigger] g[i]@[j])
                            && spec_node_index_key(ch[g[i]@[j]].source) == i by {
                            let x = g[i]@[j];
                            if i == old_idx {
                                assert(g1.contains_key(old_idx));
                                assert(g[old_idx] == g1[old_idx]);
                                assert(bucket(g1, old_idx).contains(x));
                                assert(bucket(og, old_idx).contains(x) && x != key);
                                let t = choose|t: int| 0 <= t < og[i]@.len() && og[i]@[t] == x;
                                assert(och.contains_key(og[i]@[t]));
                            } else if i == new_idx {
                                if x != key {
                                    if bucket(g1, new_idx).contains(key) {
                                        assert(bucket(g1, new_idx).contains(x));
                                    } else {
                                        assert(j < g[i]@.len() - 1);
                                        assert(bucket(g1, new_idx)[j] == x);
                                    }
                                    assert(g1.contains_key(i) && g1[i] == og[i]);
                                    let t = choose|t: int| 0 <= t < og[i]@.len() && og[i]@[t] == x;
                                    assert(och.contains_key(og[i]@[t]));
                                }
                            } else {
                                assert(g1.contains_key(i));
                                assert(g[i] == g1[i] && g1[i] == og[i]);
                                assert(og[i]@[j] == x);
                                assert(och.contains_key(x) && spec_node_index_key(och[x].source) == i);
                            }
                        }
                        assert forall|i: u64| #[trigger] g.contains_key(i) implies g[i]@.len() > 0 && g[i]@.no_duplicates() by {
                            if i == new_idx {
                                if !bucket(g1, new_idx).contains(key) {
                                    let b = bucket(g1, new_idx);
                                    assert forall|a: int, c: int| 0 <= a < g[i]@.len() && 0 <= c < g[i]@.len() && a != c implies g[i]@[a] != g[i]@[c] by {
                                        if a == b.len() {
                                            assert(b.contains(g[i]@[c]));
                                        } else if c == b.len() {
                                            assert(b.contains(g[i]@[a]));
                                        }
                                    }
                                }
                            } else if i != old_idx {
                                assert(g1.contains_key(i));
                            }
                        }
                        assert forall|k: u128| self.keys@.contains(k) <==> #[trigger] ch.contains_key(k) by {
                            if k == key {
                                assert(och.contains_key(key));
                            }
                        }
                    }
                } else {
                    proof {
                        let ch = self.channels@;
                        let g = self.graph@;
                        assert forall|i: u64, j: int| g.contains_key(i) && 0 <= j < g[i]@.len() implies ch.contains_key(#[trigger] g[i]@[j])
                            && spec_node_index_key(ch[g[i]@[j]].source) == i by {
                            assert(og[i]@[j] == g[i]@[j]);
                        }
                        assert forall|k: u128| self.keys@.contains(k) <==> #[trigger] ch.contains_key(k) by {
                            if k == key {
                                assert(och.contains_key(key));
                            }
                        }
                    }
                }
            },
            None => {
                self.keys.push(key);
                self.attach(new_idx, key);
                proof {
                    let ch = self.channels@;
                    let g = self.graph@;
                    assert forall|k: u128| #[trigger] ch.contains_key(k) implies g.contains_key(spec_node_index_key(ch[k].source)) && g[spec_node_index_key(ch[k].source)]@.contains(k) by {
                        let i = spec_node_index_key(ch[k].source);
                        if k != key {
                            assert(och.contains_key(k) && och[k] == ch[k]);
                            assert(og.contains_key(i) && og[i]@.contains(k));
                            if i == new_idx {
                                assert(bucket(og, i).contains(k));
                                let t = choose|t: int| 0 <= t < bucket(og, i).len() && bucket(og, i)[t] == k;
                                assert(g[i]@[t] == k);
                            } else {
                                assert(g[i] == og[i]);
                            }
                        } else {
                            if !bucket(og, new_idx).contains(key) {
                                assert(g[new_idx]@[g[new_idx]@.len() - 1] == key);
                            }
                        }
                    }
                    assert forall|i: u64, j: int| g.contains_key(i) && 0 <= j < g[i]@.len() implies ch.contains_key(#[trigger] g[i]@[j])
                        && spec_node_index_key(ch[g[i]@[j]].source) == i by {
                        let x = g[i]@[j];
                        if i == new_idx {
                            if x != key {
                                if bucket(og, new_idx).contains(key) {
                                    assert(bucket(og, new_idx).contains(x));
                                } else {
                                    assert(j < g[i]@.len() - 1);
                                    assert(bucket(og, new_idx)[j] == x);
                                }
                                let t = choose|t: int| 0 <= t < og[i]@.len() && og[i]@[t] == x;
                                assert(och.contains_key(og[i]@[t]));
                            }
                        } else {
                            assert(g[i] == og[i]);
                            assert(og[i]@[j] == x);
                            assert(och.contains_key(x));
                        }
                    }
                    assert forall|i: u64| #[trigger] g.contains_key(i) implies g[i]@.len() > 0 && g[i]@.no_duplicates() by {
                        if i == new_idx {
                            if !bucket(og, new_idx).contains(key) {
                                let b = bucket(og, new_idx);
                                assert forall|a: int, c: int| 0 <= a < g[i]@.len() && 0 <= c < g[i]@.len() && a != c implies g[i]@[a] != g[i]@[c] by {
                                    if a == b.len() {
                                        assert(b.contains(g[i]@[c]));
                                    } else if c == b.len() {
                                        assert(b.contains(g[i]@[a]));
                                    }
                                }
                            }
                        }
                    }
                    assert(self.keys@ == okeys.push(key));
                    assert(!okeys.contains(key));
                    assert forall|k: u128| self.keys@.contains(k) <==> #[trigger] ch.contains_key(k) by {
                        if self.keys@.contains(k) && k != key {
                            let t = choose|t: int| 0 <= t < self.keys@.len() && self.keys@[t] == k;
                            assert(okeys[t] == k);
                            assert(okeys.contains(k));
                        }
                        if k == key {
                            assert(self.keys@[self.keys@.len() - 1] == key);
                        }
                        if ch.contains_key(k) && k != key {
                            assert(och.contains_key(k));
                            assert(okeys.contains(k));
                            let t = choose|t: int| 0 <= t < okeys.len() && okeys[t] == k;
                            assert(self.keys@[t] == k);
                        }
                    }
                    assert(self.keys@.no_duplicates()) by {
                        assert forall|a: int, c: int| 0 <= a < self.keys@.len() && 0 <= c < self.keys@.len() && a != c implies self.keys@[a] != self.keys@[c] by {
                            if a == self.keys@.len() - 1 {
                                assert(okeys.contains(self.keys@[c]));
                            } else if c == self.keys@.len() - 1 {
                                assert(okeys.contains(self.keys@[a]));
                            }
                        }
                    }
                }
            },
        }
        proof {
            assert forall|sd: ShortChannelIdDir| #[trigger] self@.contains_key(sd) == old(self)@.insert(scid_dir, dir_chan_state).contains_key(sd) by {
                lemma_key_decode(sd);
            }
            assert(self@ =~= old(self)@.insert(scid_dir, dir_chan_state));
        }
        prev
    }

    /// Takes `key` out of the list of keys.
    fn unlist(&mut self, key: u128)
        requires
            old(self).keys@.no_duplicates(),
        ensures
            final(self).channels@ == old(self).channels@,
            final(self).graph@ == old(self).graph@,
            final(self).keys@.no_duplicates(),
            forall|k: u128| #[trigger] final(self).keys@.contains(k) <==> (old(self).keys@.contains(k) && k != key),
    {
        let mut j: usize = 0;
        let mut pos: Option<usize> = None;
        while j < self.keys.len()
            invariant
                j <= self.keys@.len(),
                self.keys@ == old(self).keys@,
                match pos {
                    Some(p) => p < self.keys@.len() && self.keys@[p as int] == key,
                    None => forall|t: int| 0 <= t < j ==> self.keys@[t] != key,
                },
            decreases self.keys@.len() - j,
        {
            if self.keys[j] == key {
                pos = Some(j);
            }
            j = j + 1;
        }
        let ghost before = self.keys@;
        if let Some(p) = pos {
            self.keys.remove(p);
            let ghost nb = self.keys@;
            assert forall|k: u128| nb.contains(k) <==> (before.contains(k) && k != key) by {
                if nb.contains(k) {
                    let t = choose|t: int| 0 <= t < nb.len() && nb[t] == k;
                    if t < p {
                        assert(before[t] == k);
                        assert(t != p);
                    } else {
                        assert(before[t + 1] == k);
                        assert(t + 1 != p);
                    }
                }
                if before.contains(k) && k != key {
                    let t = choose|t: int| 0 <= t < before.len() && before[t] == k;
                    if t < p {
                        assert(nb[t] == k);
                    } else {
                        assert(t != p);
                        assert(nb[t - 1] == k);
                    }
                }
            }
            assert forall|a: int, c: int| 0 <= a < nb.len() && 0 <= c < nb.len() && a != c implies nb[a] != nb[c] by {
                let a2 = if a < p { a } else { a + 1 };
                let c2 = if c < p { c } else { c + 1 };
                assert(nb[a] == before[a2]);
                assert(nb[c] == before[c2]);
            }
        }
    }

    /// Takes the channel out of the graph; returns its state.
    pub fn remove(&mut self, scid_dir: &ShortChannelIdDir) -> (r: Option<ShortChannelIdDirState>)
        requires
            old(self).wf(),
        ensures
            final(self).wf(),
            final(self)@ == old(self)@.remove(*scid_dir),
            r == (if old(self)@.contains_key(*scid_dir) {
                Some(old(self)@[*scid_dir])
            } else {
                None
            }),
    {
        let key = scid_dir_key(scid_dir);
        proof {
            lemma_key_decode(*scid_dir);
        }
        let ghost och = self.channels@;
        let ghost og = self.graph@;
        let ghost okeys = self.keys@;
        let removed = self.channels.remove(&key);
        match removed {
            Some(v) => {
                let idx = node_index_key(&v.source);
                self.detach(idx, key);
                self.unlist(key);
                proof {
                    let ch = self.channels@;
                    let g = self.graph@;
                    assert(ch == och.remove(key));
                    assert forall|k: u128| #[trigger] ch.contains_key(k) implies g.contains_key(spec_node_index_key(ch[k].source)) && g[spec_node_index_key(ch[k].source)]@.contains(k) by {
                        let i = spec_node_index_key(ch[k].source);
                        assert(och.contains_key(k) && och[k] == ch[k]);
                        assert(og.contains_key(i) && og[i]@.contains(k));
                        if i == idx {
                            assert(bucket(og, i).contains(k));
                            assert(bucket(g, i).contains(k));
                        } else {
                            assert(g.contains_key(i));
                        }
                    }
                    assert forall|i: u64, j: int| g.contains_key(i) && 0 <= j < g[i]@.len() implies ch.contains_key(#[trigger] g[i]@[j])
                        && spec_node_index_key(ch[g[i]@[j]].source) == i by {
                        let x = g[i]@[j];
                        if i == idx {
                            assert(bucket(g, idx).contains(x));
                            assert(bucket(og, idx).contains(x) && x != key);
                            let t = choose|t: int| 0 <= t < og[i]@.len() && og[i]@[t] == x;
                            assert(och.contains_key(og[i]@[t]));
                        } else {
                            assert(og.contains_key(i));
                            assert(g[i] == og[i]);
                            assert(og[i]@[j] == x);
                            assert(och.contains_key(x) && spec_node_index_key(och[x].source) == i);
                            assert(x != key);
                        }
                    }
                    assert forall|i: u64| #[trigger] g.contains_key(i) implies g[i]@.len() > 0 && g[i]@.no_duplicates() by {
                        if i != idx {
                            assert(og.contains_key(i));
                        }
                    }
                    assert forall|k: u128| self.keys@.contains(k) <==> #[trigger] ch.contains_key(k) by {
                    }
                }
            },
            None => {},
        }
        proof {
            assert forall|sd: ShortChannelIdDir| #[trigger] self@.contains_key(sd) == old(self)@.remove(*scid_dir).contains_key(sd) by {
                lemma_key_decode(sd);
            }
            assert(self@ =~= old(self)@.remove(*scid_dir));
        }
        removed
    }

    /// The state of a directed channel, if the graph has it.
    pub fn get_state(&self, scid_dir: &ShortChannelIdDir) -> (r: Option<ShortChannelIdDirState>)
        ensures
            r == (if self@.contains_key(*scid_dir) {
                Some(self@[*scid_dir])
            } else {
                None
            }),
    {
        let key = scid_dir_key(scid_dir);
        match self.channels.get(&key) {
            Some(s) => Some(*s),
            None => None,
        }
    }

    /// Applies a `channel_update` to the channel if the graph has it;
    /// says whether it had.
    pub fn update_state(&mut self, scid_dir: ShortChannelIdDir, channel_update: ChannelUpdate) -> (r: bool)
        requires
            old(self).wf(),
        ensures
            final(self).wf(),
            r == old(self)@.contains_key(scid_dir),
            r ==> final(self)@ == old(self)@.insert(
                scid_dir,
                spec_updated(old(self)@[scid_dir], channel_update),
            ),
            r ==> final(self)@[scid_dir].fee_per_millionth == channel_update.fee_per_millionth
                && final(self)@[scid_dir].base_fee_millisatoshi == channel_update.base_fee_millisatoshi
                && final(self)@[scid_dir].active == channel_update.active
                && final(self)@[scid_dir].last_update == channel_update.last_update
                && final(self)@[scid_dir].delay == channel_update.delay
                && final(self)@[scid_dir].htlc_minimum_msat == channel_update.htlc_minimum_msat
                && final(self)@[scid_dir].htlc_maximum_msat == channel_update.htlc_maximum_msat,
            !r ==> final(self)@ == old(self)@,
    {
        let key = scid_dir_key(&scid_dir);
        proof {
            lemma_key_decode(scid_dir);
        }
        let ghost och = self.channels@;
        match self.channels.get(&key) {
            Some(s) => {
                let mut st = *s;
                st.update(channel_update);
                self.channels.insert(key, st);
                proof {
                    let ch = self.channels@;
                    let g = self.graph@;
                    assert forall|k: u128| #[trigger] ch.contains_key(k) implies g.contains_key(spec_node_index_key(ch[k].source)) && g[spec_node_index_key(ch[k].source)]@.contains(k) by {
                        assert(och.contains_key(k));
                    }
                    assert forall|i: u64, j: int| g.contains_key(i) && 0 <= j < g[i]@.len() implies ch.contains_key(#[trigger] g[i]@[j])
                        && spec_node_index_key(ch[g[i]@[j]].source) == i by {
                    }
                    assert forall|k: u128| self.keys@.contains(k) <==> #[trigger] ch.contains_key(k) by {
                        if k == key {
                            assert(och.contains_key(key));
                        }
                    }
                    assert forall|sd: ShortChannelIdDir| #[trigger] self@.contains_key(sd) == old(self)@.insert(scid_dir, st).contains_key(sd) by {
                        lemma_key_decode(sd);
                    }
                    assert(self@ =~= old(self)@.insert(scid_dir, st));
                }
                true
            },
            None => false,
        }
    }

    /// Whether the graph has the channel with the source that the
    /// announcement gives for its direction; a direction other than 0 or 1
    /// is refused.
    pub fn has_announcement(&self, scid_dir: &ShortChannelIdDir, chan_announcement: &ChannelAnnouncement) -> (r: Result<bool, u32>)
        ensures
            scid_dir.direction > 1 ==> r == Err::<bool, u32>(scid_dir.direction),
            scid_dir.direction <= 1 ==> r == Ok::<bool, u32>(
                self@.contains_key(*scid_dir) && self@[*scid_dir].source == (spec_node_order(
                    scid_dir.direction,
                    chan_announcement.source,
                    chan_announcement.destination,
                )->0).0,
            ),
    {
        let (source, _destination) = get_node_order(
            scid_dir.direction,
            chan_announcement.source,
            chan_announcement.destination,
        )?;
        let key = scid_dir_key(scid_dir);
        match self.channels.get(&key) {
            Some(s) => {
                let same = s.source.same_as(&source);
                proof {
                    if s.source.0@ == source.0@ {
                        assert(s.source.0 == source.0);
                    }
                }
                Ok(same)
            },
            None => Ok(false),
        }
    }

    /// The channel `scid` in the direction that leaves `source`: direction 0
    /// if the graph has it from `source`, else direction 1 if it has that;
    /// else the id is refused.
    pub fn get_state_no_direction(&self, source: &PubKeyBytes, scid: u64) -> (r: Result<
        (ShortChannelIdDir, ShortChannelIdDirState),
        u64,
    >)
        ensures
            r == (match spec_state_no_direction(self@, *source, scid) {
                Some(found) => Ok::<(ShortChannelIdDir, ShortChannelIdDirState), u64>(found),
                None => Err::<(ShortChannelIdDir, ShortChannelIdDirState), u64>(scid),
            }),
    {
        let d0 = ShortChannelIdDir { short_channel_id: scid, direction: 0 };
        let d1 = ShortChannelIdDir { short_channel_id: scid, direction: 1 };
        if let Some(s0) = self.get_state(&d0) {
            let same = s0.source.same_as(source);
            proof {
                if s0.source.0@ == source.0@ {
                    assert(s0.source.0 == source.0);
                }
            }
            if same {
                return Ok((d0, s0));
            }
        }
        if let Some(s1) = self.get_state(&d1) {
            let same = s1.source.same_as(source);
            proof {
                if s1.source.0@ == source.0@ {
                    assert(s1.source.0 == source.0);
                }
            }
            if same {
                return Ok((d1, s1));
            }
        }
        Err(scid)
    }

    /// The graph has finitely many channels.
    pub proof fn lemma_finite(&self)
        requires
            self.wf(),
        ensures
            self@.dom().finite(),
    {
        let f = |k: u128| spec_dir_of_key(k);
        let x = self.keys@.to_set();
        assert forall|sd: ShortChannelIdDir| #[trigger] x.map(f).contains(sd) <==> self@.dom().contains(sd) by {
            lemma_key_decode(sd);
            if x.map(f).contains(sd) {
                let k = choose|k: u128| x.contains(k) && f(k) == sd;
                assert(self.keys@.contains(k));
                assert(self.channels@.contains_key(k));
                lemma_key_roundtrip(k);
            }
            if self@.dom().contains(sd) {
                assert(self.keys@.contains(spec_scid_dir_key(sd)));
                assert(x.contains(spec_scid_dir_key(sd)));
                assert(f(spec_scid_dir_key(sd)) == sd);
            }
        }
        assert(x.map(f) =~= self@.dom());
        vstd::seq_lib::seq_to_set_is_finite(self.keys@);
        x.lemma_map_finite(f);
    }

    /// Number of nodes by the index: the distinct index keys of the
    /// channels' sources.
    pub fn node_count(&self) -> (r: usize)
        requires
            self.wf(),
        ensures
            r == source_index_keys(self@).len(),
    {
        proof {
            let g = self.graph@;
            let ch = self.channels@;
            assert forall|i: u64| g.contains_key(i) <==> #[trigger] source_index_keys(self@).contains(i) by {
                if g.contains_key(i) {
                    let x = g[i]@[0];
                    assert(ch.contains_key(x));
                    lemma_key_roundtrip(x);
                    let sd = spec_dir_of_key(x);
                    assert(self@.contains_key(sd) && spec_node_index_key(self@[sd].source) == i);
                }
                if source_index_keys(self@).contains(i) {
                    let sd = choose|sd: ShortChannelIdDir| #[trigger]
                        self@.contains_key(sd) && spec_node_index_key(self@[sd].source) == i;
                    assert(ch.contains_key(spec_scid_dir_key(sd)));
                }
            }
            assert(g.dom() =~= source_index_keys(self@));
        }
        self.graph.len()
    }

    /// Whether the graph has no channel.
    pub fn is_empty(&self) -> (r: bool)
        requires
            self.wf(),
        ensures
            r == (self@.dom() =~= Set::<ShortChannelIdDir>::empty()),
    {
        let r = self.graph.is_empty();
        proof {
            let g = self.graph@;
            let ch = self.channels@;
            if r {
                assert forall|sd: ShortChannelIdDir| !self@.contains_key(sd) by {
                    if self@.contains_key(sd) {
                        assert(ch.contains_key(spec_scid_dir_key(sd)));
                        assert(g.contains_key(spec_node_index_key(ch[spec_scid_dir_key(sd)].source)));
                    }
                }
            } else {
                assert(g.dom().len() > 0);
                let i = g.dom().choose();
                assert(g.contains_key(i));
                let x = g[i]@[0];
                lemma_key_roundtrip(x);
                assert(self@.contains_key(spec_dir_of_key(x)));
            }
        }
        r
    }

    /// Keeps the directed channels for which `keep` holds of the channel and
    /// its state, and removes the others.
    pub fn retain<F: Fn(&ShortChannelIdDir, &ShortChannelIdDirState) -> bool>(&mut self, keep: F)
        requires
            old(self).wf(),
            forall|sd: ShortChannelIdDir, st: ShortChannelIdDirState| call_requires(keep, (&sd, &st)),
        ensures
            final(self).wf(),
            forall|sd: ShortChannelIdDir| #[trigger] final(self)@.contains_key(sd) ==> {
                &&& old(self)@.contains_key(sd)
                &&& final(self)@[sd] == old(self)@[sd]
                &&& call_ensures(keep, (&sd, &old(self)@[sd]), true)
            },
            forall|sd: ShortChannelIdDir| #[trigger] old(self)@.contains_key(sd) && !final(self)@.contains_key(sd)
                ==> call_ensures(keep, (&sd, &old(self)@[sd]), false),
    {
        let ghost g0 = self@;
        let mut drop: Vec<ShortChannelIdDir> = Vec::new();
        let mut j: usize = 0;
        while j < self.keys.len()
            invariant
                self.wf(),
                self@ == g0,
                j <= self.keys@.len(),
                forall|sd: ShortChannelIdDir, st: ShortChannelIdDirState| call_requires(keep, (&sd, &st)),
                forall|t: int| 0 <= t < drop@.len() ==> g0.contains_key(#[trigger] drop@[t])
                    && call_ensures(keep, (&drop@[t], &g0[drop@[t]]), false),
                forall|sd: ShortChannelIdDir| #[trigger] g0.contains_key(sd)
                    && (exists|t: int| 0 <= t < j && self.keys@[t] == spec_scid_dir_key(sd))
                    && !drop@.contains(sd) ==> call_ensures(keep, (&sd, &g0[sd]), true),
            decreases self.keys@.len() - j,
        {
            let k = self.keys[j];
            proof {
                assert(self.keys@.contains(k));
                assert(self.channels@.contains_key(k));
                lemma_key_roundtrip(k);
            }
            let sd = scid_dir_from_key(k);
            proof {
                lemma_key_decode(sd);
                self.lemma_view(sd);
            }
            match self.channels.get(&k) {
                Some(st) => {
                    proof {
                        assert(*st == g0[sd]);
                    }
                    let ghost d0 = drop@;
                    let kept = keep(&sd, st);
                    if !kept {
                        drop.push(sd);
                    }
                    proof {
                        assert(kept ==> drop@ == d0);
                        assert(!kept ==> drop@ == d0.push(sd));
                        assert forall|x: ShortChannelIdDir| #[trigger] g0.contains_key(x)
                            && (exists|t: int| 0 <= t < j + 1 && self.keys@[t] == spec_scid_dir_key(x))
                            && !drop@.contains(x) implies call_ensures(keep, (&x, &g0[x]), true) by {
                            let t = choose|t: int| 0 <= t < j + 1 && self.keys@[t] == spec_scid_dir_key(x);
                            assert(!d0.contains(x)) by {
                                if d0.contains(x) {
                                    let u = choose|u: int| 0 <= u < d0.len() && d0[u] == x;
                                    assert(drop@[u] == x);
                                }
                            }
                            if t == j {
                                lemma_scid_dir_key_injective(x, sd);
                                assert(x == sd);
                                if !kept {
                                    assert(drop@[drop@.len() - 1] == sd);
                                }
                            } else {
                                assert(exists|t2: int| 0 <= t2 < j && self.keys@[t2] == spec_scid_dir_key(x));
                            }
                        }
                        assert forall|t: int| 0 <= t < drop@.len() implies g0.contains_key(#[trigger] drop@[t])
                            && call_ensures(keep, (&drop@[t], &g0[drop@[t]]), false) by {
                            if t < d0.len() {
                                assert(drop@[t] == d0[t]);
                            }
                        }
                    }
                },
                None => {},
            }
            j = j + 1;
        }
        proof {
            assert forall|sd: ShortChannelIdDir| #[trigger] g0.contains_key(sd) && !drop@.contains(sd)
                implies call_ensures(keep, (&sd, &g0[sd]), true) by {
                self.lemma_view(sd);
                let k = spec_scid_dir_key(sd);
                assert(self.keys@.contains(k));
                let t = choose|t: int| 0 <= t < self.keys@.len() && self.keys@[t] == k;
                assert(self.keys@[t] == spec_scid_dir_key(sd));
            }
        }
        let ghost dropped = drop@;
        let mut i: usize = 0;
        while i < drop.len()
            invariant
                self.wf(),
                drop@ == dropped,
                i <= dropped.len(),
                self@ == g0.remove_keys(dropped.take(i as int).to_set()),
            decreases dropped.len() - i,
        {
            let d = drop[i];
            self.remove(&d);
            proof {
                assert(dropped.take(i + 1).to_set() =~= dropped.take(i as int).to_set().insert(d)) by {
                    assert(dropped.take(i + 1) =~= dropped.take(i as int).push(d));
                    dropped.take(i as int).lemma_push_to_set_commute(d);
                }
                assert(self@ =~= g0.remove_keys(dropped.take(i + 1).to_set()));
            }
            i = i + 1;
        }
        proof {
            assert(dropped.take(dropped.len() as int) =~= dropped);
            assert forall|sd: ShortChannelIdDir| #[trigger] g0.contains_key(sd) && !self@.contains_key(sd)
                implies call_ensures(keep, (&sd, &g0[sd]), false) by {
                assert(dropped.to_set().contains(sd));
                let t = choose|t: int| 0 <= t < dropped.len() && dropped[t] == sd;
                assert(dropped[t] == sd);
            }
        }
    }

    /// Number of channels whose privacy flag is `private`.
    fn count_by_privacy(&self, private: bool) -> (r: usize)
        requires
            self.wf(),
        ensures
            r == self@.dom().filter(|sd: ShortChannelIdDir| self@[sd].private == private).len(),
    {
        let mut n: usize = 0;
        let mut j: usize = 0;
        let ghost mut counted: Set<ShortChannelIdDir> = Set::empty();
        while j < self.keys.len()
            invariant
                self.wf(),
                j <= self.keys@.len(),
                counted.finite(),
                n == counted.len(),
                n <= j,
                forall|sd: ShortChannelIdDir| #[trigger] counted.contains(sd) <==> (exists|t: int| 0 <= t < j && #[trigger] self.keys@[t] == spec_scid_dir_key(sd)) && self@.contains_key(sd) && self@[sd].private == private,
            decreases self.keys@.len() - j,
        {
            let k = self.keys[j];
            proof {
                assert(self.keys@.contains(k));
                assert(self.channels@.contains_key(k));
                lemma_key_roundtrip(k);
            }
            let st = self.channels.get(&k);
            let ghost sd = spec_dir_of_key(k);
            match st {
                Some(s) => {
                    if s.private == private {
                        proof {
                            assert(!counted.contains(sd)) by {
                                if counted.contains(sd) {
                                    let t = choose|t: int| 0 <= t < j && #[trigger] self.keys@[t] == spec_scid_dir_key(sd);
                                    assert(self.keys@[t] == self.keys@[j as int]);
                                }
                            }
                            counted = counted.insert(sd);
                        }
                        n = n + 1;
                    }
                },
                None => {},
            }
            proof {
                assert forall|x: ShortChannelIdDir| #[trigger] counted.contains(x) <==> (exists|t: int| 0 <= t < j + 1 && #[trigger] self.keys@[t] == spec_scid_dir_key(x)) && self@.contains_key(x) && self@[x].private == private by {
                    lemma_key_decode(x);
                    if x == sd {
                        assert(self.keys@[j as int] == spec_scid_dir_key(x));
                    }
                    if (exists|t: int| 0 <= t < j + 1 && #[trigger] self.keys@[t] == spec_scid_dir_key(x)) {
                        let t = choose|t: int| 0 <= t < j + 1 && #[trigger] self.keys@[t] == spec_scid_dir_key(x);
                        if t == j {
                            assert(x == sd);
                        }
                    }
                }
            }
            j = j + 1;
        }
        proof {
            let target = self@.dom().filter(|sd: ShortChannelIdDir| self@[sd].private == private);
            assert forall|sd: ShortChannelIdDir| #[trigger] counted.contains(sd) <==> target.contains(sd) by {
                if target.contains(sd) {
                    let k = spec_scid_dir_key(sd);
                    assert(self.channels@.contains_key(k));
                    assert(self.keys@.contains(k));
                    let t = choose|t: int| 0 <= t < self.keys@.len() && self.keys@[t] == k;
                    assert(self.keys@[t] == spec_scid_dir_key(sd));
                }
            }
            assert(counted =~= target);
        }
        n
    }

    /// Number of public channels.
    pub fn public_channel_count(&self) -> (r: usize)
        requires
            self.wf(),
        ensures
            r == self@.dom().filter(|sd: ShortChannelIdDir| !self@[sd].private).len(),
    {
        let r = self.count_by_privacy(false);
        proof {
            assert(self@.dom().filter(|sd: ShortChannelIdDir| self@[sd].private == false) =~= self@.dom().filter(|sd: ShortChannelIdDir| !self@[sd].private));
        }
        r
    }

    /// Number of private channels.
    pub fn private_channel_count(&self) -> (r: usize)
        requires
            self.wf(),
        ensures
            r == self@.dom().filter(|sd: ShortChannelIdDir| self@[sd].private).len(),
    {
        let r = self.count_by_privacy(true);
        proof {
            assert(self@.dom().filter(|sd: ShortChannelIdDir| self@[sd].private == true) =~= self@.dom().filter(|sd: ShortChannelIdDir| self@[sd].private));
        }
        r
    }

    /// The usable channels that leave `source`, each once, in no stated order.
    #[verifier::spinoff_prover]
    #[verifier::rlimit(30)]
    pub fn edges(
        &self,
        source: &PubKeyBytes,
        two_weeks_ago: u32,
        actual_candidates: &[u64],
        my_pubkey: &PubKeyBytes,
        exclude_peers: &[PubKeyBytes],
        amount_msat: u64,
        excepts: &[ShortChannelIdDir],
        liquidity: &HashMap<u128, Liquidity>,
    ) -> (r: Vec<(ShortChannelIdDir, ShortChannelIdDirState)>)
        requires
            self.wf(),
        ensures
            forall|i: int|
                0 <= i < r@.len() ==> {
                    &&& self@.contains_key(#[trigger] r@[i].0)
                    &&& self@[r@[i].0] == r@[i].1
                    &&& r@[i].1.source == *source
                    &&& edge_usable(
                        r@[i].0,
                        r@[i].1,
                        two_weeks_ago,
                        actual_candidates@,
                        *my_pubkey,
                        exclude_peers@,
                        amount_msat,
                        excepts@,
                        liquidity@,
                    )
                },
            forall|sd: ShortChannelIdDir|
                #![trigger self@[sd]]
                self@.contains_key(sd) && self@[sd].source == *source && edge_usable(
                    sd,
                    self@[sd],
                    two_weeks_ago,
                    actual_candidates@,
                    *my_pubkey,
                    exclude_peers@,
                    amount_msat,
                    excepts@,
                    liquidity@,
                ) ==> exists|i: int| 0 <= i < r@.len() && r@[i].0 == sd,
            forall|i: int, j: int| 0 <= i < j < r@.len() ==> r@[i].0 != r@[j].0,
    {
        let mut result: Vec<(ShortChannelIdDir, ShortChannelIdDirState)> = Vec::new();
        let idx = node_index_key(source);
        match self.graph.get(&idx) {
            Some(b) => {
                let mut j: usize = 0;
                while j < b.len()
                    invariant
                        self.wf(),
                        self.graph@.contains_key(idx),
                        b@ == self.graph@[idx]@,
                        idx == spec_node_index_key(*source),
                        j <= b@.len(),
                        forall|i: int|
                            0 <= i < result@.len() ==> {
                                &&& self@.contains_key(#[trigger] result@[i].0)
                                &&& self@[result@[i].0] == result@[i].1
                                &&& result@[i].1.source == *source
                                &&& edge_usable(
                                    result@[i].0,
                                    result@[i].1,
                                    two_weeks_ago,
                                    actual_candidates@,
                                    *my_pubkey,
                                    exclude_peers@,
                                    amount_msat,
                                    excepts@,
                                    liquidity@,
                                )
                            },
                        forall|i: int|
                            0 <= i < result@.len() ==> exists|t: int| 0 <= t < j && b@[t] == spec_scid_dir_key(#[trigger] result@[i].0),
                        forall|t: int|
                            #![trigger b@[t]]
                            0 <= t < j ==> {
                                let sd = spec_dir_of_key(b@[t]);
                                (self@[sd].source == *source && edge_usable(
                                    sd,
                                    self@[sd],
                                    two_weeks_ago,
                                    actual_candidates@,
                                    *my_pubkey,
                                    exclude_peers@,
                                    amount_msat,
                                    excepts@,
                                    liquidity@,
                                )) ==> exists|i: int| 0 <= i < result@.len() && result@[i].0 == sd
                            },
                        forall|i: int, k: int| 0 <= i < k < result@.len() ==> result@[i].0 != result@[k].0,
                    decreases b@.len() - j,
                {
                    let key = b[j];
                    let ghost r0 = result@;
                    proof {
                        assert(self.channels@.contains_key(b@[j as int]));
                        lemma_key_roundtrip(key);
                    }
                    let sd = ShortChannelIdDir {
                        short_channel_id: (key / 0x1_0000_0000) as u64,
                        direction: (key % 0x1_0000_0000) as u32,
                    };
                    assert(sd == spec_dir_of_key(key));
                    if let Some(st) = self.get_state(&sd) {
                        if st.source.same_as(source) && st.active && st.last_update >= two_weeks_ago
                            && !contains_scid_dir(excepts, &sd)
                            && st.htlc_minimum_msat <= amount_msat
                            && st.htlc_maximum_msat >= amount_msat
                            && !contains_key_bytes(exclude_peers, &st.source)
                            && !contains_key_bytes(exclude_peers, &st.destination)
                            && (if st.source.same_as(my_pubkey) || st.destination.same_as(my_pubkey) {
                            contains_scid(actual_candidates, sd.short_channel_id)
                        } else {
                            true
                        }) && match liquidity.get(&key) {
                            Some(liq) => liq.liquidity_msat >= amount_msat,
                            None => st.htlc_maximum_msat / 2 >= amount_msat,
                        } {
                            proof {
                                assert(st.source.0 == source.0);
                                assert forall|i: int| 0 <= i < result@.len() implies result@[i].0 != sd by {
                                    let t = choose|t: int| 0 <= t < j && b@[t] == spec_scid_dir_key(result@[i].0);
                                    if result@[i].0 == sd {
                                        assert(b@[t] == b@[j as int]);
                                    }
                                }
                                if st.source.0@ == my_pubkey.0@ {
                                    assert(st.source.0 == my_pubkey.0);
                                }
                                if st.destination.0@ == my_pubkey.0@ {
                                    assert(st.destination.0 == my_pubkey.0);
                                }
                            }
                            result.push((sd, st));
                        } else {
                            proof {
                                if st.source.0@ == source.0@ {
                                    assert(st.source.0 == source.0);
                                }
                                if st.source.0@ == my_pubkey.0@ {
                                    assert(st.source.0 == my_pubkey.0);
                                }
                                if st.destination.0@ == my_pubkey.0@ {
                                    assert(st.destination.0 == my_pubkey.0);
                                }
                            }
                        }
                    }
                    proof {
                        assert(result@ == r0 || result@ == r0.push((sd, self@[sd])));
                        assert(self@.contains_key(sd));
                        assert forall|t: int|
                            #![trigger b@[t]]
                            0 <= t < j + 1 implies {
                                let x = spec_dir_of_key(b@[t]);
                                (self@[x].source == *source && edge_usable(
                                    x,
                                    self@[x],
                                    two_weeks_ago,
                                    actual_candidates@,
                                    *my_pubkey,
                                    exclude_peers@,
                                    amount_msat,
                                    excepts@,
                                    liquidity@,
                                )) ==> exists|i: int| 0 <= i < result@.len() && result@[i].0 == x
                            } by {
                            let x = spec_dir_of_key(b@[t]);
                            if t < j {
                                if self@[x].source == *source && edge_usable(
                                    x,
                                    self@[x],
                                    two_weeks_ago,
                                    actual_candidates@,
                                    *my_pubkey,
                                    exclude_peers@,
                                    amount_msat,
                                    excepts@,
                                    liquidity@,
                                ) {
                                    let i = choose|i: int| 0 <= i < r0.len() && r0[i].0 == x;
                                    assert(result@[i] == r0[i]);
                                }
                            } else {
                                if result@ == r0.push((sd, self@[sd])) {
                                    assert(result@[r0.len() as int].0 == x);
                                }
                            }
                        }
                        assert forall|i: int|
                            0 <= i < result@.len() implies exists|t: int| 0 <= t < j + 1 && b@[t] == spec_scid_dir_key(#[trigger] result@[i].0) by {
                            if i < r0.len() {
                                assert(result@[i] == r0[i]);
                                let t = choose|t: int| 0 <= t < j && b@[t] == spec_scid_dir_key(r0[i].0);
                                assert(b@[t] == spec_scid_dir_key(result@[i].0));
                            } else {
                                assert(result@[i].0 == sd);
                                lemma_key_roundtrip(key);
                                assert(b@[j as int] == spec_scid_dir_key(result@[i].0));
                            }
                        }
                        assert forall|i: int| 0 <= i < result@.len() implies {
                            &&& self@.contains_key(#[trigger] result@[i].0)
                            &&& self@[result@[i].0] == result@[i].1
                            &&& result@[i].1.source == *source
                            &&& edge_usable(
                                result@[i].0,
                                result@[i].1,
                                two_weeks_ago,
                                actual_candidates@,
                                *my_pubkey,
                                exclude_peers@,
                                amount_msat,
                                excepts@,
                                liquidity@,
                            )
                        } by {
                            if i < r0.len() {
                                assert(result@[i] == r0[i]);
                            }
                        }
                    }
                    j = j + 1;
                }
                proof {
                    assert forall|sd: ShortChannelIdDir|
                        #![trigger self@[sd]]
                        self@.contains_key(sd) && self@[sd].source == *source && edge_usable(
                            sd,
                            self@[sd],
                            two_weeks_ago,
                            actual_candidates@,
                            *my_pubkey,
                            exclude_peers@,
                            amount_msat,
                            excepts@,
                            liquidity@,
                        ) implies exists|i: int| 0 <= i < result@.len() && result@[i].0 == sd by {
                        let k = spec_scid_dir_key(sd);
                        lemma_key_decode(sd);
                        assert(self.channels@.contains_key(k));
                        assert(self.graph@[idx]@.contains(k));
                        let t = choose|t: int| 0 <= t < b@.len() && b@[t] == k;
                        assert(spec_dir_of_key(b@[t]) == sd);
                    }
                }
            },
            None => {
                proof {
                    assert forall|sd: ShortChannelIdDir|
                        #![trigger self@[sd]]
                        self@.contains_key(sd) && self@[sd].source == *source implies false by {
                        let k = spec_scid_dir_key(sd);
                        assert(self.channels@.contains_key(k));
                    }
                }
            },
        }
        result
    }
}

/// Whether a channel may carry `amount_msat` in a route: active, updated
/// since `two_weeks_ago`, not excepted, its htlc limits admit the amount,
/// neither node excluded, a channel of our own only if it is a candidate,
/// and the liquidity believed in it (or else half its htlc maximum) covers
/// the amount.
pub open spec fn edge_usable(
    sd: ShortChannelIdDir,
    st: ShortChannelIdDirState,
    two_weeks_ago: u32,
    candidates: Seq<u64>,
    my_pubkey: PubKeyBytes,
    exclude_peers: Seq<PubKeyBytes>,
    amount_msat: u64,
    excepts: Seq<ShortChannelIdDir>,
    liquidity: Map<u128, Liquidity>,
) -> bool {
    &&& st.active
    &&& st.last_update >= two_weeks_ago
    &&& !excepts.contains(sd)
    &&& st.htlc_minimum_msat <= amount_msat
    &&& st.htlc_maximum_msat >= amount_msat
    &&& !exclude_peers.contains(st.source)
    &&& !exclude_peers.contains(st.destination)
    &&& ((st.source == my_pubkey || st.destination == my_pubkey) ==> candidates.contains(
        sd.short_channel_id,
    ))
    &&& if liquidity.contains_key(spec_scid_dir_key(sd)) {
        liquidity[spec_scid_dir_key(sd)].liquidity_msat >= amount_msat
    } else {
        st.htlc_maximum_msat / 2 >= amount_msat
    }
}

proof fn lemma_push_to_set<A>(s: Seq<A>, x: A)
    ensures
        s.push(x).to_set() == s.to_set().insert(x),
{
    assert forall|y: A| s.push(x).to_set().contains(y) <==> s.to_set().insert(x).contains(y) by {
        if s.push(x).contains(y) {
            let t = choose|t: int| 0 <= t < s.push(x).len() && s.push(x)[t] == y;
            if t < s.len() {
                assert(s[t] == y);
            }
        }
        if s.contains(y) {
            let t = choose|t: int| 0 <= t < s.len() && s[t] == y;
            assert(s.push(x)[t] == y);
        }
        if y == x {
            assert(s.push(x)[s.len() as int] == y);
        }
    }
    assert(s.push(x).to_set() =~= s.to_set().insert(x));
}

/// The states that the complete builders among `upd` finish to.
pub open spec fn built_states(
    b: Map<ShortChannelIdDir, ShortChannelIdDirStateBuilder>,
    upd: Set<ShortChannelIdDir>,
) -> Map<ShortChannelIdDir, ShortChannelIdDirState> {
    Map::new(
        |sd: ShortChannelIdDir| upd.contains(sd) && b.contains_key(sd) && spec_build(b[sd]) is Some,
        |sd: ShortChannelIdDir| spec_build(b[sd])->0,
    )
}

/// Directed channels that the gossip has described only in part, and which
/// of them changed since the graph was last brought up to date.
pub struct IncompleteChannels {
    incomplete_channels: HashMap<u128, ShortChannelIdDirStateBuilder>,
    updated_channels: Vec<ShortChannelIdDir>,
}

impl View for IncompleteChannels {
    type V = Map<ShortChannelIdDir, ShortChannelIdDirStateBuilder>;

    closed spec fn view(&self) -> Map<ShortChannelIdDir, ShortChannelIdDirStateBuilder> {
        Map::new(
            |sd: ShortChannelIdDir| self.incomplete_channels@.contains_key(spec_scid_dir_key(sd)),
            |sd: ShortChannelIdDir| self.incomplete_channels@[spec_scid_dir_key(sd)],
        )
    }
}

impl IncompleteChannels {
    /// The channels touched since the last `update_graph`.
    pub closed spec fn updated(&self) -> Set<ShortChannelIdDir> {
        self.updated_channels@.to_set()
    }

    pub closed spec fn wf(&self) -> bool {
        &&& forall|k: u128| #[trigger]
            self.incomplete_channels@.contains_key(k) ==> k < 0x1_0000_0000_0000_0000_0000_0000
        &&& self.updated_channels@.no_duplicates()
    }

    pub fn new() -> (r: Self)
        ensures
            r.wf(),
            r@ == Map::<ShortChannelIdDir, ShortChannelIdDirStateBuilder>::empty(),
            r.updated() == Set::<ShortChannelIdDir>::empty(),
    {
        let r = IncompleteChannels { incomplete_channels: HashMap::new(), updated_channels: Vec::new() };
        assert(r@ =~= Map::<ShortChannelIdDir, ShortChannelIdDirStateBuilder>::empty());
        assert(r.updated() =~= Set::<ShortChannelIdDir>::empty());
        r
    }

    /// Number of incomplete channels.
    pub fn len(&self) -> (r: usize)
        requires
            self.wf(),
        ensures
            r == self@.dom().len(),
    {
        proof {
            let x = self.incomplete_channels@.dom();
            let f = |k: u128| spec_dir_of_key(k);
            assert forall|a: u128, c: u128| x.contains(a) && x.contains(c) && #[trigger] f(a) == #[trigger] f(c) implies a == c by {
                lemma_key_roundtrip(a);
                lemma_key_roundtrip(c);
            }
            assert(vstd::relations::injective_on(f, x));
            assert forall|sd: ShortChannelIdDir| #[trigger] x.map(f).contains(sd) <==> self@.dom().contains(sd) by {
                lemma_key_decode(sd);
                if x.map(f).contains(sd) {
                    let k = choose|k: u128| x.contains(k) && f(k) == sd;
                    lemma_key_roundtrip(k);
                }
                if self@.dom().contains(sd) {
                    assert(x.contains(spec_scid_dir_key(sd)));
                    assert(f(spec_scid_dir_key(sd)) == sd);
                }
            }
            assert(x.map(f) =~= self@.dom());
            vstd::set_lib::lemma_map_size(x, self@.dom(), f);
        }
        self.incomplete_channels.len()
    }

    /// Marks `sd` as changed.
    fn mark(&mut self, sd: ShortChannelIdDir)
        requires
            old(self).wf(),
        ensures
            final(self).wf(),
            final(self).incomplete_channels@ == old(self).incomplete_channels@,
            final(self).updated() == old(self).updated().insert(sd),
    {
        if !contains_scid_dir(self.updated_channels.as_slice(), &sd) {
            let ghost before = self.updated_channels@;
            self.updated_channels.push(sd);
            proof {
                assert(self.updated_channels@ == before.push(sd));
                assert forall|a: int, c: int| 0 <= a < self.updated_channels@.len() && 0 <= c < self.updated_channels@.len() && a != c implies self.updated_channels@[a] != self.updated_channels@[c] by {
                    if a == before.len() {
                        assert(before.contains(self.updated_channels@[c]) || c == a);
                    } else if c == before.len() {
                        assert(before.contains(self.updated_channels@[a]));
                    }
                }
                lemma_push_to_set(before, sd);
            }
        } else {
            proof {
                assert(self.updated_channels@.to_set() =~= self.updated_channels@.to_set().insert(sd));
            }
        }
    }

    /// The builder of `sd`, if there is one; it is then marked as changed,
    /// as its caller is about to change it.
    pub fn get(&mut self, scid_dir: &ShortChannelIdDir) -> (r: Option<ShortChannelIdDirStateBuilder>)
        requires
            old(self).wf(),
        ensures
            final(self).wf(),
            final(self)@ == old(self)@,
            r == (if old(self)@.contains_key(*scid_dir) {
                Some(old(self)@[*scid_dir])
            } else {
                None
            }),
            final(self).updated() == (if old(self)@.contains_key(*scid_dir) {
                old(self).updated().insert(*scid_dir)
            } else {
                old(self).updated()
            }),
    {
        let key = scid_dir_key(scid_dir);
        match self.incomplete_channels.get(&key) {
            Some(b) => {
                let r = *b;
                self.mark(*scid_dir);
                assert(self@ =~= old(self)@);
                Some(r)
            },
            None => None,
        }
    }

    /// Files a builder under `sd` and marks it as changed; returns the
    /// builder it replaced.
    pub fn insert(&mut self, scid_dir: ShortChannelIdDir, dir_chan_state: ShortChannelIdDirStateBuilder) -> (r: Option<ShortChannelIdDirStateBuilder>)
        requires
            old(self).wf(),
        ensures
            final(self).wf(),
            final(self)@ == old(self)@.insert(scid_dir, dir_chan_state),
            final(self).updated() == old(self).updated().insert(scid_dir),
            r == (if old(self)@.contains_key(scid_dir) {
                Some(old(self)@[scid_dir])
            } else {
                None
            }),
    {
        self.mark(scid_dir);
        let key = scid_dir_key(&scid_dir);
        proof {
            lemma_key_decode(scid_dir);
        }
        let r = self.incomplete_channels.insert(key, dir_chan_state);
        proof {
            assert forall|sd: ShortChannelIdDir| #[trigger] self@.contains_key(sd) == old(self)@.insert(scid_dir, dir_chan_state).contains_key(sd) by {
                lemma_key_decode(sd);
            }
            assert(self@ =~= old(self)@.insert(scid_dir, dir_chan_state));
        }
        r
    }

    /// Drops the builder of `sd` and its mark; returns the builder.
    pub fn remove(&mut self, scid_dir: &ShortChannelIdDir) -> (r: Option<ShortChannelIdDirStateBuilder>)
        requires
            old(self).wf(),
        ensures
            final(self).wf(),
            final(self)@ == old(self)@.remove(*scid_dir),
            final(self).updated() == old(self).updated().remove(*scid_dir),
            r == (if old(self)@.contains_key(*scid_dir) {
                Some(old(self)@[*scid_dir])
            } else {
                None
            }),
    {
        let mut j: usize = 0;
        let mut pos: Option<usize> = None;
        while j < self.updated_channels.len()
            invariant
                j <= self.updated_channels@.len(),
                self.updated_channels@ == old(self).updated_channels@,
                self.incomplete_channels@ == old(self).incomplete_channels@,
                match pos {
                    Some(p) => p < self.updated_channels@.len() && self.updated_channels@[p as int] == *scid_dir,
                    None => forall|t: int| 0 <= t < j ==> self.updated_channels@[t] != *scid_dir,
                },
            decreases self.updated_channels@.len() - j,
        {
            let e = self.updated_channels[j];
            if e.short_channel_id == scid_dir.short_channel_id && e.direction == scid_dir.direction {
                pos = Some(j);
            }
            j = j + 1;
        }
        let ghost before = self.updated_channels@;
        if let Some(p) = pos {
            self.updated_channels.remove(p);
            proof {
                let nb = self.updated_channels@;
                assert forall|k: ShortChannelIdDir| nb.contains(k) <==> (before.contains(k) && k != *scid_dir) by {
                    if nb.contains(k) {
                        let t = choose|t: int| 0 <= t < nb.len() && nb[t] == k;
                        if t < p {
                            assert(before[t] == k);
                        } else {
                            assert(before[t + 1] == k);
                        }
                    }
                    if before.contains(k) && k != *scid_dir {
                        let t = choose|t: int| 0 <= t < before.len() && before[t] == k;
                        if t < p {
                            assert(nb[t] == k);
                        } else {
                            assert(t != p);
                            assert(nb[t - 1] == k);
                        }
                    }
                }
                assert forall|a: int, c: int| 0 <= a < nb.len() && 0 <= c < nb.len() && a != c implies nb[a] != nb[c] by {
                    let a2 = if a < p { a } else { a + 1 };
                    let c2 = if c < p { c } else { c + 1 };
                    assert(nb[a] == before[a2]);
                    assert(nb[c] == before[c2]);
                }
                assert(nb.to_set() =~= before.to_set().remove(*scid_dir));
            }
        } else {
            proof {
                assert(before.to_set() =~= before.to_set().remove(*scid_dir));
            }
        }
        let key = scid_dir_key(scid_dir);
        proof {
            lemma_key_decode(*scid_dir);
        }
        let r = self.incomplete_channels.remove(&key);
        proof {
            assert forall|sd: ShortChannelIdDir| #[trigger] self@.contains_key(sd) == old(self)@.remove(*scid_dir).contains_key(sd) by {
                lemma_key_decode(sd);
            }
            assert(self@ =~= old(self)@.remove(*scid_dir));
        }
        r
    }

    /// Moves every changed builder that is now complete into the graph, as
    /// the state it finishes to, and forgets the marks.
    pub fn update_graph(&mut self, graph: &mut LnGraph)
        requires
            old(self).wf(),
            old(graph).wf(),
        ensures
            final(self).wf(),
            final(graph).wf(),
            final(self).updated() == Set::<ShortChannelIdDir>::empty(),
            final(graph)@ == old(graph)@.union_prefer_right(built_states(old(self)@, old(self).updated())),
            final(self)@ == old(self)@.remove_keys(built_states(old(self)@, old(self).updated()).dom()),
    {
        let ghost b0 = self@;
        let ghost upd = self.updated();
        let ghost g0 = graph@;
        let mut j: usize = 0;
        while j < self.updated_channels.len()
            invariant
                self.wf(),
                graph.wf(),
                j <= self.updated_channels@.len(),
                self.updated_channels@.to_set() == upd,
                ({
                    let done = self.updated_channels@.take(j as int).to_set();
                    &&& graph@ == g0.union_prefer_right(built_states(b0, done))
                    &&& self@ == b0.remove_keys(built_states(b0, done).dom())
                }),
            decreases self.updated_channels@.len() - j,
        {
            let sd = self.updated_channels[j];
            let key = scid_dir_key(&sd);
            proof {
                lemma_key_decode(sd);
            }
            let ghost done0 = self.updated_channels@.take(j as int).to_set();
            let ghost done1 = self.updated_channels@.take(j + 1).to_set();
            proof {
                assert(self.updated_channels@.take(j + 1) =~= self.updated_channels@.take(j as int).push(sd));
                lemma_push_to_set(self.updated_channels@.take(j as int), sd);
                assert(done1 =~= done0.insert(sd));
                assert(!done0.contains(sd)) by {
                    if done0.contains(sd) {
                        let t = choose|t: int| 0 <= t < j && self.updated_channels@.take(j as int)[t] == sd;
                        assert(self.updated_channels@[t] == self.updated_channels@[j as int]);
                    }
                }
            }
            let ghost v0 = self@;
            match self.incomplete_channels.remove(&key) {
                Some(b) => {
                    proof {
                        assert(v0.contains_key(sd) && v0[sd] == b);
                    }
                    match b.build() {
                        BuildResult::Success(st) => {
                            graph.insert(sd, st);
                            proof {
                                assert(b0.contains_key(sd) && b0[sd] == b);
                                assert(built_states(b0, done1) =~= built_states(b0, done0).insert(sd, st));
                                assert(graph@ =~= g0.union_prefer_right(built_states(b0, done1)));
                                assert forall|x: ShortChannelIdDir| #[trigger] self@.contains_key(x) == v0.remove(sd).contains_key(x) by {
                                    lemma_key_decode(x);
                                }
                                assert(self@ =~= v0.remove(sd));
                                assert(built_states(b0, done1).dom() =~= built_states(b0, done0).dom().insert(sd));
                                assert(self@ =~= b0.remove_keys(built_states(b0, done1).dom()));
                            }
                        },
                        BuildResult::Failure(back) => {
                            self.incomplete_channels.insert(key, back);
                            proof {
                                assert(spec_build(b) is None);
                                assert(back == b);
                                assert forall|x: ShortChannelIdDir| #[trigger] self@.contains_key(x) == v0.contains_key(x) by {
                                    lemma_key_decode(x);
                                }
                                assert(self@ =~= v0);
                                assert(built_states(b0, done1) =~= built_states(b0, done0));
                                assert forall|x: ShortChannelIdDir| #[trigger] self@.contains_key(x) == b0.remove_keys(built_states(b0, done1).dom()).contains_key(x) by {
                                    lemma_key_decode(x);
                                }
                                assert(self@ =~= b0.remove_keys(built_states(b0, done1).dom()));
                            }
                        },
                    }
                },
                None => {
                    proof {
                        assert(!v0.contains_key(sd));
                        assert(!built_states(b0, done0).dom().contains(sd));
                        assert(!b0.contains_key(sd));
                        assert(built_states(b0, done1) =~= built_states(b0, done0));
                    }
                },
            }
            j = j + 1;
        }
        proof {
            assert(self.updated_channels@.take(j as int) =~= self.updated_channels@);
        }
        self.updated_channels.clear();
        proof {
            assert(self.updated() =~= Set::<ShortChannelIdDir>::empty());
        }
    }
}

/// One side's forwarding policy of one of our channels, as our node
/// reports it.
#[derive(Debug, Clone, Copy)]
pub struct LocalPolicy {
    pub fee_proportional_millionths: u32,
    pub fee_base_msat: u64,
    pub htlc_minimum_msat: u64,
    pub htlc_maximum_msat: u64,
    pub cltv_expiry_delta: u32,
}

/// The state of one direction of one of our private channels, from `src`
/// to `dst` under the alias `alias`, with the policy `p`; its base fee is
/// cut to 32 bits.
pub open spec fn spec_private_state(
    src: PubKeyBytes,
    dst: PubKeyBytes,
    connected: bool,
    alias: u64,
    p: LocalPolicy,
    stamp: u32,
) -> ShortChannelIdDirState {
    ShortChannelIdDirState {
        source: src,
        destination: dst,
        active: connected,
        scid_alias: Some(alias),
        fee_per_millionth: p.fee_proportional_millionths,
        base_fee_millisatoshi: p.fee_base_msat as u32,
        htlc_maximum_msat: p.htlc_maximum_msat,
        htlc_minimum_msat: p.htlc_minimum_msat,
        delay: p.cltv_expiry_delta,
        last_update: stamp,
        private: true,
    }
}

/// The graph entries that one of our channels adds: none unless it is
/// private, in normal state and both its policies are known; then our
/// direction under our alias and the peer's, the opposite direction, under
/// the peer's alias.
pub open spec fn spec_private_states(
    private: Option<bool>,
    normal: bool,
    short_channel_id: u64,
    direction: u32,
    me: PubKeyBytes,
    peer: PubKeyBytes,
    connected: bool,
    local_alias: u64,
    remote_alias: u64,
    local: LocalPolicy,
    remote: Option<LocalPolicy>,
    stamp: u32,
) -> Seq<(ShortChannelIdDir, ShortChannelIdDirState)> {
    if private == Some(true) && normal && remote is Some {
        seq![
            (
                ShortChannelIdDir { short_channel_id, direction },
                spec_private_state(me, peer, connected, local_alias, local, stamp),
            ),
            (
                ShortChannelIdDir { short_channel_id, direction: direction ^ 1 },
                spec_private_state(peer, me, connected, remote_alias, remote->0, stamp),
            ),
        ]
    } else {
        seq![]
    }
}

fn private_state(
    src: PubKeyBytes,
    dst: PubKeyBytes,
    connected: bool,
    alias: u64,
    p: LocalPolicy,
    stamp: u32,
) -> (r: ShortChannelIdDirState)
    ensures
        r == spec_private_state(src, dst, connected, alias, p, stamp),
{
    ShortChannelIdDirState {
        source: src,
        destination: dst,
        active: connected,
        scid_alias: Some(alias),
        fee_per_millionth: p.fee_proportional_millionths,
        base_fee_millisatoshi: p.fee_base_msat as u32,
        htlc_maximum_msat: p.htlc_maximum_msat,
        htlc_minimum_msat: p.htlc_minimum_msat,
        delay: p.cltv_expiry_delta,
        last_update: stamp,
        private: true,
    }
}

/// The graph entries that one of our channels adds (see
/// `spec_private_states`).
pub fn private_states(
    private: Option<bool>,
    normal: bool,
    short_channel_id: u64,
    direction: u32,
    me: PubKeyBytes,
    peer: PubKeyBytes,
    connected: bool,
    local_alias: u64,
    remote_alias: u64,
    local: LocalPolicy,
    remote: Option<LocalPolicy>,
    stamp: u32,
) -> (r: Vec<(ShortChannelIdDir, ShortChannelIdDirState)>)
    ensures
        r@ == spec_private_states(
            private,
            normal,
            short_channel_id,
            direction,
            me,
            peer,
            connected,
            local_alias,
            remote_alias,
            local,
            remote,
            stamp,
        ),
{
    let mut out: Vec<(ShortChannelIdDir, ShortChannelIdDirState)> = Vec::new();
    let is_private = match private {
        Some(b) => b,
        None => false,
    };
    if !is_private || !normal {
        return out;
    }
    match remote {
        Some(rp) => {
            out.push(
                (
                    ShortChannelIdDir { short_channel_id, direction },
                    private_state(me, peer, connected, local_alias, local, stamp),
                ),
            );
            out.push(
                (
                    ShortChannelIdDir { short_channel_id, direction: direction ^ 1 },
                    private_state(peer, me, connected, remote_alias, rp, stamp),
                ),
            );
            proof {
                assert(out@ =~= spec_private_states(private, normal, short_channel_id, direction, me, peer, connected, local_alias, remote_alias, local, remote, stamp));
            }
            out
        },
        None => out,
    }
}

} // verus!
