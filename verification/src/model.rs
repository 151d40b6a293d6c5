//! Plain data of the plugin: node keys, channel directions, task identities
//! and the small enums the jobs report.
use vstd::prelude::*;

verus! {

/// A compressed secp256k1 public key, as its 33 serialized bytes.
#[derive(Debug, Clone, Copy, PartialEq, Eq, Hash)]
pub struct PubKeyBytes(pub [u8; 33]);

/// The bytes of a key.
pub open spec fn key_bytes(k: PubKeyBytes) -> Seq<u8> {
    k.0@
}

/// What `secp256k1::PublicKey::from_str` followed by `serialize` gives for
/// a text: the compressed key, or nothing when the text is no valid key.
pub uninterp spec fn pubkey_of_text(s: Seq<char>) -> Option<PubKeyBytes>;

/// Lexicographic order of byte strings of equal length: the first byte in
/// which they differ is smaller in `a`.
pub open spec fn bytes_lt(a: Seq<u8>, b: Seq<u8>) -> bool {
    exists|i: int|
        0 <= i < a.len() && i < b.len() && a.take(i) == b.take(i) && #[trigger] a[i] < b[i]
}

impl PubKeyBytes {
    pub fn new(bytes: [u8; 33]) -> (r: PubKeyBytes)
        ensures
            r.0 == bytes,
    {
        PubKeyBytes(bytes)
    }

    /// Reads a node id (33 bytes in hex) with secp256k1; `None` when the
    /// text is no valid public key.
    #[verifier::external_body]
    pub fn from_str(s: &str) -> (r: Option<PubKeyBytes>)
        ensures
            r == pubkey_of_text(s@),
    {
        match <bitcoin::secp256k1::PublicKey as std::str::FromStr>::from_str(s) {
            Ok(k) => Some(PubKeyBytes(k.serialize())),
            Err(_) => None,
        }
    }

    /// Byte-wise equality of two keys.
    pub fn same_as(&self, other: &PubKeyBytes) -> (r: bool)
        ensures
            r == (self.0@ == other.0@),
            r == (*self == *other),
    {
        let mut i: usize = 0;
        while i < 33
            invariant
                i <= 33,
                self.0@.len() == 33,
                other.0@.len() == 33,
                forall|j: int| 0 <= j < i ==> self.0@[j] == other.0@[j],
            decreases 33 - i,
        {
            if self.0[i] != other.0[i] {
                return false;
            }
            i = i + 1;
        }
        assert(self.0@ =~= other.0@);
        assert(self.0 == other.0);
        true
    }

    /// Lexicographic order of the serialized keys (the order of public keys).
    pub fn less_than(&self, other: &PubKeyBytes) -> (r: bool)
        ensures
            r == bytes_lt(self.0@, other.0@),
    {
        let mut i: usize = 0;
        while i < 33
            invariant
                i <= 33,
                self.0@.len() == 33,
                other.0@.len() == 33,
                self.0@.take(i as int) == other.0@.take(i as int),
            decreases 33 - i,
        {
            if self.0[i] != other.0[i] {
                let r = self.0[i] < other.0[i];
                proof {
                    if !r {
                        assert forall|k: int|
                            0 <= k < 33 && self.0@.take(k) == other.0@.take(k) implies !(
                        #[trigger] self.0@[k] < other.0@[k]) by {
                            if k < i {
                                assert(self.0@.take(i as int)[k] == self.0@[k]);
                                assert(other.0@.take(i as int)[k] == other.0@[k]);
                            } else if k > i {
                                assert(self.0@.take(k)[i as int] == self.0@[i as int]);
                                assert(other.0@.take(k)[i as int] == other.0@[i as int]);
                            }
                        }
                    }
                }
                return r;
            }
            proof {
                assert(self.0@.take(i + 1) =~= self.0@.take(i as int).push(self.0@[i as int]));
                assert(other.0@.take(i + 1) =~= other.0@.take(i as int).push(other.0@[i as int]));
            }
            i = i + 1;
        }
        proof {
            assert(self.0@ =~= other.0@) by {
                assert(self.0@.take(33) =~= self.0@);
                assert(other.0@.take(33) =~= other.0@);
            }
        }
        false
    }
}

/// The key under which a node is filed in the graph's index: bytes 1..9
/// of its serialized key (byte 0 only carries the parity of the point).
pub open spec fn spec_node_index_key(k: PubKeyBytes) -> u64 {
    ((k.0[1] as u64) * 0x100_0000_0000_0000 + (k.0[2] as u64) * 0x1_0000_0000_0000 + (k.0[3] as u64)
        * 0x100_0000_0000 + (k.0[4] as u64) * 0x1_0000_0000 + (k.0[5] as u64) * 0x100_0000 + (
    k.0[6] as u64) * 0x1_0000 + (k.0[7] as u64) * 0x100 + (k.0[8] as u64)) as u64
}

pub fn node_index_key(k: &PubKeyBytes) -> (r: u64)
    ensures
        r == spec_node_index_key(*k),
{
    (k.0[1] as u64) * 0x100_0000_0000_0000 + (k.0[2] as u64) * 0x1_0000_0000_0000 + (k.0[3] as u64)
        * 0x100_0000_0000 + (k.0[4] as u64) * 0x1_0000_0000 + (k.0[5] as u64) * 0x100_0000 + (
    k.0[6] as u64) * 0x1_0000 + (k.0[7] as u64) * 0x100 + (k.0[8] as u64)
}

/// A channel (its short channel id) in one of its two directions.
#[derive(Debug, Clone, Copy, PartialEq, Eq, Hash, Structural)]
pub struct ShortChannelIdDir {
    pub short_channel_id: u64,
    pub direction: u32,
}

/// The integer under which a directed channel is filed.
pub open spec fn spec_scid_dir_key(sd: ShortChannelIdDir) -> u128 {
    ((sd.short_channel_id as u128) * 0x1_0000_0000 + (sd.direction as u128)) as u128
}

pub fn scid_dir_key(sd: &ShortChannelIdDir) -> (r: u128)
    ensures
        r == spec_scid_dir_key(*sd),
{
    (sd.short_channel_id as u128) * 0x1_0000_0000 + (sd.direction as u128)
}

/// Distinct directed channels are filed under distinct integers.
pub proof fn lemma_scid_dir_key_injective(a: ShortChannelIdDir, b: ShortChannelIdDir)
    ensures
        spec_scid_dir_key(a) == spec_scid_dir_key(b) <==> a == b,
{
}

/// The directed channel that is filed under `key`.
pub fn scid_dir_from_key(key: u128) -> (sd: ShortChannelIdDir)
    requires
        key < 0x1_0000_0000_0000_0000_0000_0000,
    ensures
        spec_scid_dir_key(sd) == key,
{
    let scid: u64 = (key / 0x1_0000_0000) as u64;
    let dir: u32 = (key % 0x1_0000_0000) as u32;
    ShortChannelIdDir { short_channel_id: scid, direction: dir }
}

/// Both directions of a channel.
pub fn both_directions(scid: u64) -> (r: (ShortChannelIdDir, ShortChannelIdDir))
    ensures
        r.0 == (ShortChannelIdDir { short_channel_id: scid, direction: 0 }),
        r.1 == (ShortChannelIdDir { short_channel_id: scid, direction: 1 }),
{
    (
        ShortChannelIdDir { short_channel_id: scid, direction: 0 },
        ShortChannelIdDir { short_channel_id: scid, direction: 1 },
    )
}

/// The block height in which the funding transaction of a channel confirmed:
/// the top 24 bits of its short channel id.
pub open spec fn spec_scid_block(scid: u64) -> u32 {
    ((scid / 0x100_0000_0000) % 0x100_0000) as u32
}

pub fn scid_block(scid: u64) -> (r: u32)
    ensures
        r == spec_scid_block(scid),
{
    ((scid / 0x100_0000_0000) % 0x100_0000) as u32
}

/// Which of a channel's tasks: the channel and the task's number.
#[derive(Debug, Clone, Copy, PartialEq, Eq, PartialOrd, Ord, Hash, Structural)]
pub struct TaskIdentifier {
    pub short_channel_id: u64,
    pub task_id: u16,
}

impl TaskIdentifier {
    pub fn new(short_channel_id: u64, task_id: u16) -> (r: TaskIdentifier)
        ensures
            r.short_channel_id == short_channel_id,
            r.task_id == task_id,
    {
        TaskIdentifier { short_channel_id, task_id }
    }

    pub fn get_chan_id(&self) -> (r: u64)
        ensures
            r == self.short_channel_id,
    {
        self.short_channel_id
    }

    pub fn get_task_id(&self) -> (r: u16)
        ensures
            r == self.task_id,
    {
        self.task_id
    }
}

/// The latest state that a task reports.
#[derive(Debug, Clone, Copy, PartialEq, Eq, Structural)]
pub enum JobMessage {
    Starting,
    Rebalancing,
    Balanced,
    NoCandidates,
    HTLCcapped,
    Disconnected,
    PeerNotFound,
    PeerNotReady,
    PeerBad,
    ChanNotNormal,
    GraphEmpty,
    ChanNotInGraph,
    NoRoute,
    TooExp,
    Stopping,
    Stopped,
    Error,
    NotStarted,
}

/// The text shown for each state.
pub open spec fn job_message_text(m: JobMessage) -> Seq<char> {
    match m {
        JobMessage::Starting => "Starting"@,
        JobMessage::Rebalancing => "Rebalancing"@,
        JobMessage::Balanced => "Balanced"@,
        JobMessage::NoCandidates => "NoCandidates"@,
        JobMessage::HTLCcapped => "HTLCcapped"@,
        JobMessage::Disconnected => "Disconnected"@,
        JobMessage::PeerNotFound => "PeerNotFound"@,
        JobMessage::PeerNotReady => "PeerNotReady"@,
        JobMessage::PeerBad => "PeerBad"@,
        JobMessage::ChanNotNormal => "ChanNotNormal"@,
        JobMessage::GraphEmpty => "GraphEmpty"@,
        JobMessage::ChanNotInGraph => "ChanNotInGraph"@,
        JobMessage::NoRoute => "NoRoutes"@,
        JobMessage::TooExp => "NoCheapRoute"@,
        JobMessage::Stopping => "Stopping"@,
        JobMessage::Stopped => "Stopped"@,
        JobMessage::Error => "Error"@,
        JobMessage::NotStarted => "NotStarted"@,
    }
}

impl JobMessage {
    /// The text shown for a state.
    pub fn as_str(&self) -> (r: &'static str)
        ensures
            r@ == job_message_text(*self),
    {
        match self {
            JobMessage::Starting => "Starting",
            JobMessage::Rebalancing => "Rebalancing",
            JobMessage::Balanced => "Balanced",
            JobMessage::NoCandidates => "NoCandidates",
            JobMessage::HTLCcapped => "HTLCcapped",
            JobMessage::Disconnected => "Disconnected",
            JobMessage::PeerNotFound => "PeerNotFound",
            JobMessage::PeerNotReady => "PeerNotReady",
            JobMessage::PeerBad => "PeerBad",
            JobMessage::ChanNotNormal => "ChanNotNormal",
            JobMessage::GraphEmpty => "GraphEmpty",
            JobMessage::ChanNotInGraph => "ChanNotInGraph",
            JobMessage::NoRoute => "NoRoutes",
            JobMessage::TooExp => "NoCheapRoute",
            JobMessage::Stopping => "Stopping",
            JobMessage::Stopped => "Stopped",
            JobMessage::Error => "Error",
            JobMessage::NotStarted => "NotStarted",
        }
    }
}

/// What the plugin believes a directed channel can forward, and when it
/// learned it (seconds since the epoch).
#[derive(Debug, Clone, Copy, PartialEq, Eq, Structural)]
pub struct Liquidity {
    pub liquidity_msat: u64,
    pub liquidity_age: u64,
}

/// The fields of a `channel_update` gossip message that the graph keeps.
#[derive(Debug, Clone, Copy, PartialEq, Eq, Structural)]
pub struct ChannelUpdate {
    pub active: bool,
    pub last_update: u32,
    pub base_fee_millisatoshi: u32,
    pub fee_per_millionth: u32,
    pub delay: u32,
    pub htlc_minimum_msat: u64,
    pub htlc_maximum_msat: u64,
}

/// The two nodes of a `channel_announcement` gossip message.
#[derive(Debug, Clone, Copy, PartialEq, Eq)]
pub struct ChannelAnnouncement {
    pub source: PubKeyBytes,
    pub destination: PubKeyBytes,
}

/// Where to continue after the gossip store was compacted into a new file.
#[derive(Debug, Clone, Copy, PartialEq, Eq)]
pub struct NextGossipStore {
    pub equivalent_offset: u64,
    pub uuid: [u8; 32],
}

/// Status of a payment in a `waitsendpay` error.
#[derive(Debug, Clone, Copy, PartialEq, Eq, Structural)]
pub enum WaitsendpayErrorStatus {
    Pending,
    Failed,
}

impl WaitsendpayErrorStatus {
    /// The status for its numeric code: 1 is pending, -1 failed; any other
    /// code is refused and handed back.
    pub fn try_from(c: i32) -> (r: Result<WaitsendpayErrorStatus, i32>)
        ensures
            c == 1 ==> r == Ok::<WaitsendpayErrorStatus, i32>(WaitsendpayErrorStatus::Pending),
            c == -1 ==> r == Ok::<WaitsendpayErrorStatus, i32>(WaitsendpayErrorStatus::Failed),
            c != 1 && c != -1 ==> r == Err::<WaitsendpayErrorStatus, i32>(c),
    {
        if c == 1 {
            Ok(WaitsendpayErrorStatus::Pending)
        } else if c == -1 {
            Ok(WaitsendpayErrorStatus::Failed)
        } else {
            Err(c)
        }
    }
}

/// How often rebalances failed for one reason.
#[derive(Debug, Clone, PartialEq, Eq)]
pub struct FailureReasonCount {
    pub failure_reason: String,
    pub failure_count: u32,
}

/// Whether a list of keys holds `k`.
pub fn contains_key_bytes(keys: &[PubKeyBytes], k: &PubKeyBytes) -> (r: bool)
    ensures
        r == keys@.contains(*k),
{
    let mut i: usize = 0;
    while i < keys.len()
        invariant
            i <= keys@.len(),
            forall|t: int| 0 <= t < i ==> keys@[t] != *k,
        decreases keys@.len() - i,
    {
        if keys[i].same_as(k) {
            proof {
                assert(keys@[i as int].0 == k.0);
            }
            return true;
        }
        proof {
            if keys@[i as int] == *k {
                assert(keys@[i as int].0@ == k.0@);
            }
        }
        i = i + 1;
    }
    false
}

/// Whether a list of short channel ids holds `scid`.
pub fn contains_scid(scids: &[u64], scid: u64) -> (r: bool)
    ensures
        r == scids@.contains(scid),
{
    let mut i: usize = 0;
    while i < scids.len()
        invariant
            i <= scids@.len(),
            forall|t: int| 0 <= t < i ==> scids@[t] != scid,
        decreases scids@.len() - i,
    {
        if scids[i] == scid {
            return true;
        }
        i = i + 1;
    }
    false
}

/// Whether a list of directed channels holds `sd`.
pub fn contains_scid_dir(list: &[ShortChannelIdDir], sd: &ShortChannelIdDir) -> (r: bool)
    ensures
        r == list@.contains(*sd),
{
    let mut i: usize = 0;
    while i < list.len()
        invariant
            i <= list@.len(),
            forall|t: int| 0 <= t < i ==> list@[t] != *sd,
        decreases list@.len() - i,
    {
        if list[i].short_channel_id == sd.short_channel_id && list[i].direction == sd.direction {
            return true;
        }
        i = i + 1;
    }
    false
}

/// What the logic reads of one of our channels as `listpeerchannels`
/// reports it.
#[derive(Debug, Clone, Copy)]
pub struct PeerChannel {
    pub short_channel_id: Option<u64>,
    pub direction: Option<u32>,
    pub peer_id: PubKeyBytes,
    pub peer_connected: bool,
    /// In state `CHANNELD_NORMAL` or `CHANNELD_AWAITING_SPLICE`.
    pub normal: bool,
    pub private: Option<bool>,
    pub total_msat: u64,
    pub to_us_msat: u64,
    pub spendable_msat: u64,
    pub receivable_msat: u64,
    pub their_reserve_msat: u64,
    pub our_reserve_msat: u64,
    pub fee_base_msat: u64,
    pub fee_proportional_millionths: u32,
    /// The partner's fees, from the channel's remote update, if known.
    pub remote_fee_base_msat: Option<u64>,
    pub remote_fee_proportional_millionths: Option<u32>,
    pub htlc_count: u64,
    pub local_alias: Option<u64>,
    pub remote_alias: Option<u64>,
}

/// A rebalance that went through, as the statistics keep it.
#[derive(Debug, Clone, Copy, PartialEq, Eq, Structural)]
pub struct SuccessReb {
    pub amount_msat: u64,
    pub fee_ppm: u32,
    pub channel_partner: u64,
    pub hops: u8,
    pub completed_at: u64,
}

/// A rebalance that failed, as the statistics keep it.
#[derive(Debug, Clone)]
pub struct FailureReb {
    pub amount_msat: u64,
    pub failure_reason: String,
    pub failure_node: PubKeyBytes,
    pub channel_partner: u64,
    pub hops: u8,
    pub created_at: u64,
}

/// What the logic reads of the data of a failed `waitsendpay`.
#[derive(Debug, Clone)]
pub struct WaitsendpayErrorData {
    pub amount_msat: Option<u64>,
    pub created_at: u64,
    pub erring_node: PubKeyBytes,
    pub erring_channel: u64,
    pub erring_direction: u8,
    pub failcodename: String,
}

} // verus!
