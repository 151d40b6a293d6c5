//! Reading Core Lightning's `gossip_store` file into the channel graph.
//!
//! The store is a version byte followed by records: a 12-byte header
//! (flags, length, checksum, timestamp) and a message of `length` bytes
//! that starts with its 2-byte type. All integers are big-endian.
use crate::graph::{
    spec_add_update, spec_new_builder, spec_node_order, spec_updated, IncompleteChannels, LnGraph,
    ShortChannelIdDirState, ShortChannelIdDirStateBuilder,
};
use crate::model::{ChannelAnnouncement, ChannelUpdate, NextGossipStore, PubKeyBytes, ShortChannelIdDir};
use vstd::prelude::*;

verus! {

/// Why a part of the gossip store could not be read.
#[derive(Debug, Clone, Copy, PartialEq, Eq, Structural)]
pub enum GossipError {
    /// The version byte names a store format this reader does not know.
    UnsupportedVersion(u8),
    /// A short channel id field did not have 8 bytes (its length).
    WrongScidLength(usize),
    /// The record at this offset of the chunk is shorter than its type needs.
    TruncatedRecord(usize),
}

/// Where reading a chunk stopped.
#[derive(Debug, Clone, Copy, PartialEq, Eq)]
pub enum ChunkEnd {
    /// The chunk holds no further whole record; reading goes on at this
    /// offset of the chunk (with the bytes from there read again).
    Done(usize),
    /// The store ended, or was replaced by a compacted one: reading goes on
    /// in the next store.
    NextStore(NextGossipStore),
    /// The store is the compacted store that was expected: reading goes on
    /// at this position of the file.
    Seek(u64),
}

/// Big-endian integer of `n` bytes of `s` from `i`.
pub open spec fn be(s: Seq<u8>, i: int, n: nat) -> nat
    decreases n,
{
    if n == 0 {
        0
    } else {
        be(s, i, (n - 1) as nat) * 256 + s[i + n - 1] as nat
    }
}

/// The version byte of a store: the top three bits must be clear.
pub fn check_gossip_version(version: u8) -> (r: Result<(), GossipError>)
    ensures
        r == (if version & 0xe0 == 0 {
            Ok::<(), GossipError>(())
        } else {
            Err::<(), GossipError>(GossipError::UnsupportedVersion(version))
        }),
{
    if version & 0xe0 != 0 {
        Err(GossipError::UnsupportedVersion(version))
    } else {
        Ok(())
    }
}

fn be16_at(f: &[u8], i: usize) -> (r: u16)
    requires
        i + 2 <= f@.len(),
    ensures
        r == be(f@, i as int, 2),
{
    proof {
        reveal_with_fuel(be, 3);
    }
    (f[i] as u16) * 256 + (f[i + 1] as u16)
}

fn be32_at(f: &[u8], i: usize) -> (r: u32)
    requires
        i + 4 <= f@.len(),
    ensures
        r == be(f@, i as int, 4),
{
    proof {
        reveal_with_fuel(be, 5);
    }
    (f[i] as u32) * 0x100_0000 + (f[i + 1] as u32) * 0x1_0000 + (f[i + 2] as u32) * 0x100 + (f[i
        + 3] as u32)
}

fn be64_at(f: &[u8], i: usize) -> (r: u64)
    requires
        i + 8 <= f@.len(),
    ensures
        r == be(f@, i as int, 8),
{
    proof {
        reveal_with_fuel(be, 9);
    }
    (f[i] as u64) * 0x100_0000_0000_0000 + (f[i + 1] as u64) * 0x1_0000_0000_0000 + (f[i
        + 2] as u64) * 0x100_0000_0000 + (f[i + 3] as u64) * 0x1_0000_0000 + (f[i + 4] as u64)
        * 0x100_0000 + (f[i + 5] as u64) * 0x1_0000 + (f[i + 6] as u64) * 0x100 + (f[i
        + 7] as u64)
}

/// The key whose bytes are `s`.
pub open spec fn key_of(s: Seq<u8>) -> PubKeyBytes {
    PubKeyBytes(choose|a: [u8; 33]| a@ == s)
}

/// The 32-byte array whose bytes are `s`.
pub open spec fn bytes32_of(s: Seq<u8>) -> [u8; 32] {
    choose|a: [u8; 32]| a@ == s
}

fn key_at(f: &[u8], i: usize) -> (r: PubKeyBytes)
    requires
        i + 33 <= f@.len(),
    ensures
        r.0@ == f@.subrange(i as int, i + 33),
        r == key_of(f@.subrange(i as int, i + 33)),
{
    let mut a = [0u8; 33];
    let mut j: usize = 0;
    let n = f.len();
    while j < 33
        invariant
            j <= 33,
            n == f@.len(),
            i + 33 <= f@.len(),
            forall|t: int| 0 <= t < j ==> a@[t] == f@[i + t],
        decreases 33 - j,
    {
        a[j] = f[i + j];
        j = j + 1;
    }
    proof {
        assert(a@ =~= f@.subrange(i as int, i + 33));
        let c = choose|c: [u8; 33]| c@ == f@.subrange(i as int, i + 33);
        assert(c@ == a@);
        assert(c =~= a);
    }
    PubKeyBytes(a)
}

fn bytes32_at(f: &[u8], i: usize) -> (r: [u8; 32])
    requires
        i + 32 <= f@.len(),
    ensures
        r@ == f@.subrange(i as int, i + 32),
        r == bytes32_of(f@.subrange(i as int, i + 32)),
{
    let mut a = [0u8; 32];
    let mut j: usize = 0;
    let n = f.len();
    while j < 32
        invariant
            j <= 32,
            n == f@.len(),
            i + 32 <= f@.len(),
            forall|t: int| 0 <= t < j ==> a@[t] == f@[i + t],
        decreases 32 - j,
    {
        a[j] = f[i + j];
        j = j + 1;
    }
    proof {
        assert(a@ =~= f@.subrange(i as int, i + 32));
        let c = choose|c: [u8; 32]| c@ == f@.subrange(i as int, i + 32);
        assert(c@ == a@);
        assert(c =~= a);
    }
    a
}

/// A short channel id: its 8 bytes, big-endian; any other length is refused.
pub fn extract_scid(gossip_file: &[u8]) -> (r: Result<u64, GossipError>)
    ensures
        gossip_file@.len() == 8 ==> r == Ok::<u64, GossipError>(be(gossip_file@, 0, 8) as u64),
        gossip_file@.len() != 8 ==> r == Err::<u64, GossipError>(
            GossipError::WrongScidLength(gossip_file@.len() as usize),
        ),
{
    if gossip_file.len() != 8 {
        return Err(GossipError::WrongScidLength(gossip_file.len()));
    }
    Ok(be64_at(gossip_file, 0))
}

/// The directed channel and the fields of a `channel_update` message (its
/// type stripped): short channel id at 96, timestamp at 104, channel flags
/// at 109 (bit 0 the direction, bit 1 set when disabled), delay at 110,
/// htlc minimum at 112, base fee at 120, fee rate at 124, htlc maximum at 128.
pub open spec fn spec_parse_channel_update(s: Seq<u8>) -> (ShortChannelIdDir, ChannelUpdate) {
    (
        ShortChannelIdDir {
            short_channel_id: be(s, 96, 8) as u64,
            direction: (s[109] & 1u8) as u32,
        },
        ChannelUpdate {
            active: ((s[109] & 2u8) >> 1u8) != 1u8,
            last_update: be(s, 104, 4) as u32,
            base_fee_millisatoshi: be(s, 120, 4) as u32,
            fee_per_millionth: be(s, 124, 4) as u32,
            delay: be(s, 110, 2) as u32,
            htlc_minimum_msat: be(s, 112, 8) as u64,
            htlc_maximum_msat: be(s, 128, 8) as u64,
        },
    )
}

pub fn parse_channel_update(inpu: &[u8]) -> (r: (ShortChannelIdDir, ChannelUpdate))
    requires
        inpu@.len() >= 136,
    ensures
        r == spec_parse_channel_update(inpu@),
{
    let scid = be64_at(inpu, 96);
    let flags = inpu[109];
    (
        ShortChannelIdDir { short_channel_id: scid, direction: (flags & 1u8) as u32 },
        ChannelUpdate {
            active: ((flags & 2u8) >> 1u8) != 1u8,
            last_update: be32_at(inpu, 104),
            base_fee_millisatoshi: be32_at(inpu, 120),
            fee_per_millionth: be32_at(inpu, 124),
            delay: be16_at(inpu, 110) as u32,
            htlc_minimum_msat: be64_at(inpu, 112),
            htlc_maximum_msat: be64_at(inpu, 128),
        },
    )
}

/// Length of the features field of a `channel_announcement` message.
pub open spec fn announcement_features_len(s: Seq<u8>) -> int {
    be(s, 256, 2) as int
}

/// The short channel id and the two nodes of a `channel_announcement`
/// message (its type stripped): after four signatures, the length of the
/// features at 256, the features, the chain hash, then the id and the keys.
pub open spec fn spec_parse_channel_announcement(s: Seq<u8>) -> (u64, ChannelAnnouncement) {
    let l = announcement_features_len(s);
    (
        be(s, 290 + l, 8) as u64,
        ChannelAnnouncement {
            source: key_of(s.subrange(298 + l, 331 + l)),
            destination: key_of(s.subrange(331 + l, 364 + l)),
        },
    )
}

pub fn parse_channel_announcement(inpu: &[u8]) -> (r: (u64, ChannelAnnouncement))
    requires
        inpu@.len() >= 258,
        inpu@.len() >= 364 + announcement_features_len(inpu@),
    ensures
        r == spec_parse_channel_announcement(inpu@),
{
    let len = be16_at(inpu, 256) as usize;
    let scid = be64_at(inpu, 290 + len);
    let source = key_at(inpu, 298 + len);
    let destination = key_at(inpu, 331 + len);
    (scid, ChannelAnnouncement { source, destination })
}

/// The graph, the incomplete channels and the channels marked as changed.
pub type GossipState = (
    Map<ShortChannelIdDir, ShortChannelIdDirState>,
    Map<ShortChannelIdDir, ShortChannelIdDirStateBuilder>,
    Set<ShortChannelIdDir>,
);

/// An announcement, for one direction of its channel: nothing if the graph
/// already has that direction from the announced source; else the
/// direction's builder gets the nodes (unless it has them) and is marked.
pub open spec fn spec_announce_dir(st: GossipState, sd: ShortChannelIdDir, ann: ChannelAnnouncement) -> GossipState {
    let order = spec_node_order(sd.direction, ann.source, ann.destination)->0;
    if st.0.contains_key(sd) && st.0[sd].source == order.0 {
        st
    } else if st.1.contains_key(sd) {
        if st.1[sd].source is Some {
            (st.0, st.1, st.2.insert(sd))
        } else {
            (
                st.0,
                st.1.insert(
                    sd,
                    ShortChannelIdDirStateBuilder {
                        source: Some(order.0),
                        destination: Some(order.1),
                        ..st.1[sd]
                    },
                ),
                st.2.insert(sd),
            )
        }
    } else {
        (
            st.0,
            st.1.insert(
                sd,
                ShortChannelIdDirStateBuilder {
                    source: Some(order.0),
                    destination: Some(order.1),
                    ..spec_new_builder()
                },
            ),
            st.2.insert(sd),
        )
    }
}

/// An announcement of channel `scid`, for direction 0 and then direction 1.
pub open spec fn spec_announce(st: GossipState, scid: u64, ann: ChannelAnnouncement) -> GossipState {
    spec_announce_dir(
        spec_announce_dir(st, ShortChannelIdDir { short_channel_id: scid, direction: 0 }, ann),
        ShortChannelIdDir { short_channel_id: scid, direction: 1 },
        ann,
    )
}

/// A `channel_update`: applied to the graph's state if it has the
/// direction, else to the direction's builder (a new one if none), which
/// is marked.
pub open spec fn spec_apply_update(st: GossipState, sd: ShortChannelIdDir, up: ChannelUpdate) -> GossipState {
    if st.0.contains_key(sd) {
        (st.0.insert(sd, spec_updated(st.0[sd], up)), st.1, st.2)
    } else if st.1.contains_key(sd) {
        (st.0, st.1.insert(sd, spec_add_update(st.1[sd], up)), st.2.insert(sd))
    } else {
        (st.0, st.1.insert(sd, spec_add_update(spec_new_builder(), up)), st.2.insert(sd))
    }
}

/// A deleted or dying channel: both its directions leave the graph, the
/// builders and the marks.
pub open spec fn spec_drop_channel(st: GossipState, scid: u64) -> GossipState {
    let d0 = ShortChannelIdDir { short_channel_id: scid, direction: 0 };
    let d1 = ShortChannelIdDir { short_channel_id: scid, direction: 1 };
    (st.0.remove(d0).remove(d1), st.1.remove(d0).remove(d1), st.2.remove(d0).remove(d1))
}

/// Reading the records of a chunk from `off` on, as the reader does: what
/// it ends with and the state it leaves. A record is read while its header
/// and type lie before the chunk's end (`off + 14 < len`) and the record
/// fits the chunk; deleted (flag 0x8000) and dying (0x0800) records and
/// unknown types are skipped. A record too short for the fields its type
/// is read at is refused.
pub open spec fn spec_read_chunk(f: Seq<u8>, off: int, hint: Option<NextGossipStore>, st: GossipState) -> (
    Result<ChunkEnd, GossipError>,
    GossipState,
)
    decreases f.len() + 64 - off,
{
    if off < 0 || off + 14 >= f.len() {
        (Ok(ChunkEnd::Done(off as usize)), st)
    } else {
        let flags = be(f, off, 2);
        let len = be(f, off + 2, 2) as int;
        let ty = be(f, off + 12, 2);
        let next = off + 12 + len;
        if next > f.len() {
            (Ok(ChunkEnd::Done(off as usize)), st)
        } else if (flags as u16) & 0x8000u16 != 0 || (flags as u16) & 0x0800u16 != 0 {
            spec_read_chunk(f, next, hint, st)
        } else if ty == 256 || ty == 4104 {
            let (start, end, after) = if ty == 256 {
                (off + 14, next, next)
            } else {
                (off + 26, off + 24 + len, off + 24 + len)
            };
            let body = f.subrange(start, end);
            if len < 2 || end > f.len() || body.len() < 258 || body.len() < 364
                + announcement_features_len(body) {
                (Err(GossipError::TruncatedRecord(off as usize)), st)
            } else {
                let (scid, ann) = spec_parse_channel_announcement(body);
                spec_read_chunk(f, after, hint, spec_announce(st, scid, ann))
            }
        } else if ty == 258 || ty == 4102 {
            let (start, end) = if ty == 258 {
                (off + 14, next)
            } else {
                (off + 18, off + 16 + len)
            };
            if end > f.len() || end - start < 136 {
                (Err(GossipError::TruncatedRecord(off as usize)), st)
            } else {
                let (sd, up) = spec_parse_channel_update(f.subrange(start, end));
                spec_read_chunk(f, end, hint, spec_apply_update(st, sd, up))
            }
        } else if ty == 4101 {
            spec_read_chunk(f, off + 22, hint, st)
        } else if ty == 4103 || ty == 4106 {
            if off + 22 > f.len() {
                (Err(GossipError::TruncatedRecord(off as usize)), st)
            } else {
                let after = if ty == 4103 {
                    off + 22
                } else {
                    off + 26
                };
                spec_read_chunk(f, after, hint, spec_drop_channel(st, be(f, off + 14, 8) as u64))
            }
        } else if ty == 4105 {
            if off + 54 > f.len() {
                (Err(GossipError::TruncatedRecord(off as usize)), st)
            } else {
                (
                    Ok(
                        ChunkEnd::NextStore(
                            NextGossipStore {
                                equivalent_offset: be(f, off + 14, 8) as u64,
                                uuid: bytes32_of(f.subrange(off + 22, off + 54)),
                            },
                        ),
                    ),
                    st,
                )
            }
        } else if ty == 4107 {
            if off + 46 > f.len() {
                (Err(GossipError::TruncatedRecord(off as usize)), st)
            } else {
                let uuid = bytes32_of(f.subrange(off + 14, off + 46));
                match hint {
                    Some(h) => if uuid != h.uuid {
                        (
                            Ok(ChunkEnd::NextStore(NextGossipStore { equivalent_offset: 0, uuid })),
                            st,
                        )
                    } else {
                        (Ok(ChunkEnd::Seek(h.equivalent_offset)), st)
                    },
                    None => spec_read_chunk(f, off + 46, hint, st),
                }
            }
        } else {
            spec_read_chunk(f, next, hint, st)
        }
    }
}

fn announce_dir(graph: &LnGraph, incomplete: &mut IncompleteChannels, sd: ShortChannelIdDir, ann: ChannelAnnouncement)
    requires
        graph.wf(),
        old(incomplete).wf(),
        sd.direction <= 1,
    ensures
        final(incomplete).wf(),
        (graph@, final(incomplete)@, final(incomplete).updated()) == spec_announce_dir(
            (graph@, old(incomplete)@, old(incomplete).updated()),
            sd,
            ann,
        ),
{
    let known = match graph.has_announcement(&sd, &ann) {
        Ok(b) => b,
        Err(_) => false,
    };
    if !known {
        match incomplete.get(&sd) {
            Some(b) => {
                if !b.has_announcement() {
                    let mut nb = b;
                    let _ = nb.add_announcement(sd.direction, ann);
                    incomplete.insert(sd, nb);
                    proof {
                        assert(final(incomplete).updated() =~= old(incomplete).updated().insert(sd));
                    }
                }
            },
            None => {
                let mut nb = ShortChannelIdDirStateBuilder::new();
                let _ = nb.add_announcement(sd.direction, ann);
                incomplete.insert(sd, nb);
            },
        }
    }
}

fn apply_update(graph: &mut LnGraph, incomplete: &mut IncompleteChannels, sd: ShortChannelIdDir, up: ChannelUpdate)
    requires
        old(graph).wf(),
        old(incomplete).wf(),
    ensures
        final(graph).wf(),
        final(incomplete).wf(),
        (final(graph)@, final(incomplete)@, final(incomplete).updated()) == spec_apply_update(
            (old(graph)@, old(incomplete)@, old(incomplete).updated()),
            sd,
            up,
        ),
{
    if !graph.update_state(sd, up) {
        match incomplete.get(&sd) {
            Some(b) => {
                let mut nb = b;
                nb.add_update(up);
                incomplete.insert(sd, nb);
                proof {
                    assert(final(incomplete).updated() =~= old(incomplete).updated().insert(sd));
                }
            },
            None => {
                let mut nb = ShortChannelIdDirStateBuilder::new();
                nb.add_update(up);
                incomplete.insert(sd, nb);
            },
        }
    }
}

fn drop_channel(graph: &mut LnGraph, incomplete: &mut IncompleteChannels, scid: u64)
    requires
        old(graph).wf(),
        old(incomplete).wf(),
    ensures
        final(graph).wf(),
        final(incomplete).wf(),
        (final(graph)@, final(incomplete)@, final(incomplete).updated()) == spec_drop_channel(
            (old(graph)@, old(incomplete)@, old(incomplete).updated()),
            scid,
        ),
{
    let d0 = ShortChannelIdDir { short_channel_id: scid, direction: 0 };
    let d1 = ShortChannelIdDir { short_channel_id: scid, direction: 1 };
    graph.remove(&d0);
    graph.remove(&d1);
    incomplete.remove(&d0);
    incomplete.remove(&d1);
}

/// A channel update read for a directed channel the graph already holds
/// sets that channel's active flag, time of update, fees, delay and HTLC
/// limits to the update's values, and leaves every other channel of the
/// graph, and the channels still being assembled, as they were.
pub proof fn law_update_known_channel(st: GossipState, sd: ShortChannelIdDir, up: ChannelUpdate)
    requires
        st.0.contains_key(sd),
    ensures
        spec_apply_update(st, sd, up).0.contains_key(sd),
        spec_apply_update(st, sd, up).0[sd].fee_per_millionth == up.fee_per_millionth,
        spec_apply_update(st, sd, up).0[sd].base_fee_millisatoshi == up.base_fee_millisatoshi,
        spec_apply_update(st, sd, up).0[sd].active == up.active,
        spec_apply_update(st, sd, up).0[sd].last_update == up.last_update,
        spec_apply_update(st, sd, up).0[sd].delay == up.delay,
        spec_apply_update(st, sd, up).0[sd].htlc_minimum_msat == up.htlc_minimum_msat,
        spec_apply_update(st, sd, up).0[sd].htlc_maximum_msat == up.htlc_maximum_msat,
        spec_apply_update(st, sd, up).0[sd].source == st.0[sd].source,
        spec_apply_update(st, sd, up).0[sd].destination == st.0[sd].destination,
        forall|o: ShortChannelIdDir| o != sd ==> #[trigger] spec_apply_update(st, sd, up).0.contains_key(o) == st.0.contains_key(o)
            && (st.0.contains_key(o) ==> spec_apply_update(st, sd, up).0[o] == st.0[o]),
        spec_apply_update(st, sd, up).1 == st.1,
{
    crate::graph::law_update_takes_fields(st.0[sd], up);
}

/// Reads the records of a chunk of the gossip store from `offset` into the
/// graph and the incomplete channels, until the chunk holds no further
/// whole record, the store ends or is found replaced, or a record is too
/// short for its type.
#[verifier::rlimit(40)]
pub fn read_gossip_file_chunk(
    gossip_file: &[u8],
    offset: usize,
    graph: &mut LnGraph,
    incomplete_channels: &mut IncompleteChannels,
    store_hint: Option<NextGossipStore>,
) -> (r: Result<ChunkEnd, GossipError>)
    requires
        old(graph).wf(),
        old(incomplete_channels).wf(),
        gossip_file@.len() <= 0x1000_0000,
        offset <= gossip_file@.len() + 64,
    ensures
        final(graph).wf(),
        final(incomplete_channels).wf(),
        (r, (final(graph)@, final(incomplete_channels)@, final(incomplete_channels).updated()))
            == spec_read_chunk(
            gossip_file@,
            offset as int,
            store_hint,
            (old(graph)@, old(incomplete_channels)@, old(incomplete_channels).updated()),
        ),
{
    let f = gossip_file;
    let n = f.len();
    let mut off = offset;
    loop
        invariant
            graph.wf(),
            incomplete_channels.wf(),
            n == f@.len(),
            f@ == gossip_file@,
            n <= 0x1000_0000,
            off <= n + 64,
            spec_read_chunk(f@, off as int, store_hint, (graph@, incomplete_channels@, incomplete_channels.updated()))
                == spec_read_chunk(
                f@,
                offset as int,
                store_hint,
                (old(graph)@, old(incomplete_channels)@, old(incomplete_channels).updated()),
            ),
        decreases n + 64 - off,
    {
        let ghost st = (graph@, incomplete_channels@, incomplete_channels.updated());
        if off + 14 >= n {
            assert(spec_read_chunk(f@, off as int, store_hint, st) == (Ok::<ChunkEnd, GossipError>(ChunkEnd::Done(off)), st));
            return Ok(ChunkEnd::Done(off));
        }
        let flags = be16_at(f, off);
        let len = be16_at(f, off + 2) as usize;
        let next = off + 12 + len;
        if next > n {
            assert(spec_read_chunk(f@, off as int, store_hint, st) == (Ok::<ChunkEnd, GossipError>(ChunkEnd::Done(off)), st));
            return Ok(ChunkEnd::Done(off));
        }
        let ty = be16_at(f, off + 12);
        if flags & 0x8000u16 != 0 || flags & 0x0800u16 != 0 {
            off = next;
        } else if ty == 256 || ty == 4104 {
            let (start, end) = if ty == 256 {
                (off + 14, next)
            } else {
                (off + 26, off + 24 + len)
            };
            if len < 2 || end > n {
                return Err(GossipError::TruncatedRecord(off));
            }
            let body = vstd::slice::slice_subrange(f, start, end);
            if body.len() < 258 {
                return Err(GossipError::TruncatedRecord(off));
            }
            let flen = be16_at(body, 256) as usize;
            if body.len() < 364 + flen {
                return Err(GossipError::TruncatedRecord(off));
            }
            let (scid, ann) = parse_channel_announcement(body);
            let d0 = ShortChannelIdDir { short_channel_id: scid, direction: 0 };
            let d1 = ShortChannelIdDir { short_channel_id: scid, direction: 1 };
            announce_dir(graph, incomplete_channels, d0, ann);
            announce_dir(graph, incomplete_channels, d1, ann);
            off = end;
        } else if ty == 258 || ty == 4102 {
            let (start, end) = if ty == 258 {
                (off + 14, next)
            } else {
                (off + 18, off + 16 + len)
            };
            if end > n || end < start + 136 {
                return Err(GossipError::TruncatedRecord(off));
            }
            let body = vstd::slice::slice_subrange(f, start, end);
            let (sd, up) = parse_channel_update(body);
            apply_update(graph, incomplete_channels, sd, up);
            off = end;
        } else if ty == 4101 {
            off = off + 22;
        } else if ty == 4103 || ty == 4106 {
            if off + 22 > n {
                return Err(GossipError::TruncatedRecord(off));
            }
            let scid = be64_at(f, off + 14);
            drop_channel(graph, incomplete_channels, scid);
            off = if ty == 4103 {
                off + 22
            } else {
                off + 26
            };
        } else if ty == 4105 {
            if off + 54 > n {
                return Err(GossipError::TruncatedRecord(off));
            }
            let equivalent_offset = be64_at(f, off + 14);
            let uuid = bytes32_at(f, off + 22);
            return Ok(ChunkEnd::NextStore(NextGossipStore { equivalent_offset, uuid }));
        } else if ty == 4107 {
            if off + 46 > n {
                return Err(GossipError::TruncatedRecord(off));
            }
            let uuid = bytes32_at(f, off + 14);
            match store_hint {
                Some(h) => {
                    let mut same = true;
                    let mut i: usize = 0;
                    while i < 32
                        invariant
                            i <= 32,
                            same == (forall|t: int| 0 <= t < i ==> uuid@[t] == h.uuid@[t]),
                        decreases 32 - i,
                    {
                        if uuid[i] != h.uuid[i] {
                            same = false;
                        }
                        i = i + 1;
                    }
                    proof {
                        if same {
                            assert(uuid =~= h.uuid);
                        } else {
                            assert(uuid != h.uuid);
                        }
                    }
                    if !same {
                        return Ok(ChunkEnd::NextStore(NextGossipStore { equivalent_offset: 0, uuid }));
                    }
                    return Ok(ChunkEnd::Seek(h.equivalent_offset));
                },
                None => {
                    off = off + 46;
                },
            }
        } else {
            off = next;
        }
    }
}

} // verus!
