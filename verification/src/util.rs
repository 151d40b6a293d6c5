//! Helpers on our channels, node keys and version strings.
use crate::fees::{feeppm_effective, spec_feeppm_effective};
use crate::model::{bytes_lt, PeerChannel, PubKeyBytes};
use crate::str_is;
use vstd::prelude::*;

verus! {

/// Why one of our channels cannot serve.
#[derive(Debug, Clone, Copy, PartialEq, Eq, Structural)]
pub enum ChannelError {
    /// Not in `CHANNELD_NORMAL` or `CHANNELD_AWAITING_SPLICE` state.
    NotNormal,
    /// We have no channel with that short channel id.
    NotFound,
    /// The channel's remote fees are not known.
    NoRemoteGossip,
    /// A base fee does not fit 32 bits.
    BaseFeeTooLarge(u64),
}

pub fn is_channel_normal(channel: &PeerChannel) -> (r: Result<(), ChannelError>)
    ensures
        r == (if channel.normal {
            Ok::<(), ChannelError>(())
        } else {
            Err::<(), ChannelError>(ChannelError::NotNormal)
        }),
{
    if !channel.normal {
        return Err(ChannelError::NotNormal);
    }
    Ok(())
}

/// The first of our channels with this short channel id.
pub open spec fn spec_find_channel(peer_channels: Seq<PeerChannel>, chan_id: u64) -> Option<int>
    decreases peer_channels.len(),
{
    if peer_channels.len() == 0 {
        None
    } else if peer_channels[0].short_channel_id == Some(chan_id) {
        Some(0)
    } else {
        match spec_find_channel(peer_channels.drop_first(), chan_id) {
            Some(i) => Some(i + 1),
            None => None,
        }
    }
}

proof fn lemma_find_channel(peer_channels: Seq<PeerChannel>, chan_id: u64)
    ensures
        match spec_find_channel(peer_channels, chan_id) {
            Some(i) => 0 <= i < peer_channels.len() && peer_channels[i].short_channel_id == Some(chan_id)
                && forall|j: int| 0 <= j < i ==> peer_channels[j].short_channel_id != Some(chan_id),
            None => forall|j: int| 0 <= j < peer_channels.len() ==> peer_channels[j].short_channel_id != Some(chan_id),
        },
    decreases peer_channels.len(),
{
    if peer_channels.len() > 0 {
        lemma_find_channel(peer_channels.drop_first(), chan_id);
        assert forall|j: int| 1 <= j < peer_channels.len() implies peer_channels[j] == peer_channels.drop_first()[j - 1] by {}
    }
}

/// Where the first of our channels with a short channel id stands.
pub proof fn lemma_find_channel_pub(peer_channels: Seq<PeerChannel>, chan_id: u64)
    ensures
        match spec_find_channel(peer_channels, chan_id) {
            Some(i) => 0 <= i < peer_channels.len() && peer_channels[i].short_channel_id == Some(chan_id)
                && forall|j: int| 0 <= j < i ==> peer_channels[j].short_channel_id != Some(chan_id),
            None => forall|j: int| 0 <= j < peer_channels.len() ==> peer_channels[j].short_channel_id != Some(chan_id),
        },
{
    lemma_find_channel(peer_channels, chan_id);
}

/// Our channel with this short channel id, if it is in a normal state.
pub fn get_normal_channel_from_listpeerchannels(peer_channels: &[PeerChannel], chan_id: u64) -> (r: Result<PeerChannel, ChannelError>)
    ensures
        r == (match spec_find_channel(peer_channels@, chan_id) {
            Some(i) => if peer_channels@[i].normal {
                Ok::<PeerChannel, ChannelError>(peer_channels@[i])
            } else {
                Err::<PeerChannel, ChannelError>(ChannelError::NotNormal)
            },
            None => Err::<PeerChannel, ChannelError>(ChannelError::NotFound),
        }),
{
    let mut i: usize = 0;
    while i < peer_channels.len()
        invariant
            i <= peer_channels@.len(),
            forall|j: int| 0 <= j < i ==> peer_channels@[j].short_channel_id != Some(chan_id),
        decreases peer_channels@.len() - i,
    {
        if peer_channels[i].short_channel_id == Some(chan_id) {
            let chan = peer_channels[i];
            proof {
                lemma_find_channel(peer_channels@, chan_id);
                let f = spec_find_channel(peer_channels@, chan_id);
                if f is None {
                    assert(peer_channels@[i as int].short_channel_id != Some(chan_id));
                } else {
                    let k = f->0;
                    if k < i {
                        assert(peer_channels@[k].short_channel_id != Some(chan_id));
                    } else if k > i {
                        assert(peer_channels@[i as int].short_channel_id != Some(chan_id));
                    }
                }
            }
            return match is_channel_normal(&chan) {
                Ok(()) => Ok(chan),
                Err(e) => Err(e),
            };
        }
        i = i + 1;
    }
    proof {
        lemma_find_channel(peer_channels@, chan_id);
        let f = spec_find_channel(peer_channels@, chan_id);
        if f is Some {
            assert(peer_channels@[f->0].short_channel_id != Some(chan_id));
        }
    }
    Err(ChannelError::NotFound)
}

/// The short channel ids of our normal channels that have one, with their
/// peers, in the order of the list.
pub open spec fn normal_channel_ids(s: Seq<PeerChannel>) -> Seq<(u64, PubKeyBytes)>
    decreases s.len(),
{
    if s.len() == 0 {
        Seq::empty()
    } else {
        let rest = normal_channel_ids(s.drop_last());
        let c = s.last();
        if c.normal && c.short_channel_id is Some {
            rest.push((c.short_channel_id->0, c.peer_id))
        } else {
            rest
        }
    }
}

pub fn get_all_normal_channels_from_listpeerchannels(peer_channels: &[PeerChannel]) -> (r: Vec<(u64, PubKeyBytes)>)
    ensures
        r@ == normal_channel_ids(peer_channels@),
{
    let mut out: Vec<(u64, PubKeyBytes)> = Vec::new();
    let mut i: usize = 0;
    while i < peer_channels.len()
        invariant
            i <= peer_channels@.len(),
            out@ == normal_channel_ids(peer_channels@.take(i as int)),
        decreases peer_channels@.len() - i,
    {
        let c = peer_channels[i];
        proof {
            assert(peer_channels@.take(i + 1).drop_last() =~= peer_channels@.take(i as int));
            assert(peer_channels@.take(i + 1).last() == c);
        }
        if c.normal {
            if let Some(scid) = c.short_channel_id {
                out.push((scid, c.peer_id));
            }
        }
        i = i + 1;
    }
    proof {
        assert(peer_channels@.take(i as int) =~= peer_channels@);
    }
    out
}

/// The number of HTLCs pending on a channel.
pub fn get_total_htlc_count(channel: &PeerChannel) -> (r: u64)
    ensures
        r == channel.htlc_count,
{
    channel.htlc_count
}

/// The effective fee rate the partner charges for forwarding `amount_msat`
/// into this channel.
pub fn get_remote_feeppm_effective(channel: &PeerChannel, amount_msat: u64) -> (r: Result<u64, ChannelError>)
    ensures
        r == (match (channel.remote_fee_proportional_millionths, channel.remote_fee_base_msat) {
            (Some(ppm), Some(base)) => if base <= u32::MAX {
                Ok::<u64, ChannelError>(spec_feeppm_effective(ppm, base as u32, amount_msat))
            } else {
                Err::<u64, ChannelError>(ChannelError::BaseFeeTooLarge(base))
            },
            _ => Err::<u64, ChannelError>(ChannelError::NoRemoteGossip),
        }),
{
    match (channel.remote_fee_proportional_millionths, channel.remote_fee_base_msat) {
        (Some(ppm), Some(base)) => {
            if base > u32::MAX as u64 {
                return Err(ChannelError::BaseFeeTooLarge(base));
            }
            Ok(feeppm_effective(ppm, base as u32, amount_msat))
        },
        _ => Err(ChannelError::NoRemoteGossip),
    }
}

/// The direction of the channel from `source` to `destination`: 0 if the
/// source is the smaller key, 1 if the larger; equal keys are refused.
pub fn get_direction_from_nodes(source: PubKeyBytes, destination: PubKeyBytes) -> (r: Result<u32, ()>)
    ensures
        bytes_lt(source.0@, destination.0@) ==> r == Ok::<u32, ()>(0),
        bytes_lt(destination.0@, source.0@) ==> r == Ok::<u32, ()>(1),
        source == destination ==> r == Err::<u32, ()>(()),
{
    proof {
        crate::graph::lemma_bytes_lt_total(source.0@, destination.0@);
        if source.0@ == destination.0@ {
            assert(source.0 == destination.0);
        }
    }
    if source.less_than(&destination) {
        return Ok(0);
    }
    if destination.less_than(&source) {
        return Ok(1);
    }
    Err(())
}

/// Whether the bytes `n` occur in `h` at some place.
pub open spec fn bytes_contain(h: Seq<u8>, n: Seq<u8>) -> bool {
    exists|i: int| 0 <= i && i + n.len() <= h.len() && #[trigger] h.subrange(i, i + n.len()) == n
}

/// Whether `needle` occurs in `hay` (compared as UTF-8 bytes).
pub fn str_contains(hay: &str, needle: &str) -> (r: bool)
    ensures
        r == bytes_contain(vstd::utf8::encode_utf8(hay@), vstd::utf8::encode_utf8(needle@)),
{
    let h = hay.as_bytes();
    let n = needle.as_bytes();
    if n.len() > h.len() {
        return false;
    }
    if n.len() == 0 {
        assert(h@.subrange(0, 0int + n@.len()) =~= n@);
        return true;
    }
    let last: usize = h.len() - n.len();
    let mut i: usize = 0;
    while i <= last
        invariant
            h@ == vstd::utf8::encode_utf8(hay@),
            n@ == vstd::utf8::encode_utf8(needle@),
            last == h@.len() - n@.len(),
            0 < n@.len() <= h@.len(),
            h@.len() <= usize::MAX,
            i <= last + 1,
            forall|k: int| 0 <= k < i ==> #[trigger] h@.subrange(k, k + n@.len()) != n@,
        decreases last + 1 - i,
    {
        let mut j: usize = 0;
        let mut same = true;
        while j < n.len()
            invariant
                i <= last,
                last == h@.len() - n@.len(),
                i + n@.len() <= h@.len(),
                h@.len() <= usize::MAX,
                j <= n@.len(),
                same == (forall|t: int| 0 <= t < j ==> h@[i + t] == n@[t]),
            decreases n@.len() - j,
        {
            if h[i + j] != n[j] {
                same = false;
            }
            j = j + 1;
        }
        if same {
            assert(h@.subrange(i as int, i + n@.len()) =~= n@);
            return true;
        }
        assert(h@.subrange(i as int, i + n@.len()) != n@) by {
            let t = choose|t: int| 0 <= t < n@.len() && h@[i + t] != n@[t];
            assert(h@.subrange(i as int, i + n@.len())[t] == h@[i + t]);
        }
        i = i + 1;
    }
    assert forall|k: int| 0 <= k && k + n@.len() <= h@.len() implies #[trigger] h@.subrange(k, k + n@.len()) != n@ by {
        assert(k < i);
    }
    false
}

/// Whether a character is an ASCII digit.
pub open spec fn is_digit(c: char) -> bool {
    '0' <= c && c <= '9'
}

/// The number that a sequence of digits writes in decimal.
pub open spec fn digits_value(s: Seq<char>) -> nat
    decreases s.len(),
{
    if s.len() == 0 {
        0
    } else {
        digits_value(s.drop_last()) * 10 + (s.last() as nat - '0' as nat) as nat
    }
}

/// `str::parse::<u32>` as the standard library documents it: an optional
/// `+`, then one or more ASCII digits, of a value that fits.
pub open spec fn spec_parse_u32(s: Seq<char>) -> Option<u32> {
    let d = unsigned_digits(s);
    if d.len() > 0 && all_digits(d) && digits_value(d) <= u32::MAX {
        Some(digits_value(d) as u32)
    } else {
        None
    }
}

/// `str::parse::<u64>` as the standard library documents it: an optional
/// `+`, then one or more ASCII digits, of a value that fits.
pub open spec fn spec_parse_u64(s: Seq<char>) -> Option<u64> {
    let d = unsigned_digits(s);
    if d.len() > 0 && all_digits(d) && digits_value(d) <= u64::MAX {
        Some(digits_value(d) as u64)
    } else {
        None
    }
}

/// The pieces of `s` between the occurrences of `sep`, as `str::split`
/// gives them (one piece when it has none).
pub open spec fn split_at_char(s: Seq<char>, sep: char) -> Seq<Seq<char>>
    decreases s.len(),
{
    if s.len() == 0 {
        seq![Seq::empty()]
    } else {
        let r = split_at_char(s.drop_last(), sep);
        if s.last() == sep {
            r.push(Seq::empty())
        } else {
            r.update(r.len() - 1, r.last().push(s.last()))
        }
    }
}

/// A number's text without its leading `+`, if it has one.
pub open spec fn unsigned_digits(s: Seq<char>) -> Seq<char> {
    if s.len() > 0 && s[0] == '+' { s.drop_first() } else { s }
}

/// Whether every character is an ASCII digit.
pub open spec fn all_digits(d: Seq<char>) -> bool {
    forall|i: int| 0 <= i < d.len() ==> is_digit(#[trigger] d[i])
}

/// The pieces of `s` between its dots (one piece when it has none).
pub open spec fn split_dots(s: Seq<char>) -> Seq<Seq<char>>
    decreases s.len(),
{
    if s.len() == 0 {
        seq![Seq::empty()]
    } else {
        let r = split_dots(s.drop_last());
        if s.last() == '.' {
            r.push(Seq::empty())
        } else {
            r.update(r.len() - 1, r.last().push(s.last()))
        }
    }
}

/// How many characters from the start of `s` are digits or dots.
pub open spec fn version_prefix_len(s: Seq<char>) -> int
    decreases s.len(),
{
    if s.len() == 0 || !(is_digit(s[0]) || s[0] == '.') {
        0
    } else {
        1 + version_prefix_len(s.drop_first())
    }
}

/// The index of the first `v` in `s`.
pub open spec fn first_v(s: Seq<char>, j: int) -> int
    decreases s.len() - j,
{
    if j < 0 || j >= s.len() {
        s.len() as int
    } else if s[j] == 'v' {
        j
    } else {
        first_v(s, j + 1)
    }
}

/// Why a version could not be compared.
#[derive(Debug, Clone, Copy, PartialEq, Eq, Structural)]
pub enum VersionError {
    /// No `v` in the node's version.
    NoV,
    /// The node's version has not two or three numbers.
    BadVersion,
    /// A piece compared is not a number.
    NotANumber,
}

/// Compares the pieces from `i` on: the first pair that differs decides;
/// if none does, the version with at least as many pieces is at or above.
pub open spec fn compare_parts(a: Seq<Seq<char>>, b: Seq<Seq<char>>, i: int) -> Result<bool, VersionError>
    decreases a.len() - i,
{
    if i < 0 || i >= a.len() || i >= b.len() {
        Ok(a.len() >= b.len())
    } else {
        match (spec_parse_u32(a[i]), spec_parse_u32(b[i])) {
            (Some(x), Some(y)) => if x != y { Ok(x > y) } else { compare_parts(a, b, i + 1) },
            _ => Err(VersionError::NotANumber),
        }
    }
}

/// Whether the node's version (`vMAJOR.MINOR[.PATCH]`, anything after the
/// numbers ignored) is at or above `min_version` (numbers between dots).
pub open spec fn spec_at_or_above_version(my: Seq<char>, min: Seq<char>) -> Result<bool, VersionError> {
    let p = first_v(my, 0);
    if p >= my.len() {
        Err(VersionError::NoV)
    } else {
        let rest = my.subrange(p + 1, my.len() as int);
        let clean = rest.subrange(0, version_prefix_len(rest));
        let mine = split_dots(clean);
        if mine.len() <= 1 || mine.len() > 3 {
            Err(VersionError::BadVersion)
        } else {
            compare_parts(mine, split_dots(min), 0)
        }
    }
}

/// The characters of a string.
fn chars_of(s: &str) -> (r: Vec<char>)
    ensures
        r@ == s@,
{
    let n = s.unicode_len();
    let mut r: Vec<char> = Vec::new();
    let mut i: usize = 0;
    while i < n
        invariant
            n == s@.len(),
            i <= n,
            r@ == s@.subrange(0, i as int),
        decreases n - i,
    {
        r.push(s.get_char(i));
        proof {
            assert(r@ =~= s@.subrange(0, i + 1));
        }
        i = i + 1;
    }
    proof {
        assert(r@ =~= s@);
    }
    r
}

/// `str::parse::<u32>` of the characters `s`.
pub fn parse_u32(s: &Vec<char>) -> (r: Option<u32>)
    ensures
        r == spec_parse_u32(s@),
{
    let start: usize = if s.len() > 0 && s[0] == '+' { 1 } else { 0 };
    let ghost d = unsigned_digits(s@);
    if start >= s.len() {
        assert(d.len() == 0);
        return None;
    }
    let mut acc: u64 = 0;
    let mut i: usize = start;
    while i < s.len()
        invariant
            start <= i <= s@.len(),
            d == unsigned_digits(s@),
            d == s@.subrange(start as int, s@.len() as int),
            forall|j: int| 0 <= j < i - start ==> is_digit(#[trigger] d[j]),
            acc == if digits_value(d.subrange(0, i - start)) > u32::MAX { u32::MAX as nat + 1 } else { digits_value(d.subrange(0, i - start)) },
        decreases s@.len() - i,
    {
        let c = s[i];
        if !('0' <= c && c <= '9') {
            proof {
                assert(d[i - start] == c);
                assert(!is_digit(d[i - start]));
                assert(!all_digits(d));
            }
            return None;
        }
        proof {
            assert(d.subrange(0, i + 1 - start).drop_last() =~= d.subrange(0, i - start));
            assert(d.subrange(0, i + 1 - start).last() == c);
        }
        let digit = (c as u32 - '0' as u32) as u64;
        acc = acc * 10 + digit;
        if acc > u32::MAX as u64 {
            acc = u32::MAX as u64 + 1;
        }
        i = i + 1;
    }
    proof {
        assert(d.subrange(0, s@.len() - start) =~= d);
    }
    if acc > u32::MAX as u64 {
        None
    } else {
        Some(acc as u32)
    }
}

/// The character sequences of a list of character vectors.
pub open spec fn views_of(v: Seq<Vec<char>>) -> Seq<Seq<char>> {
    v.map_values(|x: Vec<char>| x@)
}

/// The pieces of `s` between its dots.
pub fn split_on_dots(s: &Vec<char>) -> (r: Vec<Vec<char>>)
    ensures
        views_of(r@) == split_dots(s@),
{
    let mut parts: Vec<Vec<char>> = Vec::new();
    let mut cur: Vec<char> = Vec::new();
    let mut i: usize = 0;
    proof {
        assert(s@.subrange(0, 0) =~= Seq::<char>::empty());
        assert(views_of(parts@).push(cur@) =~= seq![Seq::<char>::empty()]);
    }
    while i < s.len()
        invariant
            i <= s@.len(),
            split_dots(s@.subrange(0, i as int)) == views_of(parts@).push(cur@),
        decreases s@.len() - i,
    {
        let c = s[i];
        let ghost pre = s@.subrange(0, i as int);
        proof {
            assert(s@.subrange(0, i + 1).drop_last() =~= pre);
            assert(s@.subrange(0, i + 1).last() == c);
        }
        if c == '.' {
            let done = cur;
            parts.push(done);
            cur = Vec::new();
            proof {
                assert(views_of(parts@).push(cur@) =~= split_dots(pre).push(Seq::empty()));
            }
        } else {
            cur.push(c);
            proof {
                let r = split_dots(pre);
                assert(views_of(parts@).push(cur@) =~= r.update(r.len() - 1, r.last().push(c)));
            }
        }
        i = i + 1;
    }
    let ghost before = views_of(parts@);
    parts.push(cur);
    proof {
        assert(s@.subrange(0, s@.len() as int) =~= s@);
        assert(views_of(parts@) =~= before.push(parts@[parts@.len() - 1]@));
    }
    parts
}

proof fn lemma_prefix_step(rest: Seq<char>, k: int)
    requires
        0 <= k < rest.len(),
    ensures
        version_prefix_len(rest.subrange(k, rest.len() as int)) == if is_digit(rest[k]) || rest[k] == '.' {
            1 + version_prefix_len(rest.subrange(k + 1, rest.len() as int))
        } else {
            0
        },
{
    assert(rest.subrange(k, rest.len() as int).drop_first() =~= rest.subrange(k + 1, rest.len() as int));
}

/// Whether the node's version `my_version` (`vMAJOR.MINOR[.PATCH]`,
/// anything after the numbers ignored) is at or above `min_version`.
pub fn at_or_above_version(my_version: &str, min_version: &str) -> (r: Result<bool, VersionError>)
    ensures
        r == spec_at_or_above_version(my_version@, min_version@),
{
    let my = chars_of(my_version);
    let mut p: usize = 0;
    while p < my.len() && my[p] != 'v'
        invariant
            p <= my@.len(),
            first_v(my@, p as int) == first_v(my@, 0),
        decreases my@.len() - p,
    {
        p = p + 1;
    }
    if p >= my.len() {
        return Err(VersionError::NoV);
    }
    let ghost rest = my@.subrange(p + 1, my@.len() as int);
    let mut clean: Vec<char> = Vec::new();
    let mut k: usize = p + 1;
    proof {
        assert(rest.subrange(0, rest.len() as int) =~= rest);
    }
    while k < my.len() && (('0' <= my[k] && my[k] <= '9') || my[k] == '.')
        invariant
            p + 1 <= k <= my@.len(),
            rest == my@.subrange(p + 1, my@.len() as int),
            clean@ == rest.subrange(0, k - p - 1),
            version_prefix_len(rest) == (k - p - 1) + version_prefix_len(rest.subrange(k - p - 1, rest.len() as int)),
        decreases my@.len() - k,
    {
        proof {
            lemma_prefix_step(rest, k - p - 1);
            assert(rest[k - p - 1] == my@[k as int]);
        }
        clean.push(my[k]);
        proof {
            assert(clean@ =~= rest.subrange(0, k + 1 - p - 1));
        }
        k = k + 1;
    }
    proof {
        if k < my@.len() {
            lemma_prefix_step(rest, k - p - 1);
            assert(rest[k - p - 1] == my@[k as int]);
        } else {
            assert(rest.subrange(k - p - 1, rest.len() as int) =~= Seq::<char>::empty());
        }
    }
    let mine = split_on_dots(&clean);
    let mins = split_on_dots(&chars_of(min_version));
    if mine.len() <= 1 || mine.len() > 3 {
        return Err(VersionError::BadVersion);
    }
    proof {
        assert(first_v(my@, 0) == p);
        assert(version_prefix_len(rest) == k - p - 1);
        assert(clean@ == rest.subrange(0, version_prefix_len(rest)));
        assert(spec_at_or_above_version(my_version@, min_version@) == compare_parts(views_of(mine@), views_of(mins@), 0));
    }
    let mut i: usize = 0;
    while i < mine.len() && i < mins.len()
        invariant
            i <= mine@.len(),
            spec_at_or_above_version(my_version@, min_version@) == compare_parts(views_of(mine@), views_of(mins@), 0),
            views_of(mine@) == split_dots(clean@),
            views_of(mins@) == split_dots(min_version@),
            compare_parts(views_of(mine@), views_of(mins@), i as int) == compare_parts(views_of(mine@), views_of(mins@), 0),
        decreases mine@.len() - i,
    {
        proof {
            assert(views_of(mine@)[i as int] == mine@[i as int]@);
            assert(views_of(mins@)[i as int] == mins@[i as int]@);
        }
        let a = parse_u32(&mine[i]);
        let b = parse_u32(&mins[i]);
        match (a, b) {
            (Some(x), Some(y)) => {
                if x != y {
                    return Ok(x > y);
                }
            },
            _ => {
                return Err(VersionError::NotANumber);
            },
        }
        i = i + 1;
    }
    Ok(mine.len() >= mins.len())
}

/// Fresh random bytes for a payment preimage, from `rand`'s thread
/// generator. Nothing is claimed of them: they are chance's.
#[verifier::external_body]
fn random_preimage() -> (r: [u8; 32]) {
    let mut p = [0u8; 32];
    rand::Rng::fill(&mut rand::rng(), &mut p[..]);
    p
}

/// What SHA-256 gives for some bytes.
pub uninterp spec fn sha256_digest(data: Seq<u8>) -> Seq<u8>;

/// SHA-256 of 32 bytes, by `bitcoin::hashes::sha256::Hash::hash`.
#[verifier::external_body]
fn sha256_of(data: &[u8; 32]) -> (r: [u8; 32])
    ensures
        r@ == sha256_digest(data@),
{
    let h = <bitcoin::hashes::sha256::Hash as bitcoin::hashes::Hash>::hash(&data[..]);
    <bitcoin::hashes::sha256::Hash as bitcoin::hashes::Hash>::to_byte_array(h)
}

/// The lowercase hex digit of a value below 16.
pub open spec fn hex_char(d: u8) -> char {
    if d < 10 { (('0' as u8) + d) as char } else { (('a' as u8) + d - 10) as char }
}

/// The lowercase hex text of some bytes, two digits per byte.
pub open spec fn hex_text(b: Seq<u8>) -> Seq<char>
    decreases b.len(),
{
    if b.len() == 0 {
        Seq::empty()
    } else {
        hex_text(b.drop_last()) + seq![hex_char(b.last() / 16), hex_char(b.last() % 16)]
    }
}

fn hex_digit(d: u8) -> (r: &'static str)
    requires
        d < 16,
    ensures
        r@ == seq![hex_char(d)],
{
    proof {
        reveal_strlit("0");
        reveal_strlit("1");
        reveal_strlit("2");
        reveal_strlit("3");
        reveal_strlit("4");
        reveal_strlit("5");
        reveal_strlit("6");
        reveal_strlit("7");
        reveal_strlit("8");
        reveal_strlit("9");
        reveal_strlit("a");
        reveal_strlit("b");
        reveal_strlit("c");
        reveal_strlit("d");
        reveal_strlit("e");
        reveal_strlit("f");
    }
    let r = match d {
        0 => "0",
        1 => "1",
        2 => "2",
        3 => "3",
        4 => "4",
        5 => "5",
        6 => "6",
        7 => "7",
        8 => "8",
        9 => "9",
        10 => "a",
        11 => "b",
        12 => "c",
        13 => "d",
        14 => "e",
        _ => "f",
    };
    assert(r@ =~= seq![hex_char(d)]);
    r
}

/// The lowercase hex text of some bytes.
pub fn to_hex(b: &[u8]) -> (r: String)
    ensures
        r@ == hex_text(b@),
{
    let mut r = String::new();
    let mut i: usize = 0;
    while i < b.len()
        invariant
            i <= b@.len(),
            r@ == hex_text(b@.subrange(0, i as int)),
        decreases b@.len() - i,
    {
        let x = b[i];
        proof {
            assert(b@.subrange(0, i + 1).drop_last() =~= b@.subrange(0, i as int));
            assert(b@.subrange(0, i + 1).last() == x);
        }
        r.append(hex_digit(x / 16));
        r.append(hex_digit(x % 16));
        proof {
            assert(r@ =~= hex_text(b@.subrange(0, i + 1)));
        }
        i = i + 1;
    }
    proof {
        assert(b@.subrange(0, b@.len() as int) =~= b@);
    }
    r
}

/// A fresh payment preimage, in hex, and its payment hash.
pub fn get_preimage_paymend_hash_pair() -> (r: (String, [u8; 32]))
    ensures
        exists|p: Seq<u8>| p.len() == 32 && r.0@ == hex_text(p) && r.1@ == sha256_digest(p),
{
    let preimage = random_preimage();
    let hash = sha256_of(&preimage);
    let text = to_hex(preimage.as_slice());
    proof {
        assert(preimage@.len() == 32);
    }
    (text, hash)
}

} // verus!
