//! What the plugin answers when an HTLC of one of its own rebalances
//! arrives back at our node.
use crate::commands::find_channel;
use crate::model::{PeerChannel, PubKeyBytes};
use crate::stats::channel_index;
use vstd::prelude::*;

verus! {

/// What a waiting rebalance expects of the HTLC that closes its circle.
#[derive(Debug, Clone)]
pub struct PayResolveInfo {
    /// The preimage, in hex, that settles the payment.
    pub preimage: String,
    /// The channel the HTLC must come in through, and its partner's alias
    /// for it, if any.
    pub incoming_scid: u64,
    pub incoming_alias: Option<u64>,
    /// The amount the HTLC must carry.
    pub amount_msat: u64,
}

/// The answer to an accepted HTLC.
#[derive(Debug, Clone, Copy)]
pub enum HtlcVerdict {
    /// Not ours: let the node go on with it.
    Continue,
    /// Ours and as expected: settle it with the preimage.
    Resolve,
    /// Ours but not as expected: fail it. `keep_pay` tells whether the
    /// payment stays among those waited on; `bad_node` is the peer it came
    /// from, now known to forward badly.
    Fail { keep_pay: bool, bad_node: Option<PubKeyBytes> },
}

/// Whether the HTLC came in through the expected channel, by its id or by
/// the partner's alias for it.
pub open spec fn spec_matching_scid(pay: PayResolveInfo, htlc_scid: u64) -> bool {
    htlc_scid == pay.incoming_scid || (pay.incoming_alias is Some && htlc_scid == pay.incoming_alias->0)
}

/// The answer to an HTLC of `htlc_amount_msat` that came in through
/// `htlc_scid`: one forwarded on is not ours; one without a waiting payment
/// of its hash is not ours; one through the expected channel with the
/// expected amount settles; any other fails, and when it came through one
/// of our channels its peer is marked as a bad forwarder and the payment
/// stays waited on.
pub open spec fn spec_htlc_verdict(
    forwarded: bool,
    htlc_scid: u64,
    htlc_amount_msat: u64,
    pay: Option<PayResolveInfo>,
    peer_channels: Seq<PeerChannel>,
) -> HtlcVerdict {
    if forwarded {
        HtlcVerdict::Continue
    } else {
        match pay {
            None => HtlcVerdict::Continue,
            Some(p) => if spec_matching_scid(p, htlc_scid) && htlc_amount_msat == p.amount_msat {
                HtlcVerdict::Resolve
            } else {
                match channel_index(peer_channels, htlc_scid) {
                    Some(i) => HtlcVerdict::Fail { keep_pay: true, bad_node: Some(peer_channels[i].peer_id) },
                    None => HtlcVerdict::Fail { keep_pay: false, bad_node: None },
                }
            },
        }
    }
}

/// The answer to an accepted HTLC; `pay` is the waiting payment of its hash,
/// if any.
pub fn htlc_verdict(
    forwarded: bool,
    htlc_scid: u64,
    htlc_amount_msat: u64,
    pay: Option<&PayResolveInfo>,
    peer_channels: &[PeerChannel],
) -> (r: HtlcVerdict)
    ensures
        r == spec_htlc_verdict(forwarded, htlc_scid, htlc_amount_msat, match pay {
            Some(p) => Some(*p),
            None => None,
        }, peer_channels@),
{
    if forwarded {
        return HtlcVerdict::Continue;
    }
    let p = match pay {
        None => {
            return HtlcVerdict::Continue;
        },
        Some(p) => p,
    };
    let matching_scid = htlc_scid == p.incoming_scid || match p.incoming_alias {
        Some(a) => htlc_scid == a,
        None => false,
    };
    if matching_scid && htlc_amount_msat == p.amount_msat {
        return HtlcVerdict::Resolve;
    }
    match find_channel(peer_channels, htlc_scid) {
        Some(i) => HtlcVerdict::Fail { keep_pay: true, bad_node: Some(peer_channels[i].peer_id) },
        None => HtlcVerdict::Fail { keep_pay: false, bad_node: None },
    }
}

/// The block height a block notification reports, if it fits.
pub fn block_height(height: u64) -> (r: Result<u32, ()>)
    ensures
        height <= u32::MAX ==> r == Ok::<u32, ()>(height as u32),
        height > u32::MAX ==> r is Err,
{
    if height <= u32::MAX as u64 {
        Ok(height as u32)
    } else {
        Err(())
    }
}

} // verus!
