//! Rebalancing of Lightning channels for Core Lightning: the channel graph
//! read from the gossip store, route search, the decisions a rebalancing
//! job takes, and the statistics it keeps.
use crate::double::{scaled_by, spec_scaled_by};
use vstd::prelude::*;

pub mod commands;
pub mod config;
pub mod dijkstra;
pub mod double;
pub mod fees;
pub mod gossip;
pub mod graph;
pub mod htlc;
pub mod jobs;
pub mod laws;
pub mod model;
pub mod parse;
pub mod rank;
pub mod response;
pub mod slings;
pub mod stats;
pub mod tasks;
pub mod util;

verus! {

/// Whether a job pulls liquidity into its channel or pushes it out.
#[derive(Debug, Clone, Copy, PartialEq, Eq, Structural)]
pub enum SatDirection {
    Pull,
    Push,
}

/// The characters of `pull`.
pub open spec fn pull_chars() -> Seq<char> {
    seq!['p', 'u', 'l', 'l']
}

/// The characters of `push`.
pub open spec fn push_chars() -> Seq<char> {
    seq!['p', 'u', 's', 'h']
}

/// Whether a string is exactly the given characters.
pub fn str_is(s: &str, chars: &[char]) -> (r: bool)
    ensures
        r == (s@ == chars@),
{
    let n = s.unicode_len();
    if n != chars.len() {
        return false;
    }
    let mut i: usize = 0;
    while i < n
        invariant
            n == s@.len(),
            n == chars@.len(),
            i <= n,
            forall|j: int| 0 <= j < i ==> s@[j] == chars@[j],
        decreases n - i,
    {
        if s.get_char(i) != chars[i] {
            return false;
        }
        i = i + 1;
    }
    assert(s@ =~= chars@);
    true
}

impl SatDirection {
    /// `pull` or `push`; any other text is refused.
    pub fn from_str(s: &str) -> (r: Result<SatDirection, ()>)
        ensures
            s@ == pull_chars() ==> r == Ok::<SatDirection, ()>(SatDirection::Pull),
            s@ == push_chars() ==> r == Ok::<SatDirection, ()>(SatDirection::Push),
            s@ != pull_chars() && s@ != push_chars() ==> r == Err::<SatDirection, ()>(()),
    {
        let pull = ['p', 'u', 'l', 'l'];
        let push = ['p', 'u', 's', 'h'];
        assert(pull@ =~= pull_chars());
        assert(push@ =~= push_chars());
        if str_is(s, pull.as_slice()) {
            Ok(SatDirection::Pull)
        } else if str_is(s, push.as_slice()) {
            Ok(SatDirection::Push)
        } else {
            Err(())
        }
    }

    /// The direction's name, the text `from_str` reads back.
    pub fn as_str(&self) -> (r: &'static str)
        ensures
            r@ == (match *self {
                SatDirection::Pull => pull_chars(),
                SatDirection::Push => push_chars(),
            }),
    {
        proof {
            reveal_strlit("pull");
            reveal_strlit("push");
        }
        match self {
            SatDirection::Pull => "pull",
            SatDirection::Push => "push",
        }
    }
}

/// The bits of the binary64 number 0.5, the default balance target.
pub const DEFAULT_TARGET_BITS: u64 = 0x3FE0_0000_0000_0000;

/// A rebalancing job on one channel. `target` and `depleteuptopercent` are
/// binary64 numbers, held as their bits.
#[derive(Debug, Clone, PartialEq)]
pub struct Job {
    pub sat_direction: SatDirection,
    pub amount_msat: u64,
    pub outppm: Option<u64>,
    pub maxppm: u32,
    pub candidates: Option<Vec<u64>>,
    pub target: Option<u64>,
    pub maxhops: Option<u8>,
    pub depleteuptopercent: Option<u64>,
    pub depleteuptoamount_msat: Option<u64>,
    pub paralleljobs: Option<u16>,
    pub onceamount_msat: Option<u64>,
}

/// A job as the contracts see it, its candidates as a sequence.
pub struct JobView {
    pub sat_direction: SatDirection,
    pub amount_msat: u64,
    pub outppm: Option<u64>,
    pub maxppm: u32,
    pub candidates: Option<Seq<u64>>,
    pub target: Option<u64>,
    pub maxhops: Option<u8>,
    pub depleteuptopercent: Option<u64>,
    pub depleteuptoamount_msat: Option<u64>,
    pub paralleljobs: Option<u16>,
    pub onceamount_msat: Option<u64>,
}

impl View for Job {
    type V = JobView;

    open spec fn view(&self) -> JobView {
        JobView {
            sat_direction: self.sat_direction,
            amount_msat: self.amount_msat,
            outppm: self.outppm,
            maxppm: self.maxppm,
            candidates: match self.candidates {
                Some(c) => Some(c@),
                None => None,
            },
            target: self.target,
            maxhops: self.maxhops,
            depleteuptopercent: self.depleteuptopercent,
            depleteuptoamount_msat: self.depleteuptoamount_msat,
            paralleljobs: self.paralleljobs,
            onceamount_msat: self.onceamount_msat,
        }
    }
}

impl Job {
    pub fn new(sat_direction: SatDirection, amount_msat: u64, outppm: Option<u64>, maxppm: u32) -> (r: Job)
        ensures
            r.sat_direction == sat_direction,
            r.amount_msat == amount_msat,
            r.outppm == outppm,
            r.maxppm == maxppm,
            r.candidates is None,
            r.target is None,
            r.maxhops is None,
            r.depleteuptopercent is None,
            r.depleteuptoamount_msat is None,
            r.paralleljobs is None,
            r.onceamount_msat is None,
    {
        Job {
            sat_direction,
            amount_msat,
            outppm,
            maxppm,
            candidates: None,
            target: None,
            maxhops: None,
            depleteuptopercent: None,
            depleteuptoamount_msat: None,
            paralleljobs: None,
            onceamount_msat: None,
        }
    }

    pub fn add_candidates(&mut self, candidates: Vec<u64>)
        ensures
            *final(self) == (Job { candidates: Some(candidates), ..*old(self) }),
    {
        self.candidates = Some(candidates);
    }

    /// Sets the balance target, a binary64 number given by its bits.
    pub fn add_target(&mut self, target: u64)
        ensures
            *final(self) == (Job { target: Some(target), ..*old(self) }),
    {
        self.target = Some(target);
    }

    pub fn add_maxhops(&mut self, maxhops: u8)
        ensures
            *final(self) == (Job { maxhops: Some(maxhops), ..*old(self) }),
    {
        self.maxhops = Some(maxhops);
    }

    /// Sets the share of a candidate's capacity that may be depleted, a
    /// binary64 number given by its bits.
    pub fn add_depleteuptopercent(&mut self, depleteuptopercent: u64)
        ensures
            *final(self) == (Job { depleteuptopercent: Some(depleteuptopercent), ..*old(self) }),
    {
        self.depleteuptopercent = Some(depleteuptopercent);
    }

    pub fn add_depleteuptoamount_msat(&mut self, depleteuptoamount_msat: u64)
        ensures
            *final(self) == (Job { depleteuptoamount_msat: Some(depleteuptoamount_msat), ..*old(self) }),
    {
        self.depleteuptoamount_msat = Some(depleteuptoamount_msat);
    }

    pub fn add_paralleljobs(&mut self, paralleljobs: u16)
        ensures
            *final(self) == (Job { paralleljobs: Some(paralleljobs), ..*old(self) }),
    {
        self.paralleljobs = Some(paralleljobs);
    }

    pub fn add_onceamount_msat(&mut self, amount_msat: u64)
        ensures
            *final(self) == (Job { onceamount_msat: Some(amount_msat), ..*old(self) }),
    {
        self.onceamount_msat = Some(amount_msat);
    }

    /// The hop limit of the route search: one more than the job's (or the
    /// configured) maximum of hops, as the job's channel is a hop too.
    pub fn get_maxhops(&self, config_maxhops: u8) -> (r: u8)
        requires
            match self.maxhops {
                Some(mh) => mh < 255,
                None => config_maxhops < 255,
            },
        ensures
            r == (match self.maxhops {
                Some(mh) => mh + 1,
                None => config_maxhops + 1,
            }),
    {
        match self.maxhops {
            Some(mh) => mh + 1,
            None => config_maxhops + 1,
        }
    }

    /// The balance target's bits (0.5 by default).
    pub fn get_target(&self) -> (r: u64)
        ensures
            r == (match self.target {
                Some(t) => t,
                None => DEFAULT_TARGET_BITS,
            }),
    {
        match self.target {
            Some(t) => t,
            None => DEFAULT_TARGET_BITS,
        }
    }

    pub fn get_depleteuptoamount_msat(&self, config_depleteuptoamount_msat: u64) -> (r: u64)
        ensures
            r == (match self.depleteuptoamount_msat {
                Some(d) => d,
                None => config_depleteuptoamount_msat,
            }),
    {
        match self.depleteuptoamount_msat {
            Some(d) => d,
            None => config_depleteuptoamount_msat,
        }
    }

    /// The share that may be depleted, as the getter gives it.
    pub open spec fn get_depleteuptopercent_spec(&self, config_depleteuptopercent: u64) -> u64 {
        match self.depleteuptopercent {
            Some(d) => d,
            None => config_depleteuptopercent,
        }
    }

    /// The amount that may be depleted, as the getter gives it.
    pub open spec fn get_depleteuptoamount_spec(&self, config_depleteuptoamount_msat: u64) -> u64 {
        match self.depleteuptoamount_msat {
            Some(d) => d,
            None => config_depleteuptoamount_msat,
        }
    }

    /// The bits of the share that may be depleted: the job's, else the
    /// configured one.
    pub fn get_depleteuptopercent(&self, config_depleteuptopercent: u64) -> (r: u64)
        ensures
            r == (match self.depleteuptopercent {
                Some(d) => d,
                None => config_depleteuptopercent,
            }),
    {
        match self.depleteuptopercent {
            Some(d) => d,
            None => config_depleteuptopercent,
        }
    }

    pub fn get_paralleljobs(&self, config_paralleljobs: u16) -> (r: u16)
        ensures
            r == (match self.paralleljobs {
                Some(p) => p,
                None => config_paralleljobs,
            }),
    {
        match self.paralleljobs {
            Some(p) => p,
            None => config_paralleljobs,
        }
    }

    /// The job's candidate channels (none if it names none).
    pub fn get_candidates(&self) -> (r: Vec<u64>)
        ensures
            r@ == (match self.candidates {
                Some(c) => c@,
                None => Seq::<u64>::empty(),
            }),
    {
        match &self.candidates {
            Some(c) => {
                let mut r: Vec<u64> = Vec::new();
                let mut i: usize = 0;
                while i < c.len()
                    invariant
                        i <= c@.len(),
                        r@ == c@.subrange(0, i as int),
                    decreases c@.len() - i,
                {
                    r.push(c[i]);
                    proof {
                        assert(c@.subrange(0, i + 1) =~= c@.subrange(0, i as int).push(c@[i as int]));
                    }
                    i = i + 1;
                }
                proof {
                    assert(c@.subrange(0, c@.len() as int) =~= c@);
                }
                r
            },
            None => Vec::new(),
        }
    }
}

/// The local balance a job aims at, in msat: the whole capacity for a
/// one-off job; else `total_msat` scaled by the target (binary64, truncated),
/// but at most 2000 msat short of what the reserve on the receiving side
/// leaves (when it comes within 1000 msat of that).
pub open spec fn spec_target_cap(job: Job, total_msat: u64, their_reserve_msat: u64, our_reserve_msat: u64) -> u64 {
    if job.onceamount_msat is Some {
        total_msat
    } else {
        let t = spec_scaled_by(
            total_msat,
            match job.target {
                Some(t) => t,
                None => DEFAULT_TARGET_BITS,
            },
        );
        let reserve = match job.sat_direction {
            SatDirection::Pull => their_reserve_msat,
            SatDirection::Push => our_reserve_msat,
        };
        if t >= total_msat - reserve - 1_000 {
            (total_msat - reserve - 2_000) as u64
        } else {
            t
        }
    }
}

/// Whether the local balance a job aims at can be worked out: for a
/// one-off job always; else the capacity must leave 1000 msat above the
/// reserve on the receiving side, and 2000 msat where the scaled target
/// comes within 1000 msat of that.
pub open spec fn spec_target_cap_defined(job: Job, total_msat: u64, their_reserve_msat: u64, our_reserve_msat: u64) -> bool {
    job.onceamount_msat is None ==> {
        let t = spec_scaled_by(
            total_msat,
            match job.target {
                Some(t) => t,
                None => DEFAULT_TARGET_BITS,
            },
        );
        let reserve = match job.sat_direction {
            SatDirection::Pull => their_reserve_msat,
            SatDirection::Push => our_reserve_msat,
        };
        &&& total_msat >= reserve + 1_000
        &&& t >= total_msat - reserve - 1_000 ==> total_msat >= reserve + 2_000
    }
}

impl Job {
    /// Whether `target_cap` can work out the job's aim on a channel of
    /// `total_msat` (see `spec_target_cap_defined`).
    pub fn target_cap_defined(&self, total_msat: u64, their_reserve_msat: u64, our_reserve_msat: u64) -> (r: bool)
        ensures
            r == spec_target_cap_defined(*self, total_msat, their_reserve_msat, our_reserve_msat),
    {
        if self.onceamount_msat.is_some() {
            return true;
        }
        let reserve = match self.sat_direction {
            SatDirection::Pull => their_reserve_msat,
            SatDirection::Push => our_reserve_msat,
        };
        if reserve > u64::MAX - 1_000 || total_msat < reserve + 1_000 {
            return false;
        }
        let t = scaled_by(total_msat, self.get_target());
        if t >= total_msat - reserve - 1_000 {
            reserve <= u64::MAX - 2_000 && total_msat >= reserve + 2_000
        } else {
            true
        }
    }

    /// The local balance the job aims at on a channel of `total_msat`.
    pub fn target_cap(&self, total_msat: u64, their_reserve_msat: u64, our_reserve_msat: u64) -> (r: u64)
        requires
            spec_target_cap_defined(*self, total_msat, their_reserve_msat, our_reserve_msat),
        ensures
            r == spec_target_cap(*self, total_msat, their_reserve_msat, our_reserve_msat),
    {
        let target = self.get_target();
        if self.onceamount_msat.is_some() {
            return total_msat;
        }
        let mut target_cap = scaled_by(total_msat, target);
        match self.sat_direction {
            SatDirection::Pull => {
                if target_cap >= total_msat - their_reserve_msat - 1_000 {
                    target_cap = total_msat - their_reserve_msat - 2_000;
                }
            },
            SatDirection::Push => {
                if target_cap >= total_msat - our_reserve_msat - 1_000 {
                    target_cap = total_msat - our_reserve_msat - 2_000;
                }
            },
        }
        target_cap
    }

    /// Whether the channel is balanced for the job: for a pull job our side
    /// holds at least the target, for a push job the partner's side does.
    pub fn is_balanced(&self, total_msat: u64, to_us_msat: u64, their_reserve_msat: u64, our_reserve_msat: u64) -> (r: bool)
        requires
            self.sat_direction == SatDirection::Push ==> to_us_msat <= total_msat,
            spec_target_cap_defined(*self, total_msat, their_reserve_msat, our_reserve_msat),
        ensures
            r == (match self.sat_direction {
                SatDirection::Pull => to_us_msat >= spec_target_cap(*self, total_msat, their_reserve_msat, our_reserve_msat),
                SatDirection::Push => total_msat - to_us_msat >= spec_target_cap(*self, total_msat, their_reserve_msat, our_reserve_msat),
            }),
    {
        let target_cap = self.target_cap(total_msat, their_reserve_msat, our_reserve_msat);
        match self.sat_direction {
            SatDirection::Pull => to_us_msat >= target_cap,
            SatDirection::Push => total_msat - to_us_msat >= target_cap,
        }
    }
}

} // verus!
