//! How peers are counted and which of them are kept.

use vstd::prelude::*;

verus! {

/// How many peers are scored at most.
pub const MAX_PEERS: usize = 6000;

/// How many requests a window of counting holds.
pub const LOAD_WINDOW: u32 = 100;

/// How many requests it takes before timeouts tell against a peer.
pub const HARD_FILTER_MIN_SAMPLES: u32 = 10;

/// What was asked of a peer in the current window, and what it did not
/// answer.
#[derive(Clone, Copy, Debug, PartialEq, Eq, Structural)]
pub struct PeerLoad {
    pub requests_sent: u32,
    pub requests_timed_out: u32,
}

impl PeerLoad {
    /// The window is not full.
    pub open spec fn wf(self) -> bool {
        self.requests_sent < LOAD_WINDOW
    }

    pub fn new() -> (load: Self)
        ensures
            load.wf(),
            load == (PeerLoad { requests_sent: 0, requests_timed_out: 0 }),
    {
        PeerLoad { requests_sent: 0, requests_timed_out: 0 }
    }

    /// Counts a request. A full window starts over.
    pub fn record_request(&mut self)
        requires
            old(self).wf(),
        ensures
            final(self).wf(),
            *final(self) == (if old(self).requests_sent + 1 >= LOAD_WINDOW {
                PeerLoad { requests_sent: 0, requests_timed_out: 0 }
            } else {
                PeerLoad {
                    requests_sent: (old(self).requests_sent + 1) as u32,
                    requests_timed_out: old(self).requests_timed_out,
                }
            }),
    {
        self.requests_sent += 1;
        if self.requests_sent >= LOAD_WINDOW {
            self.requests_sent = 0;
            self.requests_timed_out = 0;
        }
    }

    /// Counts a request that was not answered in time; a full counter stays
    /// full.
    pub fn record_timeout(&mut self)
        ensures
            final(self).requests_sent == old(self).requests_sent,
            final(self).requests_timed_out == if old(self).requests_timed_out == u32::MAX {
                u32::MAX
            } else {
                (old(self).requests_timed_out + 1) as u32
            },
    {
        self.requests_timed_out = self.requests_timed_out.saturating_add(1);
    }

    /// More than half of a fair number of requests timed out: the peer is held
    /// at the lowest score.
    pub open spec fn filtered(self) -> bool {
        self.requests_sent >= HARD_FILTER_MIN_SAMPLES && 2 * self.requests_timed_out
            > self.requests_sent
    }

    pub fn is_hard_filtered(&self) -> (r: bool)
        ensures
            r == self.filtered(),
    {
        self.requests_sent >= HARD_FILTER_MIN_SAMPLES && 2 * (self.requests_timed_out as u64)
            > self.requests_sent as u64
    }
}

/// What to do about a peer that has not been seen before.
#[derive(Clone, Copy, Debug, PartialEq, Eq, Structural)]
pub enum Admission {
    Insert,
    /// Put it in the place of the peer with the lowest score.
    ReplaceWorst,
    /// No peer scores below a newcomer.
    Refuse,
}

/// Decides on a newcomer, when `peers` peers are scored and the lowest of
/// the scores is below a newcomer's or not.
pub fn admission(peers: usize, worst_below_baseline: bool) -> (r: Admission)
    ensures
        r == (if peers < MAX_PEERS {
            Admission::Insert
        } else if worst_below_baseline {
            Admission::ReplaceWorst
        } else {
            Admission::Refuse
        }),
        r is Insert <==> peers < 6000,
        r is ReplaceWorst <==> peers >= 6000 && worst_below_baseline,
{
    if peers < MAX_PEERS {
        Admission::Insert
    } else if worst_below_baseline {
        Admission::ReplaceWorst
    } else {
        Admission::Refuse
    }
}

/// A peer is not filtered before it has been asked often enough, and a window
/// that starts over clears it.
pub proof fn law_filter_needs_samples(load: PeerLoad)
    ensures
        load.requests_sent < HARD_FILTER_MIN_SAMPLES ==> !load.filtered(),
        !(PeerLoad { requests_sent: 0, requests_timed_out: 0 }).filtered(),
{
}

/// A peer is held back exactly if of ten requests or more, more than half timed
/// out.
pub proof fn law_half_timed_out(load: PeerLoad)
    ensures
        load.filtered() <==> load.requests_sent >= 10 && load.requests_timed_out
            > load.requests_sent / 2,
{
}

} // verus!
