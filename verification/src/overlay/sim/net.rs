//! The fault model of a link: delays, drops, duplicates, an MTU clamp and
//! partitions. Reordering comes from random delays.

use vstd::prelude::*;
use crate::time::Duration;

verus! {

/// A probability, as a ratio.
#[derive(Clone, Copy, Debug, PartialEq, Eq, Structural)]
pub struct Probability {
    pub numerator: u32,
    pub denominator: u32,
}

impl Probability {
    /// Between zero and one.
    pub open spec fn wf(self) -> bool {
        0 < self.denominator && self.numerator <= self.denominator
    }

    pub fn ratio(numerator: u32, denominator: u32) -> (p: Self)
        ensures
            p == (Probability { numerator, denominator }),
    {
        Probability { numerator, denominator }
    }

    pub fn never() -> (p: Self)
        ensures
            p == (Probability { numerator: 0, denominator: 1 }),
    {
        Probability { numerator: 0, denominator: 1 }
    }
}

#[derive(Clone, Copy, Debug)]
pub struct LinkParams {
    pub delay_min: Duration,
    pub delay_max: Duration,
    pub drop_probability: Probability,
    pub duplicate_probability: Probability,
    /// The probability that a datagram escapes the link's FIFO order and may
    /// arrive before earlier traffic. Links are FIFO by default: real paths
    /// rarely reorder within a flow, and unconstrained random delays would
    /// look like loss to QUIC.
    pub reorder_probability: Probability,
    /// Datagrams larger than this are dropped.
    pub mtu: Option<usize>,
    /// `false` partitions the link.
    pub up: bool,
}

impl LinkParams {
    pub open spec fn wf(self) -> bool {
        &&& self.drop_probability.wf()
        &&& self.duplicate_probability.wf()
        &&& self.reorder_probability.wf()
    }

    /// One to two milliseconds of delay and no faults.
    pub open spec fn clean() -> Self {
        let never = Probability { numerator: 0, denominator: 1 };
        LinkParams {
            delay_min: Duration { nanos: 1_000_000 },
            delay_max: Duration { nanos: 2_000_000 },
            drop_probability: never,
            duplicate_probability: never,
            reorder_probability: never,
            mtu: None,
            up: true,
        }
    }

    /// Delays from `min` up to `max`, or always `min` if `max` is less.
    pub fn delay(self, min: Duration, max: Duration) -> (params: Self)
        ensures
            params == (LinkParams {
                delay_min: min,
                delay_max: if max.nanos > min.nanos {
                    max
                } else {
                    min
                },
                ..self
            }),
    {
        let mut params = self;
        params.delay_min = min;
        params.delay_max = min.max(max);
        params
    }

    pub fn drop_probability(self, p: Probability) -> (params: Self)
        ensures
            params == (LinkParams { drop_probability: p, ..self }),
    {
        let mut params = self;
        params.drop_probability = p;
        params
    }

    pub fn duplicate_probability(self, p: Probability) -> (params: Self)
        ensures
            params == (LinkParams { duplicate_probability: p, ..self }),
    {
        let mut params = self;
        params.duplicate_probability = p;
        params
    }

    pub fn reorder_probability(self, p: Probability) -> (params: Self)
        ensures
            params == (LinkParams { reorder_probability: p, ..self }),
    {
        let mut params = self;
        params.reorder_probability = p;
        params
    }

    pub fn mtu(self, mtu: usize) -> (params: Self)
        ensures
            params == (LinkParams { mtu: Some(mtu), ..self }),
    {
        let mut params = self;
        params.mtu = Some(mtu);
        params
    }

    pub fn partitioned(self) -> (params: Self)
        ensures
            params == (LinkParams { up: false, ..self }),
    {
        let mut params = self;
        params.up = false;
        params
    }
}

impl Default for LinkParams {
    fn default() -> (params: Self)
        ensures
            params == LinkParams::clean(),
    {
        LinkParams {
            delay_min: Duration::from_millis(1),
            delay_max: Duration::from_millis(2),
            drop_probability: Probability::never(),
            duplicate_probability: Probability::never(),
            reorder_probability: Probability::never(),
            mtu: None,
            up: true,
        }
    }
}

/// A clean link takes one to two milliseconds, and carries everything, once and in
/// its order.
pub proof fn law_clean_links_do_no_harm()
    ensures
        LinkParams::clean().wf(),
        LinkParams::clean().up,
        LinkParams::clean().mtu is None,
        LinkParams::clean().delay_min.nanos == 1_000_000,
        LinkParams::clean().delay_max.nanos == 2_000_000,
        LinkParams::clean().drop_probability.numerator == 0,
        LinkParams::clean().duplicate_probability.numerator == 0,
        LinkParams::clean().reorder_probability.numerator == 0,
{
}

} // verus!
