//! The sequencing guard: one byte of the sender's counter travels with each
//! packet, and from its signed distance to the receiver's own counter the
//! guard tells whether the packet is next in line, a repeat, late, ahead of
//! skipped packets, or too old to trust, and which counter value to try it
//! under.

use crate::nonce::{
    cyclic_distance, distance, increment, lemma_resumed_next, resume_at, resumed, shifted,
};
use vstd::prelude::*;

verus! {

/// A packet this many steps or more behind the counter is not tried at all.
/// The bound is the one that the Mumble voice protocol fixes for its
/// endpoints.
pub const LATE_WINDOW: i8 = 30;

/// How an incoming packet stands to the receive counter.
#[derive(Clone, Copy, Debug, PartialEq, Eq, Structural)]
pub enum Standing {
    /// One step ahead: the packet that was expected.
    InOrder,
    /// No step at all: the packet that was consumed last.
    Repeat,
    /// Behind, but within the window.
    Late,
    /// More than one step ahead; that many packets in between never came.
    Ahead(u8),
    /// Behind by the window or more.
    Stale,
}

/// The standing of a packet whose header byte lies `diff` steps from the
/// counter's low byte.
pub open spec fn standing(diff: int) -> Standing {
    if diff == 1 {
        Standing::InOrder
    } else if diff == 0 {
        Standing::Repeat
    } else if diff > 1 {
        Standing::Ahead((diff - 1) as u8)
    } else if diff > -LATE_WINDOW {
        Standing::Late
    } else {
        Standing::Stale
    }
}

/// Whether a packet of this standing is worth authenticating.
pub open spec fn admissible(standing: Standing) -> bool {
    standing != Standing::Repeat && standing != Standing::Stale
}

/// The counter value to try a packet with header byte `header` under: the
/// one nearest to `nonce` whose low byte is `header`.
pub open spec fn candidate(nonce: Seq<u8>, header: u8) -> Seq<u8> {
    shifted(nonce, cyclic_distance(header, nonce[0]))
}

/// Packet counts of a session: authenticated, accepted late, and inferred
/// lost.
#[derive(Clone, Copy, Debug, PartialEq, Eq, Structural)]
pub struct Stats {
    pub good: u32,
    pub late: u32,
    pub lost: u32,
}

/// `count + more`, held at the largest value a counter can take.
pub open spec fn capped(count: u32, more: int) -> u32 {
    if count + more > u32::MAX {
        u32::MAX
    } else {
        (count + more) as u32
    }
}

/// The counts after a packet of the given standing has been authenticated.
pub open spec fn tallied(stats: Stats, standing: Standing) -> Stats {
    Stats {
        good: capped(stats.good, 1),
        late: if standing == Standing::Late {
            capped(stats.late, 1)
        } else {
            stats.late
        },
        lost: if let Standing::Ahead(skipped) = standing {
            capped(stats.lost, skipped as int)
        } else {
            stats.lost
        },
    }
}

/// Classifies a packet by its header byte against the low byte of the
/// receive counter.
pub fn classify(header: u8, low: u8) -> (out: Standing)
    ensures
        out == standing(cyclic_distance(header, low)),
{
    let diff: i8 = distance(header, low);
    if diff == 1 {
        Standing::InOrder
    } else if diff == 0 {
        Standing::Repeat
    } else if diff > 1 {
        Standing::Ahead((diff - 1) as u8)
    } else if diff > -LATE_WINDOW {
        Standing::Late
    } else {
        Standing::Stale
    }
}

/// Classifies a packet and proposes the counter to authenticate it under.
/// The receive counter itself is not touched: the proposal becomes the new
/// counter only once the packet has proved authentic.
pub fn propose(nonce: &[u8; 16], header: u8) -> (out: (Standing, [u8; 16]))
    ensures
        out.0 == standing(cyclic_distance(header, nonce@[0])),
        out.1@ == if admissible(out.0) {
            candidate(nonce@, header)
        } else {
            nonce@
        },
        admissible(out.0) ==> out.1@ == resumed(nonce@, header),
{
    let verdict: Standing = classify(header, nonce[0]);
    let mut proposal: [u8; 16] = *nonce;
    match verdict {
        Standing::InOrder => {
            increment(&mut proposal);
            proof {
                lemma_resumed_next(nonce@, header);
            }
        },
        Standing::Late | Standing::Ahead(_) => {
            resume_at(&mut proposal, header);
        },
        Standing::Repeat | Standing::Stale => {},
    }
    (verdict, proposal)
}

/// Counts an authenticated packet of the given standing.
pub fn tally(stats: Stats, verdict: Standing) -> (out: Stats)
    ensures
        out == tallied(stats, verdict),
{
    let good: u32 = stats.good.saturating_add(1);
    let late: u32 = match verdict {
        Standing::Late => stats.late.saturating_add(1),
        _ => stats.late,
    };
    let lost: u32 = match verdict {
        Standing::Ahead(skipped) => stats.lost.saturating_add(skipped as u32),
        _ => stats.lost,
    };
    Stats { good, late, lost }
}

} // verus!
