//! UDP hole punching: both sides send `PUNCH:<node_id>` to each other's
//! public endpoint until one hears the other, for a bounded number of tries.

use vstd::prelude::*;
use crate::text::{push_char, utf8_lossy, decode_lossy, text_chars};

verus! {

/// How many punch packets are sent before giving up.
pub const PUNCH_ATTEMPTS: u32 = 10;

/// The punch packet of node `node_id`: `PUNCH:<node_id>`.
pub open spec fn punch_text(node_id: Seq<char>) -> Seq<char> {
    seq!['P', 'U', 'N', 'C', 'H', ':'] + node_id
}

/// Builds the punch packet text of node `node_id`.
pub fn punch_message(node_id: &str) -> (s: String)
    ensures
        s@ == punch_text(node_id@),
{
    let mut s = String::new();
    push_char(&mut s, 'P');
    push_char(&mut s, 'U');
    push_char(&mut s, 'N');
    push_char(&mut s, 'C');
    push_char(&mut s, 'H');
    push_char(&mut s, ':');
    s.append(node_id);
    assert(s@ =~= punch_text(node_id@));
    s
}

/// A received packet is a punch: its text starts with `PUNCH:`.
pub open spec fn is_punch(reply: Seq<u8>) -> bool {
    let t = utf8_lossy(reply);
    t.len() >= 6 && t.take(6) == seq!['P', 'U', 'N', 'C', 'H', ':']
}

/// Whether a received packet is a punch.
pub fn is_punch_reply(reply: &[u8]) -> (r: bool)
    ensures
        r == is_punch(reply@),
{
    let text = decode_lossy(reply);
    let c = text_chars(text.as_str());
    if c.len() < 6 {
        return false;
    }
    let r = c[0] == 'P' && c[1] == 'U' && c[2] == 'N' && c[3] == 'C' && c[4] == 'H' && c[5] == ':';
    proof {
        let p = seq!['P', 'U', 'N', 'C', 'H', ':'];
        if r {
            assert(c@.take(6) =~= p);
        } else if c@.take(6) == p {
            assert(c@.take(6)[0] == 'P' && c@.take(6)[1] == 'U' && c@.take(6)[2] == 'N');
            assert(c@.take(6)[3] == 'C' && c@.take(6)[4] == 'H' && c@.take(6)[5] == ':');
        }
    }
    r
}

/// What to do after a punch packet was sent and its answer awaited.
#[derive(Debug, Clone, Copy, PartialEq, Eq)]
pub enum PunchStep {
    /// The peer's punch arrived: the hole is open.
    Connected,
    /// Send the next punch packet.
    Retry,
    /// All attempts are spent: punching failed.
    GiveUp,
}

/// The step after the `sent`-th punch packet (counting from 1), given the
/// packet received before the wait ran out, if any: a punch from the peer
/// connects; otherwise the next packet goes out until `PUNCH_ATTEMPTS`
/// have been sent.
pub fn punch_step(sent: u32, reply: Option<&[u8]>) -> (step: PunchStep)
    ensures
        step == (if reply matches Some(b) && is_punch(b@) {
            PunchStep::Connected
        } else if sent < PUNCH_ATTEMPTS {
            PunchStep::Retry
        } else {
            PunchStep::GiveUp
        }),
{
    if let Some(b) = reply {
        if is_punch_reply(b) {
            return PunchStep::Connected;
        }
    }
    if sent < PUNCH_ATTEMPTS {
        PunchStep::Retry
    } else {
        PunchStep::GiveUp
    }
}

} // verus!
