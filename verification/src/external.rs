//! Model of the external token-streaming service's data as plain values:
//! stream records and the rule deciding whether an account's outgoing
//! streams qualify it as premium.

use vstd::prelude::*;

use vstd::math::min;

verus! {

/// Nanoseconds per second: the resolution of stream timestamps.
pub const TICKS_PER_SECOND: u64 = 1_000_000_000;

/// Why a stream stopped.
#[derive(Clone, Copy, Debug, PartialEq, Eq, Structural)]
pub enum StreamFinishReason {
    StoppedByOwner,
    StoppedByReceiver,
    FinishedNaturally,
    FinishedBecauseCannotBeExtended,
    FinishedWhileTransferred,
}

/// The lifecycle state of a stream.
#[derive(Clone, Copy, Debug, PartialEq, Eq, Structural)]
pub enum StreamStatus {
    Initialized,
    Active,
    Paused,
    Finished { reason: StreamFinishReason },
}

/// A token stream record, with identifiers and amounts as plain values.
#[derive(Debug)]
pub struct Stream {
    pub id: [u8; 32],
    pub description: Option<String>,
    pub creator_id: String,
    pub owner_id: String,
    pub receiver_id: String,
    pub token_account_id: String,
    pub timestamp_created: u64,
    pub last_action: u64,
    pub balance: u128,
    pub tokens_per_sec: u128,
    pub status: StreamStatus,
    pub tokens_total_withdrawn: u128,
    pub cliff: Option<u64>,
    pub is_expirable: bool,
    pub is_locked: bool,
    pub available_to_withdraw_by_formula: u128,
}

/// What an active stream has accrued by `now`: the whole seconds elapsed
/// since the last action times the flow rate, capped by the stream balance.
/// Inactive streams have nothing to withdraw.
pub open spec fn spec_available(s: Stream, now: u64) -> int {
    if s.status == StreamStatus::Active {
        min(s.balance as int, ((now - s.last_action) / (TICKS_PER_SECOND as int)) * (
        s.tokens_per_sec as int))
    } else {
        0
    }
}

/// A stream makes its owner premium when it is locked, expirable, active,
/// pays into `receiver`, and has not yet accrued its whole balance.
pub open spec fn spec_qualifies(s: Stream, receiver: Seq<char>, now: u64) -> bool {
    &&& s.is_locked
    &&& s.is_expirable
    &&& s.status == StreamStatus::Active
    &&& s.receiver_id@ == receiver
    &&& spec_available(s, now) != s.balance as int
}

impl Stream {
    /// The amount accrued by `now`, per `spec_available`. The cap by the
    /// balance keeps the result exact even where the uncapped product would
    /// not fit in 128 bits.
    pub fn available_to_withdraw(&self, now: u64) -> (r: u128)
        requires
            self.last_action <= now,
        ensures
            r as int == spec_available(*self, now),
    {
        if self.status == StreamStatus::Active {
            let period = now - self.last_action;
            let seconds = (period / TICKS_PER_SECOND) as u128;
            match seconds.checked_mul(self.tokens_per_sec) {
                Some(accrued) => {
                    if accrued < self.balance {
                        accrued
                    } else {
                        self.balance
                    }
                },
                None => {
                    proof {
                        assert(seconds * self.tokens_per_sec > u128::MAX as int ==> seconds
                            * self.tokens_per_sec >= self.balance as int) by (nonlinear_arith);
                    }
                    self.balance
                },
            }
        } else {
            0
        }
    }
}

/// Whether some stream of the list pays `receiver` and qualifies as premium
/// at time `now`.
pub fn check_premium_streams(streams: &Vec<Stream>, receiver: &String, now: u64) -> (r: bool)
    requires
        forall|i: int| 0 <= i < streams@.len() ==> (#[trigger] streams@[i]).last_action <= now,
    ensures
        r == exists|i: int|
            0 <= i < streams@.len() && spec_qualifies(#[trigger] streams@[i], receiver@, now),
{
    let mut i: usize = 0;
    while i < streams.len()
        invariant
            i <= streams@.len(),
            forall|k: int| 0 <= k < streams@.len() ==> (#[trigger] streams@[k]).last_action <= now,
            forall|k: int| 0 <= k < i ==> !spec_qualifies(#[trigger] streams@[k], receiver@, now),
        decreases streams@.len() - i,
    {
        let s = &streams[i];
        if s.is_locked && s.is_expirable && s.status == StreamStatus::Active && s.receiver_id
            == *receiver && s.available_to_withdraw(now) != s.balance {
            proof {
                assert(spec_qualifies(streams@[i as int], receiver@, now));
            }
            return true;
        }
        i += 1;
    }
    false
}

} // verus!
