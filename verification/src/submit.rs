//! The submission loop as a state machine: fetch, encode, sign, submit,
//! wait, forever. The outside world performs the fetching, the remote
//! call and the sleeping; every decision in between is made here.
//!
//! Encoding failure aborts the cycle only: the loop waits and retries.
//! Signing failure halts the loop: the operator key is required for every
//! cycle. Submission failure is logged by the caller and the usual wait
//! still applies.

use vstd::prelude::*;

verus! {

use crate::batch::{gen_queries, queries_match_pairs, Query};
use crate::codec::{encode_prices, encode_spec, MAX_PRICES};
use crate::pair::CollateralPair;
use crate::price::Price;
use crate::signer::{
    hex_bytes, scheme_signs, sig_bytes_of, sign_message, strip_0x, valid_secret_hex,
    valid_secret_key, SignError,
};

/// The phase a submission loop is in.
#[derive(Debug, Clone, Copy, PartialEq, Eq, Structural)]
pub enum Phase {
    /// Waiting for the fetch step's outcome.
    Fetching,
    /// Waiting for the remote call's outcome.
    Submitting,
    /// Waiting out the inter-cycle interval.
    Waiting,
    /// Stopped for good: signing can no longer proceed.
    Halted,
}

/// What the outside world reports back to the loop.
#[derive(Debug)]
pub enum LoopEvent {
    /// The fetch step finished with these price records.
    PricesFetched(Vec<Price>),
    /// The fetch step's records could not be carried into an encoding.
    EncodeFailed,
    /// The remote call returned this confirmation.
    SubmitSucceeded(String),
    /// The remote call failed.
    SubmitFailed,
    /// The inter-cycle wait elapsed.
    WaitElapsed,
}

/// What the outside world must do next.
#[derive(Debug)]
pub enum LoopAction {
    /// Issue these batched queries concurrently.
    StartFetch(Vec<Query>),
    /// Submit the payload and its 65-byte signature in one remote call,
    /// with no concurrent duplicate in flight.
    Submit(Vec<u8>, Vec<u8>),
    /// Sleep for this many milliseconds, then report the wait elapsed.
    Wait(u64),
    /// Stop the process: the operator secret cannot sign.
    Halt(SignError),
}

/// Which events a phase can take.
pub open spec fn event_fits(phase: Phase, event: LoopEvent) -> bool {
    match phase {
        Phase::Fetching => event is PricesFetched || event is EncodeFailed,
        Phase::Submitting => event is SubmitSucceeded || event is SubmitFailed,
        Phase::Waiting => event is WaitElapsed,
        Phase::Halted => false,
    }
}

/// One node's submission loop: its configuration and current phase.
pub struct SubmissionLoop {
    /// The hex-encoded operator secret.
    pub secret_hex: String,
    /// The collateral pairs fetched every cycle.
    pub pairs: Vec<CollateralPair>,
    /// Milliseconds between cycles.
    pub interval_ms: u64,
    /// Current phase.
    pub phase: Phase,
}

/// The configuration of two loop states is the same.
pub open spec fn config_kept(a: SubmissionLoop, b: SubmissionLoop) -> bool {
    &&& a.secret_hex@ == b.secret_hex@
    &&& a.pairs@ == b.pairs@
    &&& a.interval_ms == b.interval_ms
}

impl SubmissionLoop {
    /// Sets up a loop that waits, then starts its first fetch cycle.
    pub fn new(secret_hex: String, pairs: Vec<CollateralPair>, interval_ms: u64) -> (r:
        SubmissionLoop)
        ensures
            r.secret_hex@ == secret_hex@,
            r.pairs@ == pairs@,
            r.interval_ms == interval_ms,
            r.phase == Phase::Waiting,
    {
        SubmissionLoop { secret_hex, pairs, interval_ms, phase: Phase::Waiting }
    }

    /// Advances the loop on one event and says what to do next: batched
    /// queries to fetch, a signed payload to submit, an interval to wait
    /// out, or a fatal signing error to stop on.
    pub fn step(&mut self, event: LoopEvent) -> (r: LoopAction)
        requires
            event_fits(old(self).phase, event),
        ensures
            config_kept(*old(self), *final(self)),
            match event {
                LoopEvent::PricesFetched(prices) => {
                    let key = hex_bytes(strip_0x(old(self).secret_hex@));
                    let payload_spec = encode_spec(prices@);
                    if prices@.len() > MAX_PRICES {
                        &&& r matches LoopAction::Wait(ms) && ms == old(self).interval_ms
                        &&& final(self).phase == Phase::Waiting
                    } else if !valid_secret_hex(old(self).secret_hex@) {
                        &&& r matches LoopAction::Halt(e) && e == SignError::InvalidHex
                        &&& final(self).phase == Phase::Halted
                    } else if !valid_secret_key(key) {
                        &&& r matches LoopAction::Halt(e) && e == SignError::InvalidKey
                        &&& final(self).phase == Phase::Halted
                    } else if !scheme_signs(key, payload_spec) {
                        &&& r matches LoopAction::Halt(e) && e == SignError::SigningFailed
                        &&& final(self).phase == Phase::Halted
                    } else {
                        &&& r matches LoopAction::Submit(payload, sig) && {
                            &&& payload@ == payload_spec
                            &&& sig@.len() == 65
                            &&& sig@ == sig_bytes_of(key, payload_spec)
                        }
                        &&& final(self).phase == Phase::Submitting
                    }
                },
                LoopEvent::EncodeFailed => {
                    &&& r matches LoopAction::Wait(ms) && ms == old(self).interval_ms
                    &&& final(self).phase == Phase::Waiting
                },
                LoopEvent::SubmitSucceeded(_) => {
                    &&& r matches LoopAction::Wait(ms) && ms == old(self).interval_ms
                    &&& final(self).phase == Phase::Waiting
                },
                LoopEvent::SubmitFailed => {
                    &&& r matches LoopAction::Wait(ms) && ms == old(self).interval_ms
                    &&& final(self).phase == Phase::Waiting
                },
                LoopEvent::WaitElapsed => {
                    &&& r matches LoopAction::StartFetch(qs) && queries_match_pairs(
                        old(self).pairs@,
                        qs@,
                    )
                    &&& final(self).phase == Phase::Fetching
                },
            },
    {
        match event {
            LoopEvent::PricesFetched(prices) => {
                if prices.len() > MAX_PRICES {
                    self.phase = Phase::Waiting;
                    LoopAction::Wait(self.interval_ms)
                } else {
                    let payload = encode_prices(&prices);
                    match sign_message(self.secret_hex.as_str(), &payload) {
                        Ok(sig) => {
                            self.phase = Phase::Submitting;
                            LoopAction::Submit(payload, sig)
                        },
                        Err(e) => {
                            self.phase = Phase::Halted;
                            LoopAction::Halt(e)
                        },
                    }
                }
            },
            LoopEvent::EncodeFailed => {
                self.phase = Phase::Waiting;
                LoopAction::Wait(self.interval_ms)
            },
            LoopEvent::SubmitSucceeded(_) => {
                self.phase = Phase::Waiting;
                LoopAction::Wait(self.interval_ms)
            },
            LoopEvent::SubmitFailed => {
                self.phase = Phase::Waiting;
                LoopAction::Wait(self.interval_ms)
            },
            LoopEvent::WaitElapsed => {
                let mut pairs_copy: Vec<CollateralPair> = Vec::new();
                let mut i: usize = 0;
                while i < self.pairs.len()
                    invariant
                        i <= self.pairs@.len(),
                        pairs_copy@ == self.pairs@.subrange(0, i as int),
                    decreases self.pairs@.len() - i,
                {
                    pairs_copy.push(self.pairs[i]);
                    proof {
                        assert(self.pairs@.subrange(0, i + 1) =~= self.pairs@.subrange(
                            0,
                            i as int,
                        ).push(self.pairs@[i as int]));
                    }
                    i += 1;
                }
                proof {
                    assert(self.pairs@.subrange(0, self.pairs@.len() as int) =~= self.pairs@);
                }
                self.phase = Phase::Fetching;
                LoopAction::StartFetch(gen_queries(pairs_copy))
            },
        }
    }
}

} // verus!
