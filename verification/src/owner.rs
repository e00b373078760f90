//! Owner sequencing: requests of one owner run one at a time and in order, and a repetition of the last one gets
//! the last reply.

use std::sync::Arc;

use vstd::prelude::*;

use crate::protocol::{share, OwnerRequestDigest, ReplayEffect, ResOp};

verus! {

/// The last request of an owner, with its reply.
pub struct CachedReply {
    pub sequence_id: u32,
    pub digest: OwnerRequestDigest,
    pub reply: Arc<ResOp>,
    pub effect: ReplayEffect,
}

/// A request that is being executed.
#[derive(Clone, Copy)]
pub struct PendingRequest {
    pub sequence_id: u32,
    pub digest: OwnerRequestDigest,
}

/// The sequence of one owner: what comes first, what came last and what is under way.
pub struct OwnerSequence {
    pub first: u32,
    pub last: Option<CachedReply>,
    pub pending: Option<PendingRequest>,
}

/// What is to be done about a request.
pub enum SequenceDecision {
    /// It is the next one.
    Execute,
    /// It is the last one again: the reply is known.
    Replay { result: Arc<ResOp>, context_effect: ReplayEffect },
    /// It is the one under way.
    InProgress,
    /// It is none of these.
    BadSequence,
}

/// The sequence number after another one.
pub open spec fn sequence_after(sequence_id: u32) -> u32 {
    if sequence_id == u32::MAX {
        0
    } else {
        (sequence_id + 1) as u32
    }
}

impl OwnerSequence {
    /// The sequence number that comes next.
    pub open spec fn expected(self) -> u32 {
        match self.last {
            Some(last) => sequence_after(last.sequence_id),
            None => self.first,
        }
    }

    /// The request is the last one again.
    pub open spec fn repeats(self, sequence_id: u32, digest: OwnerRequestDigest) -> bool {
        self.last matches Some(last) && last.sequence_id == sequence_id && last.digest == digest
    }

    /// The request is the one under way.
    pub open spec fn running(self, sequence_id: u32, digest: OwnerRequestDigest) -> bool {
        self.pending matches Some(pending) && pending.sequence_id == sequence_id && pending.digest == digest
    }

    /// What is to be done about a request.
    pub open spec fn decided(self, sequence_id: u32, digest: OwnerRequestDigest) -> SequenceDecision {
        if self.repeats(sequence_id, digest) {
            SequenceDecision::Replay { result: (self.last->0).reply, context_effect: (self.last->0).effect }
        } else if self.running(sequence_id, digest) {
            SequenceDecision::InProgress
        } else if self.pending is None && sequence_id == self.expected() {
            SequenceDecision::Execute
        } else {
            SequenceDecision::BadSequence
        }
    }

    /// The sequence once a request is under way.
    pub open spec fn reserved(self, sequence_id: u32, digest: OwnerRequestDigest) -> OwnerSequence {
        if self.decided(sequence_id, digest) is Execute {
            OwnerSequence { pending: Some(PendingRequest { sequence_id, digest }), ..self }
        } else {
            self
        }
    }

    /// The sequence once a request is given up: it may come again.
    pub open spec fn cancelled(self, sequence_id: u32, digest: OwnerRequestDigest) -> OwnerSequence {
        if self.running(sequence_id, digest) {
            OwnerSequence { pending: None, ..self }
        } else {
            self
        }
    }

    /// The sequence once the request under way has its reply.
    pub open spec fn answered(
        self,
        sequence_id: u32,
        digest: OwnerRequestDigest,
        reply: Arc<ResOp>,
        effect: ReplayEffect,
    ) -> OwnerSequence {
        OwnerSequence {
            first: self.first,
            last: Some(CachedReply { sequence_id, digest, reply, effect }),
            pending: None,
        }
    }

    /// The sequence of an owner whose first request has that number.
    pub fn new(first: u32) -> (sequence: Self)
        ensures
            sequence == (OwnerSequence { first, last: None, pending: None }),
    {
        OwnerSequence { first, last: None, pending: None }
    }

    /// The same sequence again.
    pub fn copy(&self) -> (copy: Self)
        ensures
            copy == *self,
    {
        let last = match &self.last {
            Some(last) => Some(
                CachedReply {
                    sequence_id: last.sequence_id,
                    digest: last.digest,
                    reply: share(&last.reply),
                    effect: last.effect,
                },
            ),
            None => None,
        };
        OwnerSequence { first: self.first, last, pending: self.pending }
    }

    /// What is to be done about a request.
    pub fn decide(&self, sequence_id: u32, digest: OwnerRequestDigest) -> (decision: SequenceDecision)
        ensures
            decision == self.decided(sequence_id, digest),
    {
        if let Some(last) = &self.last {
            if last.sequence_id == sequence_id && last.digest.same(&digest) {
                return SequenceDecision::Replay { result: share(&last.reply), context_effect: last.effect };
            }
        }
        if let Some(pending) = &self.pending {
            if pending.sequence_id == sequence_id && pending.digest.same(&digest) {
                return SequenceDecision::InProgress;
            }
            return SequenceDecision::BadSequence;
        }
        let expected: u32 = match &self.last {
            Some(last) => if last.sequence_id == u32::MAX {
                0
            } else {
                last.sequence_id + 1
            },
            None => self.first,
        };
        if sequence_id == expected {
            SequenceDecision::Execute
        } else {
            SequenceDecision::BadSequence
        }
    }

    /// Decides about a request, and puts it under way where it is the next one.
    pub fn reserve(&mut self, sequence_id: u32, digest: OwnerRequestDigest) -> (decision: SequenceDecision)
        ensures
            decision == old(self).decided(sequence_id, digest),
            *final(self) == old(self).reserved(sequence_id, digest),
    {
        let decision = self.decide(sequence_id, digest);
        if let SequenceDecision::Execute = decision {
            self.pending = Some(PendingRequest { sequence_id, digest });
        }
        decision
    }

    /// Gives up a request.
    pub fn cancel(&mut self, sequence_id: u32, digest: OwnerRequestDigest)
        ensures
            *final(self) == old(self).cancelled(sequence_id, digest),
    {
        let running = match &self.pending {
            Some(pending) => pending.sequence_id == sequence_id && pending.digest.same(&digest),
            None => false,
        };
        if running {
            self.pending = None;
        }
    }

    /// Answers the request under way; another request is refused.
    pub fn commit(&mut self, sequence_id: u32, digest: OwnerRequestDigest, reply: Arc<ResOp>, effect: ReplayEffect) -> (done:
        bool)
        ensures
            done == old(self).running(sequence_id, digest),
            *final(self) == if done {
                old(self).answered(sequence_id, digest, reply, effect)
            } else {
                *old(self)
            },
    {
        let running = match &self.pending {
            Some(pending) => pending.sequence_id == sequence_id && pending.digest.same(&digest),
            None => false,
        };
        if running {
            self.last = Some(CachedReply { sequence_id, digest, reply, effect });
            self.pending = None;
        }
        running
    }

    /// Whether a request is under way.
    pub fn has_pending(&self) -> (pending: bool)
        ensures
            pending == (self.pending is Some),
    {
        self.pending.is_some()
    }

    /// Whether a reply is known.
    pub fn has_last(&self) -> (known: bool)
        ensures
            known == (self.last is Some),
    {
        self.last.is_some()
    }
}

/// An answered request, repeated, gets the reply it got.
pub proof fn lemma_replay_exact(
    sequence: OwnerSequence,
    sequence_id: u32,
    digest: OwnerRequestDigest,
    reply: Arc<ResOp>,
    effect: ReplayEffect,
)
    ensures
        sequence.answered(sequence_id, digest, reply, effect).decided(sequence_id, digest)
            == (SequenceDecision::Replay { result: reply, context_effect: effect }),
{
}

/// While a request is under way no other one is executed.
pub proof fn lemma_one_at_a_time(
    sequence: OwnerSequence,
    sequence_id: u32,
    digest: OwnerRequestDigest,
    other_id: u32,
    other: OwnerRequestDigest,
)
    requires
        sequence.decided(sequence_id, digest) is Execute,
    ensures
        !(sequence.reserved(sequence_id, digest).decided(other_id, other) is Execute),
        sequence.reserved(sequence_id, digest).running(sequence_id, digest),
{
}

/// A request that was put under way and given up leaves no trace.
pub proof fn lemma_cancel_restores(sequence: OwnerSequence, sequence_id: u32, digest: OwnerRequestDigest)
    requires
        sequence.decided(sequence_id, digest) is Execute,
    ensures
        sequence.reserved(sequence_id, digest).cancelled(sequence_id, digest) == sequence,
{
}

/// After an answer the next request is executed, and a number that is neither the last nor the next is refused.
pub proof fn lemma_sequence_advances(
    sequence: OwnerSequence,
    sequence_id: u32,
    digest: OwnerRequestDigest,
    reply: Arc<ResOp>,
    effect: ReplayEffect,
    next_id: u32,
    next: OwnerRequestDigest,
)
    requires
        next_id != sequence_id,
    ensures
        (sequence.answered(sequence_id, digest, reply, effect).decided(next_id, next) is Execute) == (next_id
            == sequence_after(sequence_id)),
        (sequence.answered(sequence_id, digest, reply, effect).decided(next_id, next) is BadSequence) == (next_id
            != sequence_after(sequence_id)),
{
}

} // verus!
