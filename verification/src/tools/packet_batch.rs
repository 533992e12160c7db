//! Sending a batch of packets one by one.

use vstd::prelude::*;

verus! {

/// What came of sending one packet.
#[derive(Clone, Copy, Debug, PartialEq, Eq, Structural)]
pub enum SendOutcome {
    /// The packet was handed over or dropped.
    Sent,
    /// The socket has no room for now.
    WouldBlock,
    /// The socket failed.
    Failed,
}

/// How far a batch has come.
#[derive(Clone, Copy, Debug, PartialEq, Eq, Structural)]
pub enum BatchState {
    /// The packet at position `sent` is the next to send.
    Sending { sent: usize },
    /// The batch ended after `sent` packets.
    Finished { sent: usize },
    /// The batch ended with an error.
    Failed,
}

/// The state of a batch of `total` packets before any was sent.
pub open spec fn started(total: usize) -> BatchState {
    if total == 0 {
        BatchState::Finished { sent: 0 }
    } else {
        BatchState::Sending { sent: 0 }
    }
}

/// The state of a batch of `total` packets after one more was tried.
pub open spec fn advanced(total: usize, sent: usize, outcome: SendOutcome) -> BatchState {
    match outcome {
        SendOutcome::Sent => if sent + 1 < total {
            BatchState::Sending { sent: (sent + 1) as usize }
        } else {
            BatchState::Finished { sent: (sent + 1) as usize }
        },
        SendOutcome::WouldBlock => BatchState::Finished { sent },
        SendOutcome::Failed => BatchState::Failed,
    }
}

/// Begins a batch.
pub fn start_batch(total: usize) -> (r: BatchState)
    ensures
        r == started(total),
        total == 0 ==> r == (BatchState::Finished { sent: 0 }),
        total > 0 ==> r == (BatchState::Sending { sent: 0 }),
{
    if total == 0 {
        BatchState::Finished { sent: 0 }
    } else {
        BatchState::Sending { sent: 0 }
    }
}

/// Takes in what came of sending the packet at position `sent`: a packet that was
/// sent is counted and the next one follows, a full socket ends the batch with
/// the count so far, and a failure ends it with an error.
pub fn advance_batch(total: usize, sent: usize, outcome: SendOutcome) -> (r: BatchState)
    requires
        sent < total,
    ensures
        r == advanced(total, sent, outcome),
        match outcome {
            SendOutcome::Sent => match r {
                BatchState::Sending { sent: next } => next == sent + 1 && next < total,
                BatchState::Finished { sent: count } => count == sent + 1 && count == total,
                BatchState::Failed => false,
            },
            SendOutcome::WouldBlock => r == (BatchState::Finished { sent }),
            SendOutcome::Failed => r == BatchState::Failed,
        },
{
    match outcome {
        SendOutcome::Sent => {
            if sent + 1 < total {
                BatchState::Sending { sent: sent + 1 }
            } else {
                BatchState::Finished { sent: sent + 1 }
            }
        },
        SendOutcome::WouldBlock => BatchState::Finished { sent },
        SendOutcome::Failed => BatchState::Failed,
    }
}

/// The state of a batch of `total` packets after the given outcomes; those that
/// come after its end change nothing.
pub open spec fn run(total: usize, outcomes: Seq<SendOutcome>) -> BatchState
    decreases outcomes.len(),
{
    if outcomes.len() == 0 {
        started(total)
    } else {
        match run(total, outcomes.drop_last()) {
            BatchState::Sending { sent } => advanced(total, sent, outcomes.last()),
            ended => ended,
        }
    }
}

/// The first `n` outcomes are all `Sent`.
pub open spec fn all_sent(outcomes: Seq<SendOutcome>, n: int) -> bool {
    forall|i: int| 0 <= i < n ==> (#[trigger] outcomes[i]) == SendOutcome::Sent
}

/// Law: a batch of which every packet is sent ends with all of them counted, and
/// on the way each packet is sent in its turn.
pub proof fn law_all_sent(total: usize, outcomes: Seq<SendOutcome>)
    requires
        outcomes.len() <= total,
        all_sent(outcomes, outcomes.len() as int),
    ensures
        run(total, outcomes) == if outcomes.len() < total {
            BatchState::Sending { sent: outcomes.len() as usize }
        } else {
            BatchState::Finished { sent: total }
        },
    decreases outcomes.len(),
{
    if outcomes.len() > 0 {
        let fewer = outcomes.drop_last();
        assert forall|i: int| 0 <= i < fewer.len() implies (#[trigger] fewer[i])
            == SendOutcome::Sent by {
            assert(outcomes[i] == SendOutcome::Sent);
        }
        law_all_sent(total, fewer);
        assert(outcomes[outcomes.len() - 1] == SendOutcome::Sent);
    }
}

/// Law: the first packet that is not sent decides the batch. Where the socket was
/// full, the answer is how many were sent before; where it failed, an error.
/// Nothing is tried after that.
pub proof fn law_first_obstacle_decides(total: usize, outcomes: Seq<SendOutcome>, n: nat)
    requires
        n < outcomes.len(),
        n < total,
        all_sent(outcomes, n as int),
        outcomes[n as int] != SendOutcome::Sent,
    ensures
        run(total, outcomes) == if outcomes[n as int] == SendOutcome::WouldBlock {
            BatchState::Finished { sent: n as usize }
        } else {
            BatchState::Failed
        },
    decreases outcomes.len(),
{
    let fewer = outcomes.drop_last();
    if outcomes.len() == n + 1 {
        assert forall|i: int| 0 <= i < fewer.len() implies (#[trigger] fewer[i])
            == SendOutcome::Sent by {
            assert(outcomes[i] == SendOutcome::Sent);
        }
        law_all_sent(total, fewer);
    } else {
        assert forall|i: int| 0 <= i < n implies (#[trigger] fewer[i]) == SendOutcome::Sent by {
            assert(outcomes[i] == SendOutcome::Sent);
        }
        assert(fewer[n as int] == outcomes[n as int]);
        law_first_obstacle_decides(total, fewer, n);
    }
}

} // verus!
