//! What holds of every run of sending a transaction.
use crate::duration::duration_nanos;
use crate::send::{
    CommitmentLevel, SendAction, SendContext, SendError, SendEvent, SendPhase, SendState, SendStep,
};
use crate::signature::Signature;
use solana_rpc_client_api::client_error::Error as ClientError;
use vstd::prelude::*;

verus! {

/// Where the events lead from a state, if each is awaited when it comes and
/// none comes after the end.
pub open spec fn sending<T>(start: SendState, events: Seq<SendEvent<T>>) -> Option<SendStep<T>>
    decreases events.len(),
{
    if events.len() == 0 {
        Some(SendStep::Continue(start))
    } else {
        match sending(start, events.drop_last()) {
            Some(SendStep::Continue(state)) if state.awaits(events.last()) => Some(
                state.next(events.last()),
            ),
            _ => None,
        }
    }
}

/// Each part of a run, from the start on, goes on up to its last event.
proof fn lemma_sending_prefix<T>(
    start: SendState,
    events: Seq<SendEvent<T>>,
    n: int,
) -> (state: SendState)
    requires
        sending(start, events) is Some,
        0 <= n < events.len(),
    ensures
        sending(start, events.take(n)) == Some(SendStep::<T>::Continue(state)),
        state.awaits(events[n]),
    decreases events.len(),
{
    let front = events.drop_last();
    if n == events.len() - 1 {
        assert(events.take(n) =~= front);
        match sending(start, front) {
            Some(SendStep::Continue(state)) => state,
            _ => start,
        }
    } else {
        assert(front.take(n) =~= events.take(n));
        lemma_sending_prefix(start, front, n)
    }
}

/// The number of events before the first submission: the answer on the
/// blockhash, if it is asked for, and the start of the clock.
pub open spec fn preamble(ctx: SendContext) -> int {
    if ctx.blockhash_validation {
        2
    } else {
        1
    }
}

/// The phase that a run which goes on has reached depends on the number of
/// events alone.
spec fn phase_after(ctx: SendContext, n: int, phase: SendPhase) -> bool {
    if n < preamble(ctx) {
        if n == preamble(ctx) - 1 {
            phase is Clock
        } else {
            phase is Blockhash
        }
    } else {
        let turn = (n - preamble(ctx)) % 4;
        &&& turn == 0 ==> phase is Submission
        &&& turn == 1 ==> phase is Status
        &&& turn == 2 ==> phase is Deadline
        &&& turn == 3 ==> phase is Pause
    }
}

proof fn lemma_phase<T>(ctx: SendContext, transaction: Signature, events: Seq<SendEvent<T>>)
    requires
        sending(SendState::initial(ctx, transaction), events) matches Some(SendStep::Continue(_)),
    ensures
        sending(SendState::initial(ctx, transaction), events) matches Some(
            SendStep::Continue(state),
        ) && {
            &&& state.ctx == ctx
            &&& state.transaction == transaction
            &&& phase_after(ctx, events.len() as int, state.phase)
        },
    decreases events.len(),
{
    if events.len() > 0 {
        lemma_phase(ctx, transaction, events.drop_last());
    }
}

/// The order in which things happen. If the blockhash is to be validated,
/// that comes first. Then the clock is started, once. Then come rounds of a
/// submission, a status request, a look at the clock, and a pause: there is
/// no status request without a fresh submission, and no second submission
/// without a pause.
pub proof fn sending_goes_in_rounds<T>(
    ctx: SendContext,
    transaction: Signature,
    events: Seq<SendEvent<T>>,
    i: int,
)
    requires
        sending(SendState::initial(ctx, transaction), events) is Some,
        0 <= i < events.len(),
    ensures
        i < preamble(ctx) - 1 ==> events[i] is BlockhashChecked,
        i == preamble(ctx) - 1 ==> events[i] is ClockStarted,
        i >= preamble(ctx) ==> {
            let turn = (i - preamble(ctx)) % 4;
            &&& turn == 0 ==> events[i] is Submitted
            &&& turn == 1 ==> events[i] is StatusReceived
            &&& turn == 2 ==> events[i] is TimePassed
            &&& turn == 3 ==> events[i] is Rested
        },
{
    let state = lemma_sending_prefix(SendState::initial(ctx, transaction), events, i);
    lemma_phase(ctx, transaction, events.take(i));
}

/// If the blockhash is to be validated, nothing is submitted unless the node
/// called it valid.
pub proof fn nothing_is_submitted_on_an_unknown_blockhash<T>(
    ctx: SendContext,
    transaction: Signature,
    events: Seq<SendEvent<T>>,
    i: int,
)
    requires
        ctx.blockhash_validation,
        sending(SendState::initial(ctx, transaction), events) is Some,
        0 <= i < events.len(),
        events[i] is Submitted,
    ensures
        events[0] == SendEvent::<T>::BlockhashChecked(Ok(true)),
{
    let start = SendState::initial(ctx, transaction);
    sending_goes_in_rounds(ctx, transaction, events, i);
    let state = lemma_sending_prefix(start, events, 1);
    let first = events.take(1);
    assert(first.drop_last() =~= Seq::<SendEvent<T>>::empty());
    assert(sending(start, first.drop_last()) == Some(SendStep::<T>::Continue(start)));
    assert(first.last() == events[0]);
}

/// A blockhash that the node called valid makes no further difference: from
/// there on every event leads where it leads without validation, and nothing
/// but the context remembers that the blockhash was asked for.
pub proof fn valid_blockhash_changes_nothing_else<T>(
    ctx: SendContext,
    transaction: Signature,
    events: Seq<SendEvent<T>>,
)
    requires
        ctx.blockhash_validation,
    ensures
        sending(
            SendState::initial(ctx, transaction),
            seq![SendEvent::<T>::BlockhashChecked(Ok(true))] + events,
        ) == (match sending(
            SendState::initial(SendContext { blockhash_validation: false, ..ctx }, transaction),
            events,
        ) {
            Some(SendStep::Continue(state)) => Some(
                SendStep::<T>::Continue(SendState { ctx, ..state }),
            ),
            ended => ended,
        }),
    decreases events.len(),
{
    let checked = seq![SendEvent::<T>::BlockhashChecked(Ok(true))];
    let plain = SendContext { blockhash_validation: false, ..ctx };
    let all = checked + events;
    if events.len() == 0 {
        assert(all.drop_last() =~= Seq::<SendEvent<T>>::empty());
        assert(sending(SendState::initial(ctx, transaction), all.drop_last()) == Some(
            SendStep::<T>::Continue(SendState::initial(ctx, transaction)),
        ));
    } else {
        valid_blockhash_changes_nothing_else(ctx, transaction, events.drop_last());
        assert(all.drop_last() =~= checked + events.drop_last());
        assert(all.last() == events.last());
        if let Some(SendStep::Continue(_)) = sending(
            SendState::initial(plain, transaction),
            events.drop_last(),
        ) {
            lemma_phase(plain, transaction, events.drop_last());
        }
    }
}

/// How many status requests failed.
pub open spec fn status_errors<T>(events: Seq<SendEvent<T>>) -> nat
    decreases events.len(),
{
    if events.len() == 0 {
        0
    } else {
        status_errors(events.drop_last()) + if events.last() matches SendEvent::StatusReceived(
            Err(_),
        ) {
            1nat
        } else {
            0
        }
    }
}

/// Exactly as many failed status requests are passed over as the context
/// allows: a run with one more has ended, with the error of that one.
pub proof fn status_errors_are_bounded<T>(
    ctx: SendContext,
    transaction: Signature,
    events: Seq<SendEvent<T>>,
)
    requires
        sending(SendState::initial(ctx, transaction), events) is Some,
    ensures
        status_errors(events) <= ctx.ignorable_errors_count + 1,
        sending(SendState::initial(ctx, transaction), events) matches Some(
            SendStep::Continue(state),
        ) ==> status_errors(events) + state.errors_left == ctx.ignorable_errors_count,
        status_errors(events) == ctx.ignorable_errors_count + 1 <==> {
            &&& events.len() > 0
            &&& events.last() matches SendEvent::StatusReceived(Err(error))
            &&& sending(SendState::initial(ctx, transaction), events) == Some(
                SendStep::<T>::Done(Err(SendError::Client(error))),
            )
        },
    decreases events.len(),
{
    if events.len() > 0 {
        status_errors_are_bounded(ctx, transaction, events.drop_last());
        let state = lemma_sending_prefix(
            SendState::initial(ctx, transaction),
            events,
            events.len() - 1,
        );
        assert(events.take(events.len() - 1) =~= events.drop_last());
    }
}

/// A run that ends well ends with the status that was received last, for the
/// signature under which the node took the transaction just before.
pub proof fn success_is_the_status_received<T>(
    ctx: SendContext,
    transaction: Signature,
    events: Seq<SendEvent<T>>,
    signature: Signature,
    status: T,
)
    ensures
        sending(SendState::initial(ctx, transaction), events) == Some(
            SendStep::Done(Ok((signature, status))),
        ) <==> {
            &&& sending(SendState::initial(ctx, transaction), events) is Some
            &&& events.len() >= 2
            &&& events[events.len() - 1] == SendEvent::StatusReceived(Ok(Some(status)))
            &&& events[events.len() - 2] == SendEvent::<T>::Submitted(Ok(signature))
        },
{
    let start = SendState::initial(ctx, transaction);
    if sending(start, events) is Some && events.len() > 0 {
        lemma_sent_signature(ctx, transaction, events);
    }
}

/// A run that ends for want of time ends on a look at the clock that shows
/// more than the time allowed, and names the signature of the last
/// submission.
pub proof fn unconfirmed_means_out_of_time<T>(
    ctx: SendContext,
    transaction: Signature,
    events: Seq<SendEvent<T>>,
    signature: Signature,
)
    ensures
        sending(SendState::initial(ctx, transaction), events) == Some(
            SendStep::<T>::Done(Err(SendError::Unconfirmed(signature))),
        ) <==> {
            &&& sending(SendState::initial(ctx, transaction), events) is Some
            &&& events.len() >= 3
            &&& events[events.len() - 1] matches SendEvent::TimePassed(passed)
            &&& duration_nanos(ctx.confirm_duration) < duration_nanos(passed)
            &&& events[events.len() - 3] == SendEvent::<T>::Submitted(Ok(signature))
        },
{
    let start = SendState::initial(ctx, transaction);
    if sending(start, events) is Some && events.len() > 0 {
        lemma_sent_signature(ctx, transaction, events);
    }
}

/// The signature that a status request or a look at the clock is about is
/// that of the submission before it.
proof fn lemma_sent_signature<T>(
    ctx: SendContext,
    transaction: Signature,
    events: Seq<SendEvent<T>>,
)
    requires
        sending(SendState::initial(ctx, transaction), events) is Some,
        events.len() > 0,
    ensures
        sending(SendState::initial(ctx, transaction), events.drop_last()) matches Some(
            SendStep::Continue(state),
        ) && {
            &&& state.awaits(events.last())
            &&& state.ctx == ctx
            &&& state.phase matches SendPhase::Status(signature) ==> events.len() >= 2
                && events[events.len() - 2] == SendEvent::<T>::Submitted(Ok(signature))
            &&& state.phase matches SendPhase::Deadline(signature) ==> events.len() >= 3
                && events[events.len() - 3] == SendEvent::<T>::Submitted(Ok(signature))
        },
{
    let start = SendState::initial(ctx, transaction);
    let front = events.drop_last();
    lemma_phase(ctx, transaction, front);
    if front.len() > 0 {
        let earlier = front.drop_last();
        lemma_phase(ctx, transaction, earlier);
        if earlier.len() > 0 {
            lemma_phase(ctx, transaction, earlier.drop_last());
        }
    }
}

/// What ends a run: a blockhash that the node does not call valid, a refused
/// submission, a status, one failed status request too many, or the end of
/// the time. After anything else the run goes on.
pub proof fn sending_ends_only_so<T>(
    ctx: SendContext,
    transaction: Signature,
    events: Seq<SendEvent<T>>,
)
    requires
        sending(SendState::initial(ctx, transaction), events) is Some,
    ensures
        sending(SendState::initial(ctx, transaction), events) matches Some(SendStep::Done(_)) <==> {
            &&& events.len() > 0
            &&& match events.last() {
                SendEvent::BlockhashChecked(Ok(valid)) => !valid,
                SendEvent::BlockhashChecked(Err(_)) => true,
                SendEvent::ClockStarted => false,
                SendEvent::Submitted(answer) => answer is Err,
                SendEvent::StatusReceived(Ok(status)) => status is Some,
                SendEvent::StatusReceived(Err(_)) => status_errors(events)
                    == ctx.ignorable_errors_count + 1,
                SendEvent::TimePassed(passed) => duration_nanos(ctx.confirm_duration)
                    < duration_nanos(passed),
                SendEvent::Rested => false,
            }
        },
{
    if events.len() > 0 {
        lemma_sent_signature(ctx, transaction, events);
        status_errors_are_bounded(ctx, transaction, events);
        status_errors_are_bounded(ctx, transaction, events.drop_last());
    }
}

/// A refused submission ends the run with the node's own error, however many
/// errors may be passed over.
pub proof fn refused_submission_is_passed_back<T>(
    ctx: SendContext,
    transaction: Signature,
    events: Seq<SendEvent<T>>,
    error: ClientError,
)
    requires
        sending(SendState::initial(ctx, transaction), events) is Some,
        events.len() > 0,
        events.last() == SendEvent::<T>::Submitted(Err(error)),
    ensures
        sending(SendState::initial(ctx, transaction), events) == Some(
            SendStep::<T>::Done(Err(SendError::Client(error))),
        ),
{
    lemma_sent_signature(ctx, transaction, events);
}

/// A run ends with a blockhash error exactly on the node's answer about the
/// blockhash, and the error names the transaction's own signature.
pub proof fn blockhash_errors_are_about_the_blockhash<T>(
    ctx: SendContext,
    transaction: Signature,
    events: Seq<SendEvent<T>>,
    named: Signature,
)
    requires
        sending(SendState::initial(ctx, transaction), events) is Some,
    ensures
        sending(SendState::initial(ctx, transaction), events) == Some(
            SendStep::<T>::Done(Err(SendError::BlockhashNotFound(named))),
        ) <==> {
            &&& events.len() > 0
            &&& events.last() == SendEvent::<T>::BlockhashChecked(Ok(false))
            &&& named == transaction
        },
        sending(SendState::initial(ctx, transaction), events) == Some(
            SendStep::<T>::Done(Err(SendError::BlockhashNotChecked(named))),
        ) <==> {
            &&& events.len() > 0
            &&& events.last() matches SendEvent::BlockhashChecked(Err(_))
            &&& named == transaction
        },
{
    if events.len() > 0 {
        lemma_sent_signature(ctx, transaction, events);
        lemma_phase(ctx, transaction, events.drop_last());
    }
}

/// A run ends with a client error exactly if the node refused the submission,
/// or failed one status request more than may be passed over, and the error is
/// the node's own.
pub proof fn client_errors_are_the_nodes_own<T>(
    ctx: SendContext,
    transaction: Signature,
    events: Seq<SendEvent<T>>,
    error: ClientError,
)
    requires
        sending(SendState::initial(ctx, transaction), events) is Some,
    ensures
        sending(SendState::initial(ctx, transaction), events) == Some(
            SendStep::<T>::Done(Err(SendError::Client(error))),
        ) <==> {
            &&& events.len() > 0
            &&& {
                ||| events.last() == SendEvent::<T>::Submitted(Err(error))
                ||| events.last() == SendEvent::<T>::StatusReceived(Err(error)) && status_errors(
                    events,
                ) == ctx.ignorable_errors_count + 1
            }
        },
{
    if events.len() > 0 {
        lemma_sent_signature(ctx, transaction, events);
        status_errors_are_bounded(ctx, transaction, events);
        status_errors_are_bounded(ctx, transaction, events.drop_last());
    }
}

/// The failed status requests are the events that say so, counted.
pub proof fn status_errors_are_counted<T>(events: Seq<SendEvent<T>>)
    ensures
        status_errors(events) == events.filter(
            |event: SendEvent<T>| event matches SendEvent::StatusReceived(Err(_)),
        ).len(),
    decreases events.len(),
{
    reveal(Seq::filter);
    if events.len() > 0 {
        status_errors_are_counted(events.drop_last());
    }
}

/// What is to be done next follows from what came last: the blockhash is
/// validated first, if it is to be, at the processed commitment; then the clock
/// is started; then the transaction is submitted; the status is asked for of
/// the signature that the node gave; the clock is read; and after the pause
/// that the context sets the transaction is submitted again.
pub proof fn what_is_due_follows_from_the_last_event<T>(
    ctx: SendContext,
    transaction: Signature,
    events: Seq<SendEvent<T>>,
    state: SendState,
)
    requires
        sending(SendState::initial(ctx, transaction), events) == Some(
            SendStep::<T>::Continue(state),
        ),
    ensures
        events.len() == 0 ==> state.due() == if ctx.blockhash_validation {
            SendAction::ValidateBlockhash(CommitmentLevel::Processed)
        } else {
            SendAction::StartClock
        },
        events.len() > 0 ==> match events.last() {
            SendEvent::BlockhashChecked(answer) => answer == Ok::<bool, ClientError>(true)
                && state.due() == SendAction::StartClock,
            SendEvent::ClockStarted => state.due() == SendAction::Submit,
            SendEvent::Submitted(Ok(signature)) => state.due() == SendAction::RequestStatus(
                signature,
            ),
            SendEvent::Submitted(Err(_)) => false,
            SendEvent::StatusReceived(Ok(status)) => status is None && state.due()
                == SendAction::ReadClock,
            SendEvent::StatusReceived(Err(_)) => state.due() == SendAction::ReadClock,
            SendEvent::TimePassed(passed) => duration_nanos(passed) <= duration_nanos(
                ctx.confirm_duration,
            ) && state.due() == SendAction::Sleep(ctx.confirm_request_pause),
            SendEvent::Rested => state.due() == SendAction::Submit,
        },
{
    if events.len() > 0 {
        lemma_sent_signature(ctx, transaction, events);
        lemma_phase(ctx, transaction, events);
    }
}

/// Whatever comes of what is due is taken: no answer to it stops the run
/// short of an outcome.
pub proof fn every_answer_is_taken<T>(
    ctx: SendContext,
    transaction: Signature,
    events: Seq<SendEvent<T>>,
    state: SendState,
    event: SendEvent<T>,
)
    requires
        sending(SendState::initial(ctx, transaction), events) == Some(
            SendStep::<T>::Continue(state),
        ),
        match state.due() {
            SendAction::ValidateBlockhash(_) => event is BlockhashChecked,
            SendAction::StartClock => event is ClockStarted,
            SendAction::Submit => event is Submitted,
            SendAction::RequestStatus(_) => event is StatusReceived,
            SendAction::ReadClock => event is TimePassed,
            SendAction::Sleep(_) => event is Rested,
        },
    ensures
        sending(SendState::initial(ctx, transaction), events.push(event)) is Some,
        sending(SendState::initial(ctx, transaction), events.push(event)) == Some(
            state.next(event),
        ),
{
    assert(events.push(event).drop_last() =~= events);
}

/// The context and the transaction stay as they were throughout a run.
pub proof fn sending_keeps_its_context<T>(
    ctx: SendContext,
    transaction: Signature,
    events: Seq<SendEvent<T>>,
    state: SendState,
)
    requires
        sending(SendState::initial(ctx, transaction), events) == Some(
            SendStep::<T>::Continue(state),
        ),
    ensures
        state.ctx == ctx,
        state.transaction == transaction,
{
    lemma_phase(ctx, transaction, events);
}

} // verus!
