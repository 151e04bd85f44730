//! Sending a transaction again, with a fresh blockhash, until it goes through.
use crate::send::SendContext;
use crate::signature::Signature;
use solana_rpc_client_api::client_error::Error as ClientError;
use vstd::prelude::*;

verus! {

/// What the resender waits for. `H` is the type of blockhashes.
#[derive(Debug)]
pub enum ResendPhase<H> {
    /// The node's latest blockhash.
    Blockhash,
    /// The outcome of sending a transaction that was built on this blockhash.
    Attempt(H),
}

/// What to do next.
pub enum ResendAction<H> {
    /// Ask the node for its latest blockhash.
    FetchBlockhash,
    /// Build a transaction on the blockhash and send it by the context.
    Attempt(H, SendContext),
}

/// What came of it. `T` is the status that the caller's own request returns.
pub enum ResendEvent<H, T> {
    BlockhashFetched(Result<H, ClientError>),
    Attempted(Result<(Signature, T), ClientError>),
}

/// A transaction that is sent as often as it takes, up to a limit.
pub struct ResendState<H> {
    pub ctx: SendContext,
    /// How many more attempts may follow the one that is next or under way.
    pub resends_left: usize,
    pub phase: ResendPhase<H>,
}

/// What an event leads to.
pub enum ResendStep<H, T> {
    Continue(ResendState<H>),
    Done(Result<(Signature, T), ClientError>),
}

impl<H: Copy> ResendState<H> {
    /// The state that sending starts from.
    pub open spec fn initial(ctx: SendContext, resend_count: usize) -> ResendState<H> {
        ResendState { ctx, resends_left: resend_count, phase: ResendPhase::Blockhash }
    }

    /// The event is the outcome of what is to be done in this phase.
    pub open spec fn awaits<T>(self, event: ResendEvent<H, T>) -> bool {
        match self.phase {
            ResendPhase::Blockhash => event is BlockhashFetched,
            ResendPhase::Attempt(_) => event is Attempted,
        }
    }

    /// What an event leads to. A blockhash that cannot be had ends it all; an
    /// attempt that fails does so only when no more may follow. An event that
    /// is not awaited changes nothing.
    pub open spec fn next<T>(self, event: ResendEvent<H, T>) -> ResendStep<H, T> {
        match (self.phase, event) {
            (ResendPhase::Blockhash, ResendEvent::BlockhashFetched(Ok(blockhash))) => {
                ResendStep::Continue(ResendState { phase: ResendPhase::Attempt(blockhash), ..self })
            },
            (ResendPhase::Blockhash, ResendEvent::BlockhashFetched(Err(error))) => {
                ResendStep::Done(Err(error))
            },
            (ResendPhase::Attempt(_), ResendEvent::Attempted(Ok(sent))) => {
                ResendStep::Done(Ok(sent))
            },
            (ResendPhase::Attempt(_), ResendEvent::Attempted(Err(error))) => {
                if self.resends_left == 0 {
                    ResendStep::Done(Err(error))
                } else {
                    ResendStep::Continue(
                        ResendState {
                            resends_left: (self.resends_left - 1) as usize,
                            phase: ResendPhase::Blockhash,
                            ..self
                        },
                    )
                }
            },
            _ => ResendStep::Continue(self),
        }
    }

    /// Starts to send, with up to `resend_count` attempts after the first.
    pub fn new(ctx: SendContext, resend_count: usize) -> (state: ResendState<H>)
        ensures
            state == ResendState::<H>::initial(ctx, resend_count),
            state.ctx == ctx,
            state.resends_left == resend_count,
            state.phase is Blockhash,
    {
        ResendState { ctx, resends_left: resend_count, phase: ResendPhase::Blockhash }
    }

    /// What is to be done in this phase.
    pub open spec fn due(self) -> ResendAction<H> {
        match self.phase {
            ResendPhase::Blockhash => ResendAction::FetchBlockhash,
            ResendPhase::Attempt(blockhash) => ResendAction::Attempt(blockhash, self.ctx),
        }
    }

    /// What to do in this phase. Every attempt gets the whole context.
    pub fn action(&self) -> (action: ResendAction<H>)
        ensures
            action == self.due(),
            action == (match self.phase {
                ResendPhase::Blockhash => ResendAction::FetchBlockhash,
                ResendPhase::Attempt(blockhash) => ResendAction::Attempt(blockhash, self.ctx),
            }),
    {
        match self.phase {
            ResendPhase::Blockhash => ResendAction::FetchBlockhash,
            ResendPhase::Attempt(blockhash) => ResendAction::Attempt(blockhash, self.ctx.clone()),
        }
    }

    /// Takes the outcome of the action. An event that is not awaited changes
    /// nothing.
    pub fn step<T>(self, event: ResendEvent<H, T>) -> (step: ResendStep<H, T>)
        ensures
            step == self.next(event),
            // It ends with what the last event brought.
            step matches ResendStep::Done(Ok(sent)) ==> self.phase is Attempt && event
                == ResendEvent::<H, T>::Attempted(Ok(sent)),
            step matches ResendStep::Done(Err(error)) ==> {
                ||| self.phase is Blockhash && event == ResendEvent::<H, T>::BlockhashFetched(
                    Err(error),
                )
                ||| self.phase is Attempt && self.resends_left == 0 && event == ResendEvent::<
                    H,
                    T,
                >::Attempted(Err(error))
            },
            // It goes on with the blockhash, or with one attempt fewer.
            self.phase is Blockhash ==> (event matches ResendEvent::BlockhashFetched(answer) ==> (
            step is Continue <==> answer is Ok)),
            self.phase is Attempt ==> (event matches ResendEvent::Attempted(outcome) ==> (
            step is Continue <==> outcome is Err && self.resends_left > 0)),
            step matches ResendStep::Continue(next) ==> {
                &&& next.ctx == self.ctx
                &&& match (self.phase, event) {
                    (ResendPhase::Blockhash, ResendEvent::BlockhashFetched(answer)) => next.phase
                        == ResendPhase::Attempt(answer->Ok_0) && next.resends_left
                        == self.resends_left,
                    (ResendPhase::Attempt(_), ResendEvent::Attempted(_)) => next.phase
                        == ResendPhase::<H>::Blockhash && next.resends_left == self.resends_left
                        - 1,
                    _ => next == self,
                }
            },
    {
        let mut state = self;
        match event {
            ResendEvent::BlockhashFetched(answer) => {
                if let ResendPhase::Blockhash = state.phase {
                    match answer {
                        Ok(blockhash) => {
                            state.phase = ResendPhase::Attempt(blockhash);
                        },
                        Err(error) => {
                            return ResendStep::Done(Err(error));
                        },
                    }
                }
            },
            ResendEvent::Attempted(outcome) => {
                if let ResendPhase::Attempt(_) = state.phase {
                    match outcome {
                        Ok(sent) => {
                            return ResendStep::Done(Ok(sent));
                        },
                        Err(error) => {
                            if state.resends_left == 0 {
                                return ResendStep::Done(Err(error));
                            }
                            state.resends_left = state.resends_left - 1;
                            state.phase = ResendPhase::Blockhash;
                        },
                    }
                }
            },
        }
        ResendStep::Continue(state)
    }
}

/// Where the events lead from a state, if each is awaited when it comes and
/// none comes after the end.
pub open spec fn resending<H: Copy, T>(
    start: ResendState<H>,
    events: Seq<ResendEvent<H, T>>,
) -> Option<ResendStep<H, T>>
    decreases events.len(),
{
    if events.len() == 0 {
        Some(ResendStep::Continue(start))
    } else {
        match resending(start, events.drop_last()) {
            Some(ResendStep::Continue(state)) if state.awaits(events.last()) => Some(
                state.next(events.last()),
            ),
            _ => None,
        }
    }
}

/// How many attempts were made.
pub open spec fn attempts<H, T>(events: Seq<ResendEvent<H, T>>) -> nat
    decreases events.len(),
{
    if events.len() == 0 {
        0
    } else {
        attempts(events.drop_last()) + if events.last() is Attempted {
            1nat
        } else {
            0
        }
    }
}

/// How a run that goes on stands: the context is untouched, the attempts made
/// and those left add up, and each attempt is made on the blockhash fetched
/// just before.
proof fn lemma_resending<H: Copy, T>(
    ctx: SendContext,
    resend_count: usize,
    events: Seq<ResendEvent<H, T>>,
)
    requires
        resending(ResendState::initial(ctx, resend_count), events) matches Some(
            ResendStep::Continue(_),
        ),
    ensures
        resending(ResendState::initial(ctx, resend_count), events) matches Some(
            ResendStep::Continue(state),
        ) && {
            &&& state.ctx == ctx
            &&& attempts(events) + state.resends_left == resend_count
            &&& match state.phase {
                ResendPhase::Blockhash => events.len() % 2 == 0,
                ResendPhase::Attempt(blockhash) => events.len() % 2 == 1 && events.last()
                    == ResendEvent::<H, T>::BlockhashFetched(Ok(blockhash)),
            }
        },
    decreases events.len(),
{
    if events.len() > 0 {
        lemma_resending(ctx, resend_count, events.drop_last());
    }
}

/// The state of a run before its last event.
proof fn lemma_resending_front<H: Copy, T>(
    ctx: SendContext,
    resend_count: usize,
    events: Seq<ResendEvent<H, T>>,
) -> (state: ResendState<H>)
    requires
        resending(ResendState::initial(ctx, resend_count), events) is Some,
        events.len() > 0,
    ensures
        resending(ResendState::initial(ctx, resend_count), events.drop_last()) == Some(
            ResendStep::<H, T>::Continue(state),
        ),
        state.awaits(events.last()),
        state.ctx == ctx,
        attempts(events.drop_last()) + state.resends_left == resend_count,
        state.phase is Attempt <==> events.drop_last().len() % 2 == 1,
{
    lemma_resending(ctx, resend_count, events.drop_last());
    match resending(ResendState::initial(ctx, resend_count), events.drop_last()) {
        Some(ResendStep::Continue(state)) => state,
        _ => ResendState::initial(ctx, resend_count),
    }
}

/// The context stays as it was throughout a run, so that every attempt starts
/// with all of it.
pub proof fn resending_keeps_the_context<H: Copy, T>(
    ctx: SendContext,
    resend_count: usize,
    events: Seq<ResendEvent<H, T>>,
    state: ResendState<H>,
)
    requires
        resending(ResendState::initial(ctx, resend_count), events) == Some(
            ResendStep::<H, T>::Continue(state),
        ),
    ensures
        state.ctx == ctx,
{
    lemma_resending(ctx, resend_count, events);
}

/// Every attempt is made on a blockhash that was fetched just before it, and
/// fetches and attempts take turns.
pub proof fn each_attempt_has_a_fresh_blockhash<H: Copy, T>(
    ctx: SendContext,
    resend_count: usize,
    events: Seq<ResendEvent<H, T>>,
    i: int,
)
    requires
        resending(ResendState::initial(ctx, resend_count), events) is Some,
        0 <= i < events.len(),
    ensures
        i % 2 == 0 <==> events[i] is BlockhashFetched,
        i % 2 == 1 ==> events[i - 1] matches ResendEvent::BlockhashFetched(Ok(_)),
    decreases events.len(),
{
    let state = lemma_resending_front(ctx, resend_count, events);
    if i < events.len() - 1 {
        each_attempt_has_a_fresh_blockhash(ctx, resend_count, events.drop_last(), i);
    } else {
        lemma_resending(ctx, resend_count, events.drop_last());
    }
}

/// There are at most as many attempts as the count allows, the first not counted.
pub proof fn attempts_are_bounded<H: Copy, T>(
    ctx: SendContext,
    resend_count: usize,
    events: Seq<ResendEvent<H, T>>,
)
    requires
        resending(ResendState::initial(ctx, resend_count), events) is Some,
    ensures
        attempts(events) <= resend_count + 1,
{
    if events.len() > 0 {
        let state = lemma_resending_front(ctx, resend_count, events);
    }
}

/// The first attempt that succeeds ends the run with what it returned, and
/// nothing else ends it well.
pub proof fn first_success_is_returned<H: Copy, T>(
    ctx: SendContext,
    resend_count: usize,
    events: Seq<ResendEvent<H, T>>,
    sent: (Signature, T),
)
    ensures
        resending(ResendState::initial(ctx, resend_count), events) == Some(
            ResendStep::<H, T>::Done(Ok(sent)),
        ) <==> {
            &&& resending(ResendState::initial(ctx, resend_count), events) is Some
            &&& events.len() > 0
            &&& events.last() == ResendEvent::<H, T>::Attempted(Ok(sent))
        },
{
}

/// No attempt before the last event succeeded.
pub proof fn earlier_attempts_failed<H: Copy, T>(
    ctx: SendContext,
    resend_count: usize,
    events: Seq<ResendEvent<H, T>>,
    i: int,
)
    requires
        resending(ResendState::initial(ctx, resend_count), events) is Some,
        0 <= i < events.len() - 1,
        events[i] is Attempted,
    ensures
        events[i] matches ResendEvent::Attempted(Err(_)),
    decreases events.len(),
{
    let front = events.drop_last();
    let state = lemma_resending_front(ctx, resend_count, events);
    if i < front.len() - 1 {
        earlier_attempts_failed(ctx, resend_count, front, i);
    } else {
        assert(front.last() == events[i]);
    }
}

/// A run fails in two ways only, each time with the error of the last event:
/// the blockhash could not be fetched, or the last attempt that was allowed
/// failed.
pub proof fn failure_uses_up_the_attempts<H: Copy, T>(
    ctx: SendContext,
    resend_count: usize,
    events: Seq<ResendEvent<H, T>>,
    error: ClientError,
)
    requires
        resending(ResendState::initial(ctx, resend_count), events) is Some,
    ensures
        resending(ResendState::initial(ctx, resend_count), events) == Some(
            ResendStep::<H, T>::Done(Err(error)),
        ) <==> {
            &&& events.len() > 0
            &&& {
                ||| events.last() == ResendEvent::<H, T>::BlockhashFetched(Err(error))
                ||| events.last() == ResendEvent::<H, T>::Attempted(Err(error)) && attempts(events)
                    == resend_count + 1
            }
        },
{
    if events.len() > 0 {
        let state = lemma_resending_front(ctx, resend_count, events);
    }
}

/// Every attempt follows a fetch, so that the attempts are half of the events.
pub proof fn attempts_are_every_second_event<H: Copy, T>(
    ctx: SendContext,
    resend_count: usize,
    events: Seq<ResendEvent<H, T>>,
)
    requires
        resending(ResendState::initial(ctx, resend_count), events) is Some,
    ensures
        attempts(events) == events.len() / 2,
    decreases events.len(),
{
    if events.len() > 0 {
        let state = lemma_resending_front(ctx, resend_count, events);
        attempts_are_every_second_event(ctx, resend_count, events.drop_last());
    }
}

/// A run ends exactly so: on a blockhash that could not be fetched, with that
/// error; on an attempt that succeeded, with what it returned; or on the last
/// attempt that the count allows, with its error, after a fetch and an attempt
/// for the first and for each of the count.
pub proof fn resending_ends_only_so<H: Copy, T>(
    ctx: SendContext,
    resend_count: usize,
    events: Seq<ResendEvent<H, T>>,
    outcome: Result<(Signature, T), ClientError>,
)
    requires
        resending(ResendState::initial(ctx, resend_count), events) is Some,
    ensures
        resending(ResendState::initial(ctx, resend_count), events) == Some(
            ResendStep::<H, T>::Done(outcome),
        ) <==> {
            &&& events.len() > 0
            &&& match outcome {
                Ok(sent) => events.last() == ResendEvent::<H, T>::Attempted(Ok(sent)),
                Err(error) => {
                    ||| events.last() == ResendEvent::<H, T>::BlockhashFetched(Err(error))
                    ||| events.last() == ResendEvent::<H, T>::Attempted(Err(error))
                        && events.len() == 2 * (resend_count + 1)
                },
            }
        },
{
    if events.len() > 0 {
        let state = lemma_resending_front(ctx, resend_count, events);
        attempts_are_every_second_event(ctx, resend_count, events.drop_last());
    }
}

/// What is to be done next follows from what came last: a blockhash is fetched
/// at first and after every failed attempt, and an attempt is made on the
/// blockhash that was just fetched, by the whole context.
pub proof fn what_is_due_follows_from_the_last_event<H: Copy, T>(
    ctx: SendContext,
    resend_count: usize,
    events: Seq<ResendEvent<H, T>>,
    state: ResendState<H>,
)
    requires
        resending(ResendState::initial(ctx, resend_count), events) == Some(
            ResendStep::<H, T>::Continue(state),
        ),
    ensures
        events.len() == 0 ==> state.due() == ResendAction::<H>::FetchBlockhash,
        events.len() > 0 ==> match events.last() {
            ResendEvent::BlockhashFetched(Ok(blockhash)) => state.due() == ResendAction::Attempt(
                blockhash,
                ctx,
            ),
            ResendEvent::BlockhashFetched(Err(_)) => false,
            ResendEvent::Attempted(Ok(_)) => false,
            ResendEvent::Attempted(Err(_)) => state.due() == ResendAction::<H>::FetchBlockhash,
        },
{
    lemma_resending(ctx, resend_count, events);
    if events.len() > 0 {
        let before = lemma_resending_front(ctx, resend_count, events);
    }
}

/// Whatever comes of what is due is taken: no answer to it stops the run
/// short of an outcome.
pub proof fn every_answer_is_taken<H: Copy, T>(
    ctx: SendContext,
    resend_count: usize,
    events: Seq<ResendEvent<H, T>>,
    state: ResendState<H>,
    event: ResendEvent<H, T>,
)
    requires
        resending(ResendState::initial(ctx, resend_count), events) == Some(
            ResendStep::<H, T>::Continue(state),
        ),
        match state.due() {
            ResendAction::FetchBlockhash => event is BlockhashFetched,
            ResendAction::Attempt(_, _) => event is Attempted,
        },
    ensures
        resending(ResendState::initial(ctx, resend_count), events.push(event)) is Some,
        resending(ResendState::initial(ctx, resend_count), events.push(event)) == Some(
            state.next(event),
        ),
{
    assert(events.push(event).drop_last() =~= events);
}

} // verus!
