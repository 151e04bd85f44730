//! Sending one transaction: blockhash check, submission, confirmation.
use crate::base58::base58_text;
use crate::duration::duration_nanos;
use crate::signature::Signature;
use solana_rpc_client_api::client_error::Error as ClientError;
use solana_sdk::transaction::TransactionError;
use std::time::Duration;
use vstd::prelude::*;

verus! {

/// How a transaction is to be sent.
#[derive(Debug)]
pub struct SendContext {
    /// How long to wait for a confirmation.
    pub confirm_duration: Duration,
    /// How long to wait between two requests for it.
    pub confirm_request_pause: Duration,
    /// Whether to ask the node for the transaction's blockhash first.
    pub blockhash_validation: bool,
    /// How many failed status requests to pass over.
    pub ignorable_errors_count: usize,
}

impl Default for SendContext {
    fn default() -> (ctx: SendContext)
        ensures
            duration_nanos(ctx.confirm_duration) == 60_000_000_000,
            duration_nanos(ctx.confirm_request_pause) == 1_000_000_000,
            ctx.blockhash_validation,
            ctx.ignorable_errors_count == 0,
    {
        SendContext {
            confirm_duration: Duration::from_secs(60),
            confirm_request_pause: Duration::from_secs(1),
            blockhash_validation: true,
            ignorable_errors_count: 0,
        }
    }
}

impl Clone for SendContext {
    fn clone(&self) -> (copy: SendContext)
        ensures
            copy == *self,
    {
        SendContext {
            confirm_duration: self.confirm_duration,
            confirm_request_pause: self.confirm_request_pause,
            blockhash_validation: self.blockhash_validation,
            ignorable_errors_count: self.ignorable_errors_count,
        }
    }
}

/// How settled the state has to be that a node answers from.
#[derive(Debug, Clone, Copy, PartialEq, Eq)]
pub enum CommitmentLevel {
    /// The node's latest block.
    Processed,
    /// The latest block that most of the stake has voted for.
    Confirmed,
    /// The latest block that cannot be undone.
    Finalized,
}

/// What the sender waits for.
#[derive(Debug, Clone, Copy)]
pub enum SendPhase {
    /// Whether the node knows the blockhash.
    Blockhash,
    /// The clock, from which the time for the confirmation runs.
    Clock,
    /// The node's answer to the transaction.
    Submission,
    /// The status of the transaction that the node calls by this signature.
    Status(Signature),
    /// How much time has passed.
    Deadline(Signature),
    /// The end of the pause before the transaction is submitted again.
    Pause,
}

/// What to do next.
#[derive(Debug, Clone, Copy)]
pub enum SendAction {
    /// Ask the node, at this commitment, whether the blockhash of the
    /// transaction is valid.
    ValidateBlockhash(CommitmentLevel),
    /// Note the time.
    StartClock,
    /// Send the transaction to the node.
    Submit,
    /// Ask for the status of the transaction.
    RequestStatus(Signature),
    /// Read the time that has passed since the clock was started.
    ReadClock,
    /// Wait.
    Sleep(Duration),
}

/// What came of it. `T` is the status that the caller's own request returns.
pub enum SendEvent<T> {
    BlockhashChecked(Result<bool, ClientError>),
    ClockStarted,
    Submitted(Result<Signature, ClientError>),
    StatusReceived(Result<Option<T>, ClientError>),
    TimePassed(Duration),
    Rested,
}

/// Why a transaction was not confirmed.
#[derive(Debug)]
pub enum SendError {
    /// A request to the node failed.
    Client(ClientError),
    /// The node does not know the blockhash of the transaction.
    BlockhashNotFound(Signature),
    /// The node could not be asked for the blockhash of the transaction.
    BlockhashNotChecked(Signature),
    /// The time was over before the transaction was confirmed.
    Unconfirmed(Signature),
}

/// A transaction that is being sent.
pub struct SendState {
    pub ctx: SendContext,
    /// The transaction's own signature.
    pub transaction: Signature,
    /// How many more failed status requests to pass over.
    pub errors_left: usize,
    pub phase: SendPhase,
}

/// What an event leads to.
pub enum SendStep<T> {
    Continue(SendState),
    Done(Result<(Signature, T), SendError>),
}

impl SendState {
    /// The same sending in another phase.
    pub open spec fn at(self, phase: SendPhase) -> SendState {
        SendState { phase, ..self }
    }

    /// The state that sending a transaction starts from.
    pub open spec fn initial(ctx: SendContext, transaction: Signature) -> SendState {
        SendState {
            ctx,
            transaction,
            errors_left: ctx.ignorable_errors_count,
            phase: if ctx.blockhash_validation {
                SendPhase::Blockhash
            } else {
                SendPhase::Clock
            },
        }
    }

    /// The event is the outcome of what is to be done in this phase.
    pub open spec fn awaits<T>(self, event: SendEvent<T>) -> bool {
        match self.phase {
            SendPhase::Blockhash => event is BlockhashChecked,
            SendPhase::Clock => event is ClockStarted,
            SendPhase::Submission => event is Submitted,
            SendPhase::Status(_) => event is StatusReceived,
            SendPhase::Deadline(_) => event is TimePassed,
            SendPhase::Pause => event is Rested,
        }
    }

    /// The time for the confirmation is over.
    pub open spec fn is_late(self, passed: Duration) -> bool {
        duration_nanos(self.ctx.confirm_duration) < duration_nanos(passed)
    }

    /// What an event leads to. An event that is not awaited changes nothing.
    pub open spec fn next<T>(self, event: SendEvent<T>) -> SendStep<T> {
        match (self.phase, event) {
            (SendPhase::Blockhash, SendEvent::BlockhashChecked(Ok(true))) => {
                SendStep::Continue(self.at(SendPhase::Clock))
            },
            (SendPhase::Blockhash, SendEvent::BlockhashChecked(Ok(false))) => {
                SendStep::Done(Err(SendError::BlockhashNotFound(self.transaction)))
            },
            (SendPhase::Blockhash, SendEvent::BlockhashChecked(Err(_))) => {
                SendStep::Done(Err(SendError::BlockhashNotChecked(self.transaction)))
            },
            (SendPhase::Clock, SendEvent::ClockStarted) => {
                SendStep::Continue(self.at(SendPhase::Submission))
            },
            (SendPhase::Submission, SendEvent::Submitted(Ok(signature))) => {
                SendStep::Continue(self.at(SendPhase::Status(signature)))
            },
            (SendPhase::Submission, SendEvent::Submitted(Err(error))) => {
                SendStep::Done(Err(SendError::Client(error)))
            },
            (SendPhase::Status(signature), SendEvent::StatusReceived(Ok(Some(status)))) => {
                SendStep::Done(Ok((signature, status)))
            },
            (SendPhase::Status(signature), SendEvent::StatusReceived(Ok(None))) => {
                SendStep::Continue(self.at(SendPhase::Deadline(signature)))
            },
            (SendPhase::Status(signature), SendEvent::StatusReceived(Err(error))) => {
                if self.errors_left == 0 {
                    SendStep::Done(Err(SendError::Client(error)))
                } else {
                    SendStep::Continue(
                        SendState {
                            errors_left: (self.errors_left - 1) as usize,
                            phase: SendPhase::Deadline(signature),
                            ..self
                        },
                    )
                }
            },
            (SendPhase::Deadline(signature), SendEvent::TimePassed(passed)) => {
                if self.is_late(passed) {
                    SendStep::Done(Err(SendError::Unconfirmed(signature)))
                } else {
                    SendStep::Continue(self.at(SendPhase::Pause))
                }
            },
            (SendPhase::Pause, SendEvent::Rested) => {
                SendStep::Continue(self.at(SendPhase::Submission))
            },
            _ => SendStep::Continue(self),
        }
    }

    /// Starts to send a transaction.
    pub fn new(ctx: SendContext, transaction: Signature) -> (state: SendState)
        ensures
            state == SendState::initial(ctx, transaction),
            state.ctx == ctx,
            state.transaction == transaction,
            state.errors_left == ctx.ignorable_errors_count,
            ctx.blockhash_validation ==> state.phase is Blockhash,
            !ctx.blockhash_validation ==> state.phase is Clock,
    {
        let errors_left: usize = ctx.ignorable_errors_count;
        let phase = if ctx.blockhash_validation {
            SendPhase::Blockhash
        } else {
            SendPhase::Clock
        };
        SendState { ctx, transaction, errors_left, phase }
    }

    /// What is to be done in this phase.
    pub open spec fn due(self) -> SendAction {
        match self.phase {
            SendPhase::Blockhash => SendAction::ValidateBlockhash(CommitmentLevel::Processed),
            SendPhase::Clock => SendAction::StartClock,
            SendPhase::Submission => SendAction::Submit,
            SendPhase::Status(signature) => SendAction::RequestStatus(signature),
            SendPhase::Deadline(_) => SendAction::ReadClock,
            SendPhase::Pause => SendAction::Sleep(self.ctx.confirm_request_pause),
        }
    }

    /// What to do in this phase. The blockhash is checked at the processed
    /// commitment.
    pub fn action(&self) -> (action: SendAction)
        ensures
            action == self.due(),
            action == (match self.phase {
                SendPhase::Blockhash => SendAction::ValidateBlockhash(CommitmentLevel::Processed),
                SendPhase::Clock => SendAction::StartClock,
                SendPhase::Submission => SendAction::Submit,
                SendPhase::Status(signature) => SendAction::RequestStatus(signature),
                SendPhase::Deadline(_) => SendAction::ReadClock,
                SendPhase::Pause => SendAction::Sleep(self.ctx.confirm_request_pause),
            }),
    {
        match self.phase {
            SendPhase::Blockhash => SendAction::ValidateBlockhash(CommitmentLevel::Processed),
            SendPhase::Clock => SendAction::StartClock,
            SendPhase::Submission => SendAction::Submit,
            SendPhase::Status(signature) => SendAction::RequestStatus(signature),
            SendPhase::Deadline(_) => SendAction::ReadClock,
            SendPhase::Pause => SendAction::Sleep(self.ctx.confirm_request_pause),
        }
    }

    /// Takes the outcome of the action. An event that is not awaited changes
    /// nothing.
    pub fn step<T>(self, event: SendEvent<T>) -> (step: SendStep<T>)
        ensures
            step == self.next(event),
            // A run ends well with the status that came for the signature asked about.
            step matches SendStep::Done(Ok(sent)) ==> {
                &&& self.phase == SendPhase::Status(sent.0)
                &&& event == SendEvent::<T>::StatusReceived(Ok(Some(sent.1)))
            },
            // Each error has its own cause.
            step matches SendStep::Done(Err(SendError::BlockhashNotFound(named))) ==> {
                &&& event matches SendEvent::BlockhashChecked(Ok(valid)) && !valid
                &&& self.phase is Blockhash
                &&& named == self.transaction
            },
            step matches SendStep::Done(Err(SendError::BlockhashNotChecked(named))) ==> {
                &&& event matches SendEvent::BlockhashChecked(Err(_))
                &&& self.phase is Blockhash
                &&& named == self.transaction
            },
            step matches SendStep::Done(Err(SendError::Unconfirmed(named))) ==> {
                &&& event matches SendEvent::TimePassed(passed) && duration_nanos(passed)
                    > duration_nanos(self.ctx.confirm_duration)
                &&& self.phase matches SendPhase::Deadline(asked) && asked == named
            },
            step matches SendStep::Done(Err(SendError::Client(error))) ==> {
                ||| self.phase is Submission && event == SendEvent::<T>::Submitted(Err(error))
                ||| self.phase is Status && self.errors_left == 0 && event == SendEvent::<
                    T,
                >::StatusReceived(Err(error))
            },
            // Each of these causes ends the run.
            self.phase is Blockhash && event is BlockhashChecked ==> (step is Continue <==> event
                == SendEvent::<T>::BlockhashChecked(Ok(true))),
            self.phase is Submission && event is Submitted ==> (step is Continue <==> event matches
                SendEvent::Submitted(Ok(_))),
            self.phase is Status ==> (event matches SendEvent::StatusReceived(answer) ==> (
            step is Continue <==> answer == Ok::<Option<T>, ClientError>(None) || answer is Err
                && self.errors_left > 0)),
            self.phase is Deadline ==> (event matches SendEvent::TimePassed(passed) ==> (
            step is Continue <==> duration_nanos(passed) <= duration_nanos(
                self.ctx.confirm_duration,
            ))),
            // While it goes on, only failed status requests use up the budget.
            step matches SendStep::Continue(next) ==> {
                &&& next.ctx == self.ctx
                &&& next.transaction == self.transaction
                &&& next.errors_left == self.errors_left - if self.phase is Status && event matches
                    SendEvent::StatusReceived(Err(_)) {
                    1int
                } else {
                    0
                }
            },
            step matches SendStep::Continue(next) ==> match (self.phase, event) {
                (SendPhase::Blockhash, SendEvent::BlockhashChecked(_)) => next.phase is Clock,
                (SendPhase::Clock, SendEvent::ClockStarted) => next.phase is Submission,
                (SendPhase::Submission, SendEvent::Submitted(answer)) => next.phase
                    == SendPhase::Status(answer->Ok_0),
                (SendPhase::Status(signature), SendEvent::StatusReceived(_)) => next.phase
                    == SendPhase::Deadline(signature),
                (SendPhase::Deadline(_), SendEvent::TimePassed(_)) => next.phase is Pause,
                (SendPhase::Pause, SendEvent::Rested) => next.phase is Submission,
                _ => next.phase == self.phase,
            },
    {
        let mut state = self;
        match (state.phase, event) {
            (SendPhase::Blockhash, SendEvent::BlockhashChecked(Ok(true))) => {
                state.phase = SendPhase::Clock;
            },
            (SendPhase::Blockhash, SendEvent::BlockhashChecked(Ok(false))) => {
                return SendStep::Done(Err(SendError::BlockhashNotFound(state.transaction)));
            },
            (SendPhase::Blockhash, SendEvent::BlockhashChecked(Err(_))) => {
                return SendStep::Done(Err(SendError::BlockhashNotChecked(state.transaction)));
            },
            (SendPhase::Clock, SendEvent::ClockStarted) => {
                state.phase = SendPhase::Submission;
            },
            (SendPhase::Submission, SendEvent::Submitted(Ok(signature))) => {
                state.phase = SendPhase::Status(signature);
            },
            (SendPhase::Submission, SendEvent::Submitted(Err(error))) => {
                return SendStep::Done(Err(SendError::Client(error)));
            },
            (SendPhase::Status(signature), SendEvent::StatusReceived(answer)) => {
                match answer {
                    Ok(None) => {},
                    Ok(Some(status)) => {
                        return SendStep::Done(Ok((signature, status)));
                    },
                    Err(error) => {
                        if state.errors_left == 0 {
                            return SendStep::Done(Err(SendError::Client(error)));
                        }
                        state.errors_left = state.errors_left - 1;
                    },
                }
                state.phase = SendPhase::Deadline(signature);
            },
            (SendPhase::Deadline(signature), SendEvent::TimePassed(passed)) => {
                if state.ctx.confirm_duration.as_nanos() < passed.as_nanos() {
                    return SendStep::Done(Err(SendError::Unconfirmed(signature)));
                }
                state.phase = SendPhase::Pause;
            },
            (SendPhase::Pause, SendEvent::Rested) => {
                state.phase = SendPhase::Submission;
            },
            _ => {},
        }
        SendStep::Continue(state)
    }
}

/// The error that a message for the user becomes.
pub uninterp spec fn user_error(message: Seq<char>) -> ClientError;

/// Makes `solana_rpc_client_api::request::RpcError::ForUser` and converts it
/// to a client error by `into`.
///
/// Taken on trust: the error depends on the message alone.
#[verifier::external_body]
fn for_user(message: String) -> (error: ClientError)
    ensures
        error == user_error(message@),
{
    solana_rpc_client_api::request::RpcError::ForUser(message).into()
}

impl SendError {
    /// The transaction that the error is about.
    pub open spec fn signature(self) -> Signature
        recommends
            !(self is Client),
    {
        match self {
            SendError::BlockhashNotFound(signature) => signature,
            SendError::BlockhashNotChecked(signature) => signature,
            SendError::Unconfirmed(signature) => signature,
            SendError::Client(_) => arbitrary(),
        }
    }

    /// What the user is told, unless the node's own error says it.
    pub open spec fn message_text(self) -> Option<Seq<char>> {
        match self {
            SendError::Client(_) => None,
            SendError::BlockhashNotFound(signature) => Some(
                "Transaction "@ + base58_text(signature@) + " blockhash not found by rpc"@,
            ),
            SendError::BlockhashNotChecked(signature) => Some(
                "Error via transaction "@ + base58_text(signature@) + " blockhash requesting"@,
            ),
            SendError::Unconfirmed(signature) => Some(
                "Unable to confirm transaction "@ + base58_text(signature@) + "."@,
            ),
        }
    }

    /// Writes what the user is told, unless the node's own error says it.
    pub fn message(&self) -> (message: Option<String>)
        ensures
            match message {
                Some(text) => self.message_text() == Some(text@),
                None => self.message_text() is None,
            },
            match *self {
                SendError::Client(_) => message is None,
                SendError::BlockhashNotFound(signature) => message matches Some(text) && text@
                    == "Transaction "@ + base58_text(signature.bytes@)
                    + " blockhash not found by rpc"@,
                SendError::BlockhashNotChecked(signature) => message matches Some(text) && text@
                    == "Error via transaction "@ + base58_text(signature.bytes@)
                    + " blockhash requesting"@,
                SendError::Unconfirmed(signature) => message matches Some(text) && text@
                    == "Unable to confirm transaction "@ + base58_text(signature.bytes@) + "."@,
            },
    {
        match self {
            SendError::Client(_) => None,
            SendError::BlockhashNotFound(signature) => Some(
                enclosed("Transaction ", signature, " blockhash not found by rpc"),
            ),
            SendError::BlockhashNotChecked(signature) => Some(
                enclosed("Error via transaction ", signature, " blockhash requesting"),
            ),
            SendError::Unconfirmed(signature) => Some(
                enclosed("Unable to confirm transaction ", signature, "."),
            ),
        }
    }

    /// The client error that stands for this error.
    pub open spec fn client_error(self) -> ClientError {
        match self {
            SendError::Client(error) => error,
            _ => user_error(self.message_text()->0),
        }
    }

    /// Turns the error into a client error: the node's own error as it is,
    /// any other as a message for the user.
    pub fn into_client_error(self) -> (error: ClientError)
        ensures
            error == self.client_error(),
            match self {
                SendError::Client(cause) => error == cause,
                SendError::BlockhashNotFound(signature) => error == user_error(
                    "Transaction "@ + base58_text(signature.bytes@)
                        + " blockhash not found by rpc"@,
                ),
                SendError::BlockhashNotChecked(signature) => error == user_error(
                    "Error via transaction "@ + base58_text(signature.bytes@)
                        + " blockhash requesting"@,
                ),
                SendError::Unconfirmed(signature) => error == user_error(
                    "Unable to confirm transaction "@ + base58_text(signature.bytes@) + "."@,
                ),
            },
    {
        match self {
            SendError::Client(error) => error,
            failure => match failure.message() {
                Some(message) => for_user(message),
                None => vstd::pervasive::unreached(),
            },
        }
    }
}

/// A message names the transaction: the signature's text stands in it, between
/// words that depend on the kind of error alone.
pub proof fn message_names_the_transaction(a: SendError, b: SendError)
    requires
        a is BlockhashNotFound && b is BlockhashNotFound || a is BlockhashNotChecked
            && b is BlockhashNotChecked || a is Unconfirmed && b is Unconfirmed,
    ensures
        a.message_text() matches Some(text) && b.message_text() matches Some(other) && exists|
            front: Seq<char>,
            back: Seq<char>,
        |
            text == #[trigger] (front + base58_text(a.signature().bytes@) + back) && other == front
                + base58_text(b.signature().bytes@) + back && front.len() >= 12 && back.len() >= 1,
{
    reveal_strlit("Transaction ");
    reveal_strlit(" blockhash not found by rpc");
    reveal_strlit("Error via transaction ");
    reveal_strlit(" blockhash requesting");
    reveal_strlit("Unable to confirm transaction ");
    reveal_strlit(".");
    let (front, back) = match a {
        SendError::BlockhashNotFound(_) => ("Transaction "@, " blockhash not found by rpc"@),
        SendError::BlockhashNotChecked(_) => ("Error via transaction "@, " blockhash requesting"@),
        _ => ("Unable to confirm transaction "@, "."@),
    };
    assert(a.message_text()->0 == front + base58_text(a.signature().bytes@) + back);
}

/// Errors of different kinds have different messages, and only an error of
/// the node's own has none.
pub proof fn messages_tell_the_kinds_apart(a: SendError, b: SendError)
    ensures
        a.message_text() is None <==> a is Client,
        a.message_text() is Some && a.message_text() == b.message_text() ==> (
        a is BlockhashNotFound <==> b is BlockhashNotFound) && (a is BlockhashNotChecked
            <==> b is BlockhashNotChecked) && (a is Unconfirmed <==> b is Unconfirmed),
{
    reveal_strlit("Transaction ");
    reveal_strlit("Error via transaction ");
    reveal_strlit("Unable to confirm transaction ");
    if a.message_text() is Some && b.message_text() is Some {
        assert(a.message_text()->0[0] == (match a {
            SendError::BlockhashNotFound(_) => 'T',
            SendError::BlockhashNotChecked(_) => 'E',
            _ => 'U',
        }));
        assert(b.message_text()->0[0] == (match b {
            SendError::BlockhashNotFound(_) => 'T',
            SendError::BlockhashNotChecked(_) => 'E',
            _ => 'U',
        }));
    }
}

/// The signature's text between two others.
fn enclosed(front: &str, signature: &Signature, back: &str) -> (text: String)
    ensures
        text@ == front@ + base58_text(signature@) + back@,
{
    let mut text = String::from_str(front);
    text.append(signature.text().as_str());
    text.append(back);
    text
}

/// Keeps of the status of a sent transaction only the error, if there is one.
pub fn with_simple_status(
    outcome: Result<(Signature, Result<(), TransactionError>), ClientError>,
) -> (simple: Result<(Signature, Option<TransactionError>), ClientError>)
    ensures
        simple == match outcome {
            Ok((signature, Ok(()))) => Ok((signature, None)),
            Ok((signature, Err(error))) => Ok((signature, Some(error))),
            Err(error) => Err(error),
        },
{
    match outcome {
        Ok((signature, Ok(()))) => Ok((signature, None)),
        Ok((signature, Err(error))) => Ok((signature, Some(error))),
        Err(error) => Err(error),
    }
}

} // verus!
