use de_solana_client::send::with_simple_status;
use de_solana_client::{
    CommitmentLevel, SendAction, SendContext, SendError, SendEvent, SendState, SendStep, Signature,
};
use solana_rpc_client_api::client_error::Error as ClientError;
use solana_rpc_client_api::client_error::ErrorKind;
use solana_rpc_client_api::request::RpcError;
use solana_sdk::transaction::TransactionError;
use std::time::Duration;

fn of(byte: u8) -> Signature {
    Signature { bytes: [byte; 64] }
}

fn failure(text: &str) -> ClientError {
    RpcError::ForUser(text.to_string()).into()
}

fn context(blockhash_validation: bool, ignorable_errors_count: usize) -> SendContext {
    SendContext {
        confirm_duration: Duration::from_secs(5),
        confirm_request_pause: Duration::from_millis(250),
        blockhash_validation,
        ignorable_errors_count,
    }
}

fn go_on(state: SendState, event: SendEvent<u32>) -> SendState {
    match state.step(event) {
        SendStep::Continue(next) => next,
        SendStep::Done(_) => panic!("ended early"),
    }
}

fn end(state: SendState, event: SendEvent<u32>) -> Result<(Signature, u32), SendError> {
    match state.step(event) {
        SendStep::Continue(_) => panic!("goes on"),
        SendStep::Done(outcome) => outcome,
    }
}

fn submitted(ctx: SendContext) -> SendState {
    let state = SendState::new(ctx, of(1));
    let state = go_on(state, SendEvent::ClockStarted);
    assert!(matches!(state.action(), SendAction::Submit));
    go_on(state, SendEvent::Submitted(Ok(of(2))))
}

#[test]
fn default_context() {
    let ctx = SendContext::default();
    assert_eq!(ctx.confirm_duration, Duration::from_secs(60));
    assert_eq!(ctx.confirm_request_pause, Duration::from_secs(1));
    assert!(ctx.blockhash_validation);
    assert_eq!(ctx.ignorable_errors_count, 0);
}

#[test]
fn cloned_context_is_the_same() {
    let ctx = context(false, 3).clone();
    assert_eq!(ctx.confirm_duration, Duration::from_secs(5));
    assert_eq!(ctx.confirm_request_pause, Duration::from_millis(250));
    assert!(!ctx.blockhash_validation);
    assert_eq!(ctx.ignorable_errors_count, 3);
}

#[test]
fn confirmed_at_once() {
    let state = SendState::new(context(true, 0), of(1));
    assert!(matches!(
        state.action(),
        SendAction::ValidateBlockhash(CommitmentLevel::Processed)
    ));
    let state = go_on(state, SendEvent::BlockhashChecked(Ok(true)));
    assert!(matches!(state.action(), SendAction::StartClock));
    let state = go_on(state, SendEvent::ClockStarted);
    assert!(matches!(state.action(), SendAction::Submit));
    let state = go_on(state, SendEvent::Submitted(Ok(of(2))));
    assert!(matches!(state.action(), SendAction::RequestStatus(signature) if signature == of(2)));
    let (signature, status) = end(state, SendEvent::StatusReceived(Ok(Some(7)))).unwrap();
    assert_eq!(signature, of(2));
    assert_eq!(status, 7);
}

#[test]
fn unknown_blockhash_is_not_sent() {
    let state = SendState::new(context(true, 5), of(1));
    let error = end(state, SendEvent::BlockhashChecked(Ok(false))).unwrap_err();
    assert!(matches!(error, SendError::BlockhashNotFound(signature) if signature == of(1)));
    let text = format!("Transaction {} blockhash not found by rpc", of(1).text());
    assert_eq!(error.message(), Some(text.clone()));
    assert_eq!(error.into_client_error().to_string(), text);
}

#[test]
fn unchecked_blockhash_is_not_sent() {
    let state = SendState::new(context(true, 5), of(1));
    let event = SendEvent::BlockhashChecked(Err(failure("down")));
    let error = end(state, event).unwrap_err();
    assert!(matches!(error, SendError::BlockhashNotChecked(signature) if signature == of(1)));
    let text = format!("Error via transaction {} blockhash requesting", of(1).text());
    assert_eq!(error.message(), Some(text.clone()));
    assert_eq!(error.into_client_error().to_string(), text);
}

#[test]
fn blockhash_is_not_asked_for_without_need() {
    let state = SendState::new(context(false, 0), of(1));
    assert!(matches!(state.action(), SendAction::StartClock));
}

#[test]
fn a_valid_blockhash_changes_nothing_else() {
    let validated = SendState::new(context(true, 1), of(1));
    let mut validated = go_on(validated, SendEvent::BlockhashChecked(Ok(true)));
    let mut plain = SendState::new(context(false, 1), of(1));
    let events: [fn() -> SendEvent<u32>; 6] = [
        || SendEvent::ClockStarted,
        || SendEvent::Submitted(Ok(of(2))),
        || SendEvent::StatusReceived(Err(failure("busy"))),
        || SendEvent::TimePassed(Duration::from_secs(1)),
        || SendEvent::Rested,
        || SendEvent::Submitted(Ok(of(3))),
    ];
    for event in events {
        validated = go_on(validated, event());
        plain = go_on(plain, event());
        assert_eq!(validated.errors_left, plain.errors_left);
        assert_eq!(
            format!("{:?}", validated.action()),
            format!("{:?}", plain.action())
        );
    }
    let status = || SendEvent::StatusReceived(Ok(Some(5)));
    assert_eq!(end(validated, status()).unwrap(), (of(3), 5));
    assert_eq!(end(plain, status()).unwrap(), (of(3), 5));
}

#[test]
fn an_event_out_of_turn_changes_nothing() {
    let state = SendState::new(context(true, 1), of(1));
    let state = go_on(state, SendEvent::Submitted(Ok(of(2))));
    let state = go_on(state, SendEvent::StatusReceived(Ok(Some(5))));
    let state = go_on(state, SendEvent::TimePassed(Duration::from_secs(60)));
    assert!(matches!(state.action(), SendAction::ValidateBlockhash(_)));
    assert_eq!(state.errors_left, 1);
}

#[test]
fn refused_submission_ends_it() {
    let state = SendState::new(context(false, 5), of(1));
    let state = go_on(state, SendEvent::ClockStarted);
    let error = end(state, SendEvent::Submitted(Err(failure("refused")))).unwrap_err();
    assert_eq!(error.message(), None);
    assert_eq!(error.into_client_error().to_string(), "refused");
}

#[test]
fn sent_again_after_a_pause() {
    let state = submitted(context(false, 0));
    let state = go_on(state, SendEvent::StatusReceived(Ok(None)));
    assert!(matches!(state.action(), SendAction::ReadClock));
    let state = go_on(state, SendEvent::TimePassed(Duration::from_secs(5)));
    assert!(matches!(state.action(), SendAction::Sleep(pause) if pause == Duration::from_millis(250)));
    let state = go_on(state, SendEvent::Rested);
    assert!(matches!(state.action(), SendAction::Submit));
    let state = go_on(state, SendEvent::Submitted(Ok(of(3))));
    let (signature, status) = end(state, SendEvent::StatusReceived(Ok(Some(9)))).unwrap();
    assert_eq!((signature, status), (of(3), 9));
}

#[test]
fn time_runs_out() {
    let state = submitted(context(false, 0));
    let state = go_on(state, SendEvent::StatusReceived(Ok(None)));
    let late = Duration::from_secs(5) + Duration::from_nanos(1);
    let error = end(state, SendEvent::TimePassed(late)).unwrap_err();
    assert!(matches!(error, SendError::Unconfirmed(signature) if signature == of(2)));
    let text = format!("Unable to confirm transaction {}.", of(2).text());
    assert_eq!(error.message(), Some(text.clone()));
    let error = error.into_client_error();
    assert!(error.request.is_none());
    assert!(matches!(error.kind, ErrorKind::RpcError(RpcError::ForUser(told)) if told == text));
}

#[test]
fn status_errors_are_passed_over_as_often_as_allowed() {
    let mut state = submitted(context(false, 2));
    for _ in 0..2 {
        state = go_on(state, SendEvent::StatusReceived(Err(failure("busy"))));
        state = go_on(state, SendEvent::TimePassed(Duration::ZERO));
        state = go_on(state, SendEvent::Rested);
        state = go_on(state, SendEvent::Submitted(Ok(of(2))));
    }
    let error = end(state, SendEvent::StatusReceived(Err(failure("third")))).unwrap_err();
    assert!(matches!(error, SendError::Client(_)));
    assert_eq!(error.into_client_error().to_string(), "third");
}

#[test]
fn a_missing_status_costs_no_error() {
    let mut state = submitted(context(false, 1));
    for _ in 0..3 {
        state = go_on(state, SendEvent::StatusReceived(Ok(None)));
        state = go_on(state, SendEvent::TimePassed(Duration::ZERO));
        state = go_on(state, SendEvent::Rested);
        state = go_on(state, SendEvent::Submitted(Ok(of(2))));
    }
    assert_eq!(state.errors_left, 1);
    let state = go_on(state, SendEvent::StatusReceived(Err(failure("busy"))));
    assert_eq!(state.errors_left, 0);
}

#[test]
fn an_error_passed_over_may_still_be_too_late() {
    let state = submitted(context(false, 1));
    let state = go_on(state, SendEvent::StatusReceived(Err(failure("busy"))));
    let error = end(state, SendEvent::TimePassed(Duration::from_secs(6))).unwrap_err();
    assert!(matches!(error, SendError::Unconfirmed(_)));
}

#[test]
fn simple_status_keeps_the_error() {
    let sent = with_simple_status(Ok((of(1), Ok(()))));
    assert_eq!(sent.unwrap(), (of(1), None));
    let sent = with_simple_status(Ok((of(1), Err(TransactionError::AccountInUse))));
    assert_eq!(
        sent.unwrap(),
        (of(1), Some(TransactionError::AccountInUse))
    );
    let sent = with_simple_status(Err(failure("lost")));
    assert_eq!(sent.unwrap_err().to_string(), "lost");
}
