use de_solana_client::{
    ResendAction, ResendEvent, ResendState, ResendStep, SendContext, Signature,
};
use solana_rpc_client_api::client_error::Error as ClientError;
use solana_rpc_client_api::request::RpcError;
use std::time::Duration;

fn of(byte: u8) -> Signature {
    Signature { bytes: [byte; 64] }
}

fn failure(text: &str) -> ClientError {
    RpcError::ForUser(text.to_string()).into()
}

fn context() -> SendContext {
    SendContext {
        confirm_duration: Duration::from_secs(5),
        confirm_request_pause: Duration::from_secs(1),
        blockhash_validation: false,
        ignorable_errors_count: 4,
    }
}

fn go_on(state: ResendState<u64>, event: ResendEvent<u64, u32>) -> ResendState<u64> {
    match state.step(event) {
        ResendStep::Continue(next) => next,
        ResendStep::Done(_) => panic!("ended early"),
    }
}

fn end(
    state: ResendState<u64>,
    event: ResendEvent<u64, u32>,
) -> Result<(Signature, u32), ClientError> {
    match state.step(event) {
        ResendStep::Continue(_) => panic!("goes on"),
        ResendStep::Done(outcome) => outcome,
    }
}

#[test]
fn first_attempt_succeeds() {
    let state = ResendState::new(context(), 3);
    assert!(matches!(state.action(), ResendAction::FetchBlockhash));
    let state = go_on(state, ResendEvent::BlockhashFetched(Ok(11)));
    match state.action() {
        ResendAction::Attempt(blockhash, ctx) => {
            assert_eq!(blockhash, 11);
            assert_eq!(ctx.ignorable_errors_count, 4);
            assert_eq!(ctx.confirm_duration, Duration::from_secs(5));
        }
        ResendAction::FetchBlockhash => panic!("no attempt"),
    }
    let sent = end(state, ResendEvent::Attempted(Ok((of(1), 7))));
    assert_eq!(sent.unwrap(), (of(1), 7));
}

#[test]
fn each_attempt_takes_a_fresh_blockhash() {
    let mut state = ResendState::new(context(), 2);
    for blockhash in 0..2u64 {
        state = go_on(state, ResendEvent::BlockhashFetched(Ok(blockhash)));
        assert!(matches!(state.action(), ResendAction::Attempt(built_on, _) if built_on == blockhash));
        state = go_on(state, ResendEvent::Attempted(Err(failure("late"))));
        assert!(matches!(state.action(), ResendAction::FetchBlockhash));
    }
    assert_eq!(state.resends_left, 0);
    let state = go_on(state, ResendEvent::BlockhashFetched(Ok(2)));
    let sent = end(state, ResendEvent::Attempted(Ok((of(3), 1))));
    assert_eq!(sent.unwrap(), (of(3), 1));
}

#[test]
fn last_error_is_returned() {
    let mut state = ResendState::new(context(), 2);
    for text in ["first", "second"] {
        state = go_on(state, ResendEvent::BlockhashFetched(Ok(0)));
        state = go_on(state, ResendEvent::Attempted(Err(failure(text))));
    }
    let state = go_on(state, ResendEvent::BlockhashFetched(Ok(0)));
    let error = end(state, ResendEvent::Attempted(Err(failure("third")))).unwrap_err();
    assert_eq!(error.to_string(), "third");
}

#[test]
fn no_resend_allowed() {
    let state = ResendState::new(context(), 0);
    let state = go_on(state, ResendEvent::BlockhashFetched(Ok(0)));
    let error = end(state, ResendEvent::Attempted(Err(failure("only")))).unwrap_err();
    assert_eq!(error.to_string(), "only");
}

#[test]
fn missing_blockhash_ends_it_whatever_is_left() {
    let state = ResendState::new(context(), 9);
    let error = end(state, ResendEvent::BlockhashFetched(Err(failure("down")))).unwrap_err();
    assert_eq!(error.to_string(), "down");
}

#[test]
fn an_event_out_of_turn_leaves_the_resends() {
    let state = ResendState::new(context(), 1);
    let state = go_on(state, ResendEvent::Attempted(Err(failure("early"))));
    assert_eq!(state.resends_left, 1);
    let state = go_on(state, ResendEvent::BlockhashFetched(Ok(3)));
    let state = go_on(state, ResendEvent::BlockhashFetched(Err(failure("again"))));
    assert!(matches!(state.action(), ResendAction::Attempt(3, _)));
}
