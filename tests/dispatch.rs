use teloxide_dispatch::dialogue::{InMemStorage, Storage};
use teloxide_dispatch::dispatcher::{DispatchError, Dispatcher, Intake, Job};
use teloxide_dispatch::distribution::{default_distribution_function, ChatId, DefaultKey, Update};
use teloxide_dispatch::pipeline::{finish, Extractor, Handler, Invocation, Outcome, Predicate};
use teloxide_dispatch::sequencer::{Admission, Completion, Config, OverflowPolicy, Sequencer};
use teloxide_dispatch::shutdown::{ShutdownReport, ShutdownState, ShutdownToken};
use teloxide_dispatch::types::{GiftBackground, Rgb, UserRating};

fn ev(id: u64, chat: Option<i64>) -> Update {
    Update { id, kind: 1, chat: chat.map(ChatId), payload: id as i64 }
}

fn key(c: i64) -> DefaultKey {
    DefaultKey(ChatId(c))
}

fn config(max: usize, backlog: usize, policy: OverflowPolicy) -> Config {
    Config {
        max_concurrent_keys: max,
        per_key_backlog: backlog,
        backlog_overflow_policy: policy,
        shutdown_timeout_ms: None,
    }
}

fn handled(endpoint: u32, data: Vec<i64>) -> Outcome {
    Outcome::Handled(Invocation { endpoint, data })
}

#[test]
fn key_is_the_chat() {
    assert_eq!(default_distribution_function(&ev(1, Some(42))), Some(key(42)));
    assert_eq!(default_distribution_function(&ev(1, None)), None);
}

#[test]
fn filter_passes_on_when_predicate_fails() {
    let h = Handler::filter(Predicate::KindIs(2), Handler::endpoint(7));
    assert_eq!(h.execute(&ev(1, Some(1))), Outcome::Unhandled);
    let e = Update { id: 1, kind: 2, chat: None, payload: 0 };
    assert_eq!(h.execute(&e), handled(7, vec![]));
}

#[test]
fn filter_map_hands_data_to_endpoint() {
    let h = Handler::filter_map(
        Extractor::ChatIdent,
        Handler::filter_map(Extractor::Payload, Handler::endpoint(3)),
    );
    let e = Update { id: 9, kind: 0, chat: Some(ChatId(-5)), payload: 77 };
    assert_eq!(h.execute(&e), handled(3, vec![-5, 77]));
    assert_eq!(h.execute(&ev(1, None)), Outcome::Unhandled);
    let neg = Handler::filter_map(Extractor::NonNegativePayload, Handler::endpoint(1));
    let e2 = Update { id: 1, kind: 0, chat: None, payload: -1 };
    assert_eq!(neg.execute(&e2), Outcome::Unhandled);
}

fn tree(kind: u8, id: u32) -> Handler {
    Handler::filter(Predicate::KindIs(kind), Handler::endpoint(id))
}

#[test]
fn chain_is_associative_on_examples() {
    for k in 0u8..4 {
        let left = Handler::chain(Handler::chain(tree(1, 10), tree(2, 20)), tree(3, 30));
        let right = Handler::chain(tree(1, 10), Handler::chain(tree(2, 20), tree(3, 30)));
        let e = Update { id: 1, kind: k, chat: None, payload: 0 };
        assert_eq!(left.execute(&e), right.execute(&e));
    }
    let e = Update { id: 1, kind: 2, chat: None, payload: 0 };
    let left = Handler::chain(Handler::chain(tree(1, 10), tree(2, 20)), tree(3, 30));
    assert_eq!(left.execute(&e), handled(20, vec![]));
}

#[test]
fn branch_first_match_wins() {
    let h = Handler::branch(Handler::endpoint(1), Handler::endpoint(2));
    assert_eq!(h.execute(&ev(5, Some(1))), handled(1, vec![]));
    let h2 = Handler::branch(tree(9, 1), Handler::filter(Predicate::HasChat, Handler::endpoint(2)));
    assert_eq!(h2.execute(&ev(5, Some(1))), handled(2, vec![]));
    assert_eq!(h2.execute(&ev(5, None)), Outcome::Unhandled);
}

#[test]
fn predicates_on_chat_and_payload() {
    let h = Handler::filter(Predicate::ChatIs(ChatId(4)), Handler::endpoint(1));
    assert_eq!(h.execute(&ev(1, Some(4))), handled(1, vec![]));
    assert_eq!(h.execute(&ev(1, Some(5))), Outcome::Unhandled);
    let p = Handler::filter(Predicate::PayloadAtLeast(10), Handler::endpoint(2));
    assert_eq!(p.execute(&ev(10, None)), handled(2, vec![]));
    assert_eq!(p.execute(&ev(9, None)), Outcome::Unhandled);
}

#[test]
fn failed_action_is_still_handled() {
    let o = finish(handled(4, vec![1]), Err(99));
    assert_eq!(o, Outcome::Failed(Invocation { endpoint: 4, data: vec![1] }, 99));
    assert_eq!(finish(handled(4, vec![]), Ok(())), handled(4, vec![]));
    assert_eq!(finish(Outcome::Unhandled, Err(1)), Outcome::Unhandled);
}

#[test]
fn per_key_order_with_concurrent_key() {
    // chat 1 gets A, B, C; chat 2 gets X while A is still running.
    let mut s = Sequencer::new(config(4, 8, OverflowPolicy::Reject));
    let (a, b, c, x) = (ev(1, Some(1)), ev(2, Some(1)), ev(3, Some(1)), ev(4, Some(2)));
    assert_eq!(s.enqueue(key(1), a), Admission::Started);
    assert_eq!(s.enqueue(key(1), b), Admission::Queued);
    assert_eq!(s.enqueue(key(1), c), Admission::Queued);
    assert_eq!(s.enqueue(key(2), x), Admission::Started);
    assert_eq!(s.active_keys(), 2);
    // chat 2 finishes on its own while A still runs.
    assert_eq!(s.complete(key(2)), Completion::Idle);
    // B starts only when A completes, then C.
    assert_eq!(s.complete(key(1)), Completion::Continue(b));
    assert_eq!(s.complete(key(1)), Completion::Continue(c));
    assert_eq!(s.complete(key(1)), Completion::Idle);
    assert!(s.is_drained());
}

#[test]
fn complete_of_idle_key_changes_nothing() {
    let mut s = Sequencer::new(config(1, 1, OverflowPolicy::Reject));
    assert_eq!(s.complete(key(3)), Completion::NotRunning);
    assert!(s.is_drained());
}

#[test]
fn ceiling_defers_extra_keys() {
    let mut s = Sequencer::new(config(2, 4, OverflowPolicy::Reject));
    assert_eq!(s.enqueue(key(1), ev(1, Some(1))), Admission::Started);
    assert_eq!(s.enqueue(key(2), ev(2, Some(2))), Admission::Started);
    assert_eq!(s.enqueue(key(3), ev(3, Some(3))), Admission::Deferred);
    assert_eq!(s.enqueue(key(4), ev(4, Some(4))), Admission::Deferred);
    assert_eq!(s.enqueue(key(3), ev(5, Some(3))), Admission::Queued);
    assert_eq!(s.active_keys(), 2);
    assert_eq!(s.keys_with_work(), 4);
    // The freed slot goes to the first waiting key.
    assert_eq!(s.complete(key(1)), Completion::Activated(key(3), ev(3, Some(3))));
    assert_eq!(s.active_keys(), 2);
    assert_eq!(s.complete(key(2)), Completion::Activated(key(4), ev(4, Some(4))));
    assert_eq!(s.complete(key(3)), Completion::Continue(ev(5, Some(3))));
    assert_eq!(s.complete(key(3)), Completion::Idle);
    assert_eq!(s.complete(key(4)), Completion::Idle);
    assert_eq!(s.active_keys(), 0);
    assert!(s.is_drained());
}

#[test]
fn backlog_overflow_rejects_at_boundary() {
    let mut s = Sequencer::new(config(1, 2, OverflowPolicy::Reject));
    assert_eq!(s.enqueue(key(1), ev(1, Some(1))), Admission::Started);
    assert_eq!(s.enqueue(key(1), ev(2, Some(1))), Admission::Queued);
    assert_eq!(s.enqueue(key(1), ev(3, Some(1))), Admission::Queued);
    assert_eq!(s.enqueue(key(1), ev(4, Some(1))), Admission::Rejected);
    assert_eq!(s.complete(key(1)), Completion::Continue(ev(2, Some(1))));
    assert_eq!(s.enqueue(key(1), ev(5, Some(1))), Admission::Queued);
}

#[test]
fn backlog_overflow_blocks_at_boundary() {
    let mut s = Sequencer::new(config(1, 1, OverflowPolicy::Block));
    assert_eq!(s.enqueue(key(1), ev(1, Some(1))), Admission::Started);
    assert_eq!(s.enqueue(key(1), ev(2, Some(1))), Admission::Queued);
    assert_eq!(s.enqueue(key(1), ev(3, Some(1))), Admission::Blocked);
    assert_eq!(s.keys_with_work(), 1);
}

#[test]
fn zero_backlog_refuses_waiting_keys() {
    let mut s = Sequencer::new(config(1, 0, OverflowPolicy::Reject));
    assert_eq!(s.enqueue(key(1), ev(1, Some(1))), Admission::Started);
    assert_eq!(s.enqueue(key(2), ev(2, Some(2))), Admission::Rejected);
    assert_eq!(s.enqueue(key(1), ev(3, Some(1))), Admission::Rejected);
}

#[test]
fn unkeyed_events_bypass_keys() {
    let mut s = Sequencer::new(config(1, 1, OverflowPolicy::Reject));
    assert!(s.start_unkeyed());
    assert!(s.start_unkeyed());
    assert_eq!(s.unkeyed_in_flight(), 2);
    assert!(!s.is_drained());
    assert!(s.finish_unkeyed());
    assert!(s.finish_unkeyed());
    assert!(!s.finish_unkeyed());
    assert!(s.is_drained());
}

#[test]
fn dispatcher_routes_and_reports() {
    let mut d = Dispatcher::new(config(1, 1, OverflowPolicy::Reject));
    assert_eq!(d.dispatch(ev(1, Some(1))), Intake::Run(key(1), ev(1, Some(1))));
    assert_eq!(d.dispatch(ev(2, None)), Intake::RunUnkeyed(ev(2, None)));
    assert_eq!(d.dispatch(ev(3, Some(2))), Intake::Accepted);
    assert_eq!(d.dispatch(ev(4, Some(2))), Intake::Refused(DispatchError::BacklogOverflow(key(2))));
    let failed = Outcome::Failed(Invocation { endpoint: 5, data: vec![] }, 11);
    let f = d.handler_done(Some(key(1)), &failed);
    assert_eq!(f.error, Some(DispatchError::HandlerFailure { endpoint: 5, code: 11 }));
    assert_eq!(f.next, Some(Job { key: key(2), event: ev(3, Some(2)) }));
    let g = d.handler_done(None, &handled(1, vec![]));
    assert_eq!(g.error, None);
    assert_eq!(g.next, None);
    assert_eq!(d.active_workers(), 1);
}

#[test]
fn blocked_event_is_offered_back() {
    let mut d = Dispatcher::new(config(1, 0, OverflowPolicy::Block));
    assert_eq!(d.dispatch(ev(1, Some(1))), Intake::Run(key(1), ev(1, Some(1))));
    assert_eq!(d.dispatch(ev(2, Some(1))), Intake::Retry(ev(2, Some(1))));
}

#[test]
fn shutdown_drains_then_reports_clean() {
    let mut d = Dispatcher::new(config(2, 2, OverflowPolicy::Reject));
    assert_eq!(d.dispatch(ev(1, Some(1))), Intake::Run(key(1), ev(1, Some(1))));
    assert_eq!(d.dispatch(ev(2, Some(1))), Intake::Accepted);
    d.shutdown();
    assert_eq!(d.shutdown_state(), ShutdownState::ShuttingDown);
    assert_eq!(d.dispatch(ev(3, Some(1))), Intake::Closed);
    assert_eq!(d.poll_shutdown(false), None);
    let f = d.handler_done(Some(key(1)), &handled(1, vec![]));
    assert_eq!(f.next, Some(Job { key: key(1), event: ev(2, Some(1)) }));
    assert_eq!(d.poll_shutdown(false), None);
    let g = d.handler_done(Some(key(1)), &handled(1, vec![]));
    assert_eq!(g.next, None);
    assert_eq!(d.poll_shutdown(false), Some(ShutdownReport::CleanShutdown));
    assert_eq!(d.shutdown_state(), ShutdownState::Stopped);
    assert_eq!(d.active_workers(), 0);
}

#[test]
fn shutdown_times_out_forced() {
    let mut d = Dispatcher::new(config(1, 2, OverflowPolicy::Reject));
    d.dispatch(ev(1, Some(1)));
    d.dispatch(ev(2, Some(2)));
    assert_eq!(d.poll_shutdown(true), Some(ShutdownReport::ForcedShutdown(2)));
    assert_eq!(d.shutdown_state(), ShutdownState::Stopped);
}

#[test]
fn source_error_stops_intake() {
    let mut d = Dispatcher::new(config(1, 1, OverflowPolicy::Reject));
    assert_eq!(d.source_failed(7), DispatchError::SourceError(7));
    assert_eq!(d.dispatch(ev(1, Some(1))), Intake::Closed);
    assert_eq!(d.poll_shutdown(false), Some(ShutdownReport::CleanShutdown));
}

#[test]
fn token_moves_one_way() {
    let mut t = ShutdownToken::new();
    assert!(t.is_running());
    t.request();
    assert_eq!(t.state(), ShutdownState::ShuttingDown);
    t.request();
    assert_eq!(t.state(), ShutdownState::ShuttingDown);
    t.stop();
    t.request();
    assert_eq!(t.state(), ShutdownState::Stopped);
}

#[test]
fn dialogue_store_round_trip() {
    let mut st: InMemStorage<u32> = InMemStorage::new();
    assert_eq!(st.get(key(1)), None);
    st.update(key(1), 5);
    st.update(key(2), 6);
    st.update(key(1), 7);
    assert_eq!(st.get(key(1)), Some(&7));
    assert_eq!(st.get(key(2)), Some(&6));
    assert_eq!(st.remove(key(1)), Some(7));
    assert_eq!(st.get(key(1)), None);
    assert_eq!(st.remove(key(1)), None);
    assert_eq!(st.get(key(2)), Some(&6));
}

#[test]
fn payload_types_compare_by_fields() {
    let r = UserRating { level: 3, rating: 120, current_level_rating: 100, next_level_rating: Some(200) };
    assert_eq!(r, r.clone());
    let c = Rgb { r: 1, g: 2, b: 3 };
    let g = GiftBackground { center_color: c, edge_color: c, text_color: Rgb { r: 0, g: 0, b: 0 } };
    assert_ne!(g.center_color, g.text_color);
}

fn bump<B: Storage<u32>>(store: &mut B, k: DefaultKey) -> u32 {
    let next = store.get_dialogue(k).map_or(0, |v| *v) + 1;
    store.update_dialogue(k, next);
    next
}

#[test]
fn dialogue_backend_through_trait() {
    let mut st: InMemStorage<u32> = InMemStorage::new();
    assert_eq!(bump(&mut st, key(9)), 1);
    assert_eq!(bump(&mut st, key(9)), 2);
    assert_eq!(bump(&mut st, key(8)), 1);
    assert_eq!(st.remove_dialogue(key(9)), Some(2));
    assert_eq!(st.get_dialogue(key(9)), None);
}
