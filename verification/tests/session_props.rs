//! Deterministic scenarios for the correlation core, driven by a fake
//! engine that reports scripted completions.

use hyperdex::codec::RawAttribute;
use hyperdex::common::{
    HYPERDEX_CLIENT_INTERRUPTED, HYPERDEX_CLIENT_SEARCHDONE, HYPERDEX_CLIENT_SERVERERROR,
    HYPERDEX_CLIENT_SUCCESS, HYPERDEX_CLIENT_TIMEOUT,
};
use hyperdex::session::{Action, Completion, DrainOutcome, HyperState, Session};
use hyperdex::HyperError;

/// A fake engine: hands out operation ids at submission and reports the
/// completions it was scripted with, in script order.
struct FakeEngine {
    next_id: i64,
    script: Vec<Completion>,
    cursor: usize,
}

impl FakeEngine {
    fn new(first_id: i64) -> FakeEngine {
        FakeEngine { next_id: first_id, script: Vec::new(), cursor: 0 }
    }

    fn submit(&mut self) -> i64 {
        let id = self.next_id;
        self.next_id += 1;
        id
    }

    fn complete(&mut self, c: Completion) {
        self.script.push(c);
    }

    fn drain(&mut self) -> DrainOutcome {
        if self.cursor < self.script.len() {
            let c = &self.script[self.cursor];
            self.cursor += 1;
            DrainOutcome::Completed(Completion {
                id: c.id,
                status: c.status,
                message: c.message.clone(),
                location: c.location.clone(),
                attrs: c.attrs.clone(),
            })
        } else {
            DrainOutcome::TimedOut
        }
    }
}

fn success(id: i64, attrs: Vec<RawAttribute>) -> Completion {
    Completion {
        id,
        status: HYPERDEX_CLIENT_SUCCESS,
        message: String::new(),
        location: String::new(),
        attrs,
    }
}

fn failure(id: i64, status: u32, message: &str) -> Completion {
    Completion { id, status, message: message.to_string(), location: String::new(), attrs: Vec::new() }
}

fn int_attr(name: &str, value: i64) -> RawAttribute {
    let (bytes, datatype) = hyperdex::codec::encode_value(&hyperdex::client_types::HyperValue::HyperInt(value));
    RawAttribute { name: name.to_string(), datatype, value: bytes }
}

fn string_attr(name: &str, value: &str) -> RawAttribute {
    let (bytes, datatype) = hyperdex::codec::encode_value(
        &hyperdex::client_types::HyperValue::HyperString(value.as_bytes().to_vec()),
    );
    RawAttribute { name: name.to_string(), datatype, value: bytes }
}

/// Exactly-once delivery: eight concurrently issued unary operations,
/// completed in a scrambled order, each resolve exactly once and with
/// their own result.
#[test]
fn unary_exactly_once_under_scrambled_completions() {
    let mut engine = FakeEngine::new(100);
    let mut session = Session::new();
    let mut ids = Vec::new();
    for _ in 0..8 {
        let id = engine.submit();
        let replay = session.register(id, HyperState::HyperStateOp);
        assert!(replay.is_empty());
        ids.push(id);
    }
    // completions arrive in an order the submitter did not choose
    for &k in &[5usize, 0, 7, 2, 6, 1, 3, 4] {
        engine.complete(success(ids[k], vec![int_attr("idx", k as i64)]));
    }
    let mut resolved: Vec<(i64, i64)> = Vec::new();
    loop {
        let outcome = engine.drain();
        if matches!(outcome, DrainOutcome::TimedOut) {
            break;
        }
        for act in session.handle_drain(outcome) {
            match act {
                Action::Resolve { id, result } => {
                    let obj = result.expect("a successful completion resolves Ok");
                    let idx: i64 = obj.get("idx").expect("the payload carries its index");
                    resolved.push((id, idx));
                }
                _ => panic!("a unary operation only ever resolves"),
            }
        }
    }
    assert_eq!(resolved.len(), 8);
    for k in 0..8usize {
        let hits: Vec<&(i64, i64)> = resolved.iter().filter(|(id, _)| *id == ids[k]).collect();
        assert_eq!(hits.len(), 1, "each operation resolves exactly once");
        assert_eq!(hits[0].1, k as i64, "each operation receives its own result");
    }
    for &id in &ids {
        assert!(!session.is_pending(id));
    }
}

/// Race safety: a completion for an id injected before that id's
/// registration is set aside, and the registration still receives the
/// correct result.
#[test]
fn completion_before_registration_is_not_lost() {
    let mut engine = FakeEngine::new(41);
    let mut session = Session::new();
    let id = engine.submit();
    // the engine completes the operation before the issuing thread
    // has registered its continuation
    engine.complete(success(id, vec![string_attr("who", "early")]));
    let acts = session.handle_drain(engine.drain());
    assert!(acts.is_empty(), "an unmatched completion is set aside, not delivered");
    assert!(!session.is_pending(id));
    let acts = session.register(id, HyperState::HyperStateOp);
    assert_eq!(acts.len(), 1);
    match &acts[0] {
        Action::Resolve { id: rid, result } => {
            assert_eq!(*rid, id);
            let obj = result.as_ref().expect("the set-aside completion resolves Ok");
            let who: Vec<u8> = obj.get("who").unwrap();
            assert_eq!(who, b"early".to_vec());
        }
        _ => panic!("a unary registration resolves"),
    }
    assert!(!session.is_pending(id), "a replayed terminal completion leaves no entry");
}

/// Streaming termination: three items and a terminal success deliver
/// exactly three values, in order, then one clean close.
#[test]
fn stream_of_three_then_clean_close() {
    let mut engine = FakeEngine::new(7);
    let mut session = Session::new();
    let id = engine.submit();
    assert!(session.register(id, HyperState::HyperStateSearch).is_empty());
    for k in 0..3 {
        engine.complete(success(id, vec![int_attr("rank", k)]));
    }
    engine.complete(failure(id, HYPERDEX_CLIENT_SEARCHDONE, ""));
    let mut items: Vec<i64> = Vec::new();
    let mut closed_clean = false;
    loop {
        let outcome = engine.drain();
        if matches!(outcome, DrainOutcome::TimedOut) {
            break;
        }
        for act in session.handle_drain(outcome) {
            match act {
                Action::StreamItem { id: sid, result } => {
                    assert_eq!(sid, id);
                    assert!(!closed_clean, "no item after the close");
                    let obj = result.expect("stream items decode");
                    items.push(obj.get("rank").unwrap());
                }
                Action::StreamEnd { id: sid, error } => {
                    assert_eq!(sid, id);
                    assert!(error.is_none(), "the close is clean");
                    closed_clean = true;
                }
                _ => panic!("a stream only takes items and a close"),
            }
        }
    }
    assert_eq!(items, vec![0, 1, 2], "three items, in delivery order");
    assert!(closed_clean);
    assert!(!session.is_pending(id));
}

/// Streaming mid-failure: an error status on the second completion
/// closes the stream with that error as the final item; a third
/// completion the fake engine still produces is never delivered.
#[test]
fn stream_error_closes_before_third_item() {
    let mut engine = FakeEngine::new(20);
    let mut session = Session::new();
    let id = engine.submit();
    assert!(session.register(id, HyperState::HyperStateSearch).is_empty());
    engine.complete(success(id, vec![int_attr("rank", 0)]));
    engine.complete(failure(id, HYPERDEX_CLIENT_SERVERERROR, "lost a replica"));
    engine.complete(success(id, vec![int_attr("rank", 2)]));
    let mut items = 0;
    let mut terminal_error: Option<HyperError> = None;
    loop {
        let outcome = engine.drain();
        if matches!(outcome, DrainOutcome::TimedOut) {
            break;
        }
        for act in session.handle_drain(outcome) {
            match act {
                Action::StreamItem { .. } => {
                    assert!(terminal_error.is_none(), "nothing is delivered after the error");
                    items += 1;
                }
                Action::StreamEnd { id: sid, error } => {
                    assert_eq!(sid, id);
                    terminal_error = Some(error.expect("the close carries the error"));
                }
                _ => panic!("a stream only takes items and a close"),
            }
        }
    }
    assert_eq!(items, 1, "only the item before the failure is delivered");
    let err = terminal_error.expect("the stream closed");
    assert_eq!(err.status, HYPERDEX_CLIENT_SERVERERROR);
    assert_eq!(err.message, "lost a replica");
    assert!(!session.is_pending(id));
}

/// Shutdown: five registered operations with no completions all
/// receive the cancellation error, and the session drains no further.
#[test]
fn shutdown_cancels_all_five_pending() {
    let mut engine = FakeEngine::new(300);
    let mut session = Session::new();
    let mut ids = Vec::new();
    for _ in 0..5 {
        let id = engine.submit();
        session.register(id, HyperState::HyperStateOp);
        ids.push(id);
    }
    assert_eq!(session.pending_count(), 5);
    let acts = session.shutdown();
    assert_eq!(acts.len(), 5);
    for (k, act) in acts.into_iter().enumerate() {
        match act {
            Action::Resolve { id, result } => {
                assert_eq!(id, ids[k]);
                let err = result.expect_err("a cancelled operation resolves with an error");
                assert_eq!(err.status, HYPERDEX_CLIENT_INTERRUPTED);
                assert_eq!(err.message, "operation cancelled at shutdown");
            }
            _ => panic!("a pending unary operation is cancelled by resolution"),
        }
    }
    assert_eq!(session.pending_count(), 0);
    assert!(session.is_stopped());
    // after shutdown nothing is drained any further
    engine.complete(success(ids[0], Vec::new()));
    let acts = session.handle_drain(engine.drain());
    assert!(acts.is_empty());
}

/// The drain loop's quiet outcomes report nothing and change nothing.
#[test]
fn timeouts_and_idle_reports_deliver_nothing() {
    let mut session = Session::new();
    session.register(1, HyperState::HyperStateOp);
    assert!(session.handle_drain(DrainOutcome::TimedOut).is_empty());
    assert!(session.handle_drain(DrainOutcome::NonePending).is_empty());
    assert!(session.is_pending(1));
}

/// A drain-level failure goes to the side channel, aimed at no
/// operation.
#[test]
fn hard_error_surfaces_on_side_channel() {
    let mut session = Session::new();
    session.register(9, HyperState::HyperStateOp);
    let acts = session.handle_drain(DrainOutcome::HardError {
        status: HYPERDEX_CLIENT_TIMEOUT + 1,
        message: "coordinator went away".to_string(),
        location: "drain".to_string(),
    });
    assert_eq!(acts.len(), 1);
    match &acts[0] {
        Action::SideError { error } => {
            assert_eq!(error.message, "coordinator went away");
            assert_eq!(error.location, "drain");
        }
        _ => panic!("a drain-level failure targets no continuation"),
    }
    assert!(session.is_pending(9), "the pending operation is untouched");
}

/// The scenario: the engine returns id 7 for a unary get, the drain
/// loop reports (7, SUCCESS) with payload {"name": "Derek"}; the
/// operation resolves Ok with that object and the table no longer
/// contains id 7.
#[test]
fn unary_get_resolves_and_leaves_table() {
    let mut engine = FakeEngine::new(7);
    let mut session = Session::new();
    let id = engine.submit();
    assert_eq!(id, 7);
    assert!(session.register(id, HyperState::HyperStateOp).is_empty());
    engine.complete(success(7, vec![string_attr("name", "Derek")]));
    let acts = session.handle_drain(engine.drain());
    assert_eq!(acts.len(), 1);
    match &acts[0] {
        Action::Resolve { id: rid, result } => {
            assert_eq!(*rid, 7);
            let obj = result.as_ref().expect("the get resolves Ok");
            let name: Vec<u8> = obj.get("name").unwrap();
            assert_eq!(name, b"Derek".to_vec());
        }
        _ => panic!("a unary get resolves"),
    }
    assert!(!session.is_pending(7), "the table no longer contains id 7");
}
