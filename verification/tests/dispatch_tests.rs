//! The round-robin dispatcher and the submission path.

use hyperdex::dispatch::{classify_submission, Dispatcher};
use hyperdex::session::{classify_drain, effective_status, DrainOutcome};
use hyperdex::common::{
    admin_to_client_status, HYPERDEX_ADMIN_NONEPENDING, HYPERDEX_ADMIN_SUCCESS,
    HYPERDEX_ADMIN_TIMEOUT, HYPERDEX_CLIENT_NONEPENDING, HYPERDEX_CLIENT_SUCCESS,
    HYPERDEX_CLIENT_TIMEOUT,
};

#[test]
fn routing_cycles_through_the_pool() {
    let mut d = Dispatcher::new(4);
    assert_eq!(d.session_count(), 4);
    let picks: Vec<usize> = (0..10).map(|_| d.route()).collect();
    assert_eq!(picks, vec![0, 1, 2, 3, 0, 1, 2, 3, 0, 1]);
}

/// Load spread: a thousand operations over four sessions land exactly
/// two hundred fifty on each.
#[test]
fn thousand_operations_spread_over_four_sessions() {
    let mut d = Dispatcher::new(4);
    let mut counts = [0usize; 4];
    for _ in 0..1000 {
        counts[d.route()] += 1;
    }
    assert_eq!(counts, [250, 250, 250, 250]);
    // and from an uneven start the shares still differ by at most one
    let mut d = Dispatcher::new(3);
    d.route();
    let mut counts = [0usize; 3];
    for _ in 0..1000 {
        counts[d.route()] += 1;
    }
    let hi = *counts.iter().max().unwrap();
    let lo = *counts.iter().min().unwrap();
    assert!(hi - lo <= 1, "shares {:?} differ by more than one", counts);
    assert_eq!(counts.iter().sum::<usize>(), 1000);
}

#[test]
fn negative_submission_is_an_immediate_failure() {
    let r = classify_submission(-1, 8517, "reconfiguring".to_string(), "submit".to_string());
    let err = r.unwrap_err();
    assert_eq!(err.status, 8517);
    assert_eq!(err.message, "reconfiguring");
    assert_eq!(err.location, "submit");
    let r = classify_submission(12, 0, String::new(), String::new());
    assert_eq!(r.unwrap(), 12);
}

#[test]
fn drain_outcomes_classify_as_the_worker_does() {
    let d = classify_drain(-1, HYPERDEX_CLIENT_TIMEOUT, String::new(), String::new(), Vec::new());
    assert!(matches!(d, DrainOutcome::TimedOut));
    let d = classify_drain(
        -1,
        HYPERDEX_CLIENT_NONEPENDING,
        String::new(),
        String::new(),
        Vec::new(),
    );
    assert!(matches!(d, DrainOutcome::NonePending));
    let d = classify_drain(-1, 8514, "broken".to_string(), String::new(), Vec::new());
    match d {
        DrainOutcome::HardError { status, message, .. } => {
            assert_eq!(status, 8514);
            assert_eq!(message, "broken");
        }
        _ => panic!("a negative id with an unexpected status is a hard error"),
    }
    let d = classify_drain(7, 8448, String::new(), String::new(), Vec::new());
    match d {
        DrainOutcome::Completed(c) => {
            assert_eq!(c.id, 7);
            assert_eq!(c.status, 8448);
        }
        _ => panic!("a non-negative id is a completion"),
    }
}

#[test]
fn drain_failures_override_the_operation_status() {
    assert_eq!(effective_status(HYPERDEX_CLIENT_SUCCESS, 8449), 8449);
    assert_eq!(effective_status(HYPERDEX_CLIENT_SUCCESS, HYPERDEX_CLIENT_SUCCESS), HYPERDEX_CLIENT_SUCCESS);
    assert_eq!(effective_status(8514, HYPERDEX_CLIENT_SUCCESS), 8514);
}

#[test]
fn admin_statuses_map_onto_client_words() {
    assert_eq!(admin_to_client_status(HYPERDEX_ADMIN_SUCCESS), HYPERDEX_CLIENT_SUCCESS);
    assert_eq!(admin_to_client_status(HYPERDEX_ADMIN_TIMEOUT), HYPERDEX_CLIENT_TIMEOUT);
    assert_eq!(admin_to_client_status(HYPERDEX_ADMIN_NONEPENDING), HYPERDEX_CLIENT_NONEPENDING);
    // an administrative error keeps its own code
    assert_eq!(admin_to_client_status(8775), 8775);
}
