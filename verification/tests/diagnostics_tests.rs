use omnix::error::{Diagnostic, DiagnosticCollector, ErrorKind, Severity, Span};
use omnix::pratt::{Associativity, Precedence, SpanTracker};
use omnix::state::{plan_write, quorum_write_outcome, required_acks, LocalStore, WriteAction};
use omnix::{ConsensusError, ConsistencyLevel};

#[test]
fn test_span_new_and_unknown() {
    let s = Span::new(3, 9, 2, 5);
    assert_eq!(s.start, 3);
    assert_eq!(s.end, 9);
    assert_eq!(s.line, 2);
    assert_eq!(s.column, 5);
    let u = Span::unknown();
    assert_eq!(u, Span::new(0, 0, 0, 0));
}

#[test]
fn test_diagnostic_constructors() {
    let d = Diagnostic::error(
        ErrorKind::InvalidPort,
        "port out of range".to_string(),
        Span::unknown(),
    );
    assert_eq!(d.severity, Severity::Error);
    assert!(d.help.is_none());

    let w = Diagnostic::warning(
        ErrorKind::InvalidTimeout,
        "timeout very small".to_string(),
        Span::unknown(),
    )
    .with_help("raise consensus.timeout_ms".to_string());
    assert_eq!(w.severity, Severity::Warning);
    assert_eq!(w.help, Some("raise consensus.timeout_ms".to_string()));
}

#[test]
fn test_collector_tracks_errors() {
    let mut c = DiagnosticCollector::new();
    assert!(!c.has_errors());
    c.warning(
        ErrorKind::InvalidTimeout,
        "odd timeout".to_string(),
        Span::unknown(),
    );
    assert!(!c.has_errors());
    c.error(
        ErrorKind::UndeclaredVariable("x".to_string()),
        "x is not declared".to_string(),
        Span::new(1, 2, 1, 1),
    );
    assert!(c.has_errors());
    assert_eq!(c.diagnostics().len(), 2);
}

#[test]
fn test_collector_into_result() {
    let clean = DiagnosticCollector::new();
    assert_eq!(clean.into_result(41u32), Ok(41));

    let mut dirty = DiagnosticCollector::new();
    dirty.error(
        ErrorKind::UnexpectedEof,
        "input ended".to_string(),
        Span::unknown(),
    );
    let r = dirty.into_result(41u32);
    let errs = r.unwrap_err();
    assert_eq!(errs.len(), 1);
    assert_eq!(errs[0].kind, ErrorKind::UnexpectedEof);
}

#[test]
fn test_precedence_ladder() {
    assert!(Precedence::Multiplication > Precedence::Addition);
    assert!(Precedence::Addition > Precedence::Equality);
    assert!(Precedence::LogicalAnd > Precedence::LogicalOr);
    assert!(Precedence::Consensus > Precedence::Assignment);
    assert!(Precedence::Lowest < Precedence::Primary);
    assert_eq!(Associativity::Left, Associativity::Left);
    assert_ne!(Associativity::Left, Associativity::Right);
}

#[test]
fn test_span_tracker() {
    let mut t = SpanTracker::new();
    // without a recorded start the end span stands alone
    let lone = t.end(Span::new(7, 9, 3, 1));
    assert_eq!(lone, Span::new(7, 9, 3, 1));

    t.start(Span::new(2, 4, 1, 2));
    let merged = t.end(Span::new(7, 9, 3, 1));
    assert_eq!(merged, Span::new(2, 9, 1, 2));

    let m = SpanTracker::merge(&Span::new(0, 3, 1, 0), &Span::new(5, 8, 2, 1));
    assert_eq!(m, Span::new(0, 8, 1, 0));
}

#[test]
fn test_required_acks_rounds_up() {
    // a two-thirds threshold over five replicas needs four acknowledgements
    assert_eq!(required_acks(5, 2, 3), 4);
    assert_eq!(required_acks(4, 1, 2), 2);
    assert_eq!(required_acks(5, 1, 2), 3);
    assert_eq!(required_acks(3, 1, 1), 3);
    assert_eq!(required_acks(0, 1, 2), 0);
}

#[test]
fn test_quorum_write_outcome() {
    // two-thirds of five replicas needs four acknowledgements
    assert!(quorum_write_outcome(4, 5, 2, 3).is_ok());
    assert_eq!(
        quorum_write_outcome(3, 5, 2, 3),
        Err(ConsensusError::QuorumNotReached)
    );
    assert!(quorum_write_outcome(0, 0, 1, 2).is_ok());
}

#[test]
fn test_local_store_set_get() {
    let mut s = LocalStore::new();
    assert!(s.get(&"k".to_string()).is_none());
    s.set("k".to_string(), vec![1, 2]);
    assert_eq!(s.get(&"k".to_string()), Some(&vec![1, 2]));
    s.set("k".to_string(), vec![3]);
    assert_eq!(s.get(&"k".to_string()), Some(&vec![3]));
    s.set("other".to_string(), vec![9]);
    assert_eq!(s.get(&"k".to_string()), Some(&vec![3]));
}

#[test]
fn test_plan_write_per_mode() {
    assert_eq!(plan_write(ConsistencyLevel::Strong, 3), WriteAction::ProposeStrong);
    assert_eq!(plan_write(ConsistencyLevel::Eventual, 3), WriteAction::ApplyLocallyAndGossip);
    assert_eq!(plan_write(ConsistencyLevel::Causal, 3), WriteAction::BroadcastCausal);
    assert_eq!(
        plan_write(ConsistencyLevel::Quorum { numerator: 2, denominator: 3 }, 5),
        WriteAction::CollectQuorum { needed: 4 }
    );
}
