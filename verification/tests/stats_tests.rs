use chrono::Utc;
use crawlrs::error::Error;
use crawlrs::session_stats::SessionStats;

#[test]
fn test_start_session() {
    let mut session_stats = SessionStats::new();
    session_stats.start_session();
    assert!(session_stats.started_at.unwrap() < Utc::now().timestamp_nanos_opt().unwrap());
}

#[test]
fn test_finish_session() {
    let mut session_stats = SessionStats::new();
    session_stats.finish_session();
    assert!(session_stats.finished_at.unwrap() < Utc::now().timestamp_nanos_opt().unwrap());
}

#[test]
fn test_add_single_visit() {
    let mut session_stats = SessionStats::new();
    session_stats.add_visit(None);
    assert_eq!(session_stats.total_visited, 1);
}

#[test]
fn test_add_visit_count() {
    let mut session_stats = SessionStats::new();
    session_stats.add_visit(Some(5));
    assert_eq!(session_stats.total_visited, 5);
}

/// The elapsed time of both timestamps, from explicit readings.
#[test]
fn test_elapsed_time_of_set_timestamps() {
    let stats = SessionStats { total_visited: 0, started_at: Some(5), finished_at: Some(15) };
    assert_eq!(stats.elapsed_time(), Ok(10));
}

/// After starting and finishing a real session the elapsed time is
/// non-negative.
#[test]
fn test_elapsed_time_nonnegative() {
    let mut stats = SessionStats::new();
    stats.start_session();
    stats.finish_session();
    assert!(stats.started_at.unwrap() <= stats.finished_at.unwrap());
    assert!(stats.elapsed_time().unwrap() >= 0);
}

/// Statistics queried before the session was started fail with the
/// invalid-state error.
#[test]
fn test_elapsed_time_invalid_state() {
    let stats = SessionStats::new();
    assert_eq!(stats.elapsed_time(), Err(Error::InvalidState));
    assert_eq!(
        Error::InvalidState.message(),
        "Session has not been started or finished".to_string()
    );
}

#[test]
fn test_error_messages() {
    assert_eq!(Error::TransportError.message(), "error getting content".to_string());
    assert_eq!(Error::StatusError.message(), "404".to_string());
    assert_eq!(Error::BodyReadError.message(), "malformed content".to_string());
    assert_eq!(Error::UrlParseError.message(), "could not parse url".to_string());
}
