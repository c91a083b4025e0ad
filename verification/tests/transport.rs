use agent_sim::connection::{IoFault, RequestTransport, RetryDecision, TransportFault};
use agent_sim::ipc::{pipe_name, pipe_name_for, stable_hash64, WINDOWS_PIPE_NAME_MAX_LEN, WINDOWS_PIPE_STEM_MAX_LEN};
use std::time::Duration;

#[test]
fn stable_hash64_matches_known_fnv1a_values() {
    assert_eq!(stable_hash64(""), 0xcbf29ce484222325);
    assert_eq!(stable_hash64("agent-sim"), 0x529cc5bfe23c9fb0);
    assert_eq!(stable_hash64(r"C:/Users/alice/.agent-sim/demo.sock"), 0x840f725602d6f670);
}

#[test]
fn pipe_name_uses_stable_hash_suffix() {
    assert_eq!(
        pipe_name(r"C:/Users/alice/.agent-sim/demo.sock"),
        r"\\.\pipe\agent-sim-demo-840f725602d6f670"
    );
}

#[test]
fn pipe_name_stem_length_is_bounded() {
    let long_stem = "a".repeat(WINDOWS_PIPE_STEM_MAX_LEN * 2);
    let endpoint = format!(r"C:/Users/alice/.agent-sim/{long_stem}.sock");
    let name = pipe_name(&endpoint);
    assert!(name.len() <= WINDOWS_PIPE_NAME_MAX_LEN, "pipe name too long: {}", name.len());
}

#[test]
fn pipe_names_replace_unsafe_characters() {
    let name = pipe_name_for("x", Some("a b.c"));
    assert_eq!(name, format!(r"\\.\pipe\agent-sim-a_b_c-{:016x}", stable_hash64("x")));
    let fallback = pipe_name_for("", None);
    assert_eq!(fallback, r"\\.\pipe\agent-sim-endpoint-cbf29ce484222325");
}

#[test]
fn request_transport_retries_only_transient_failures() {
    let transport = RequestTransport::default();
    assert!(transport.should_retry(&TransportFault::Timeout));
    assert!(transport.should_retry(&TransportFault::Io(IoFault::ConnectionRefused)));
    assert!(!transport.should_retry(&TransportFault::Io(IoFault::Other)));
    assert!(!transport.should_retry(&TransportFault::MissingResponse));
}

#[test]
fn request_transport_uses_bounded_exponential_backoff() {
    let transport = RequestTransport::default();
    assert_eq!(transport.retry_delay_for_attempt(1), Duration::from_millis(100).as_nanos());
    assert_eq!(transport.retry_delay_for_attempt(2), Duration::from_millis(200).as_nanos());
    assert_eq!(transport.retry_delay_for_attempt(3), Duration::from_millis(400).as_nanos());
    assert_eq!(transport.retry_delay_for_attempt(4), Duration::from_millis(800).as_nanos());
    assert_eq!(transport.retry_delay_for_attempt(5), Duration::from_millis(800).as_nanos());
}

#[test]
fn request_transport_gives_up_after_the_last_attempt() {
    let transport = RequestTransport::default();
    assert_eq!(
        transport.after_failure(1, &TransportFault::Timeout),
        RetryDecision::Retry {
            attempts: 1,
            delay_nanos: 100_000_000,
        }
    );
    assert_eq!(transport.after_failure(3, &TransportFault::Timeout), RetryDecision::GiveUp);
    assert_eq!(transport.after_failure(1, &TransportFault::Serde), RetryDecision::GiveUp);
}

#[test]
fn backoff_falls_back_to_the_base_when_the_product_overflows() {
    let huge = RequestTransport {
        max_attempts: 3,
        retry_delay_base_nanos: Duration::MAX.as_nanos(),
    };
    assert_eq!(huge.retry_delay_for_attempt(4), Duration::MAX.as_nanos());
}

#[test]
fn pipe_name_of_a_plain_path_uses_its_documented_stem() {
    assert_eq!(
        pipe_name("/run/agent-sim/demo.v2.sock"),
        format!(r"\\.\pipe\agent-sim-demo_v2-{:016x}", stable_hash64("/run/agent-sim/demo.v2.sock"))
    );
}
