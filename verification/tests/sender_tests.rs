use std::io::Read;

use batch_importer::mime::Mime;
use batch_importer::sender::build_documents_url;
use batch_importer::sender::consume_step;
use batch_importer::sender::is_success;
use batch_importer::sender::prepare_upload;
use batch_importer::sender::request_headers;
use batch_importer::sender::ConsumeAction;
use batch_importer::sender::DocumentOperation;
use batch_importer::sender::RetryPolicy;
use batch_importer::sender::SendOutcome;
use batch_importer::sender::SendSession;
use batch_importer::sender::SendVerdict;

fn policy() -> RetryPolicy {
    RetryPolicy { max_attempts: 20, min_delay_ms: 100, max_delay_ms: 3_600_000 }
}

#[test]
fn url_without_primary_key() {
    let url = build_documents_url("http://localhost:7700", "movies", &None);
    assert_eq!(url, "http://localhost:7700/indexes/movies/documents");
}

#[test]
fn url_with_primary_key() {
    let url = build_documents_url("http://localhost:7700", "movies", &Some("id".to_string()));
    assert_eq!(url, "http://localhost:7700/indexes/movies/documents?primaryKey=id");
}

#[test]
fn headers_without_credential() {
    let headers = request_headers(&Mime::Csv, &None);
    assert_eq!(headers.len(), 2);
    assert_eq!(headers[0], ("Content-Type".to_string(), "text/csv".to_string()));
    assert_eq!(headers[1], ("Content-Encoding".to_string(), "gzip".to_string()));
}

#[test]
fn headers_with_credential() {
    let headers = request_headers(&Mime::NdJson, &Some("SECRET-REDACTED".to_string()));
    assert_eq!(headers.len(), 3);
    assert_eq!(headers[0].1, "application/x-ndjson");
    assert_eq!(headers[2], ("Authorization".to_string(), "Bearer SECRET-REDACTED".to_string()));
}

#[test]
fn method_follows_operation() {
    assert_eq!(DocumentOperation::AddOrReplace.method_str(), "POST");
    assert_eq!(DocumentOperation::AddOrUpdate.method_str(), "PUT");
}

#[test]
fn prepared_body_is_real_gzip_of_the_batch() {
    let batch = b"a,b\n1,2\n3,4\n".to_vec();
    let req = prepare_upload(
        DocumentOperation::AddOrReplace,
        "http://localhost:7700",
        "movies",
        &None,
        &None,
        &Mime::Csv,
        &batch,
    );
    assert_ne!(req.body, batch);
    let mut decoder = flate2::read::GzDecoder::new(&req.body[..]);
    let mut plain = Vec::new();
    decoder.read_to_end(&mut plain).unwrap();
    assert_eq!(plain, batch);
    assert_eq!(req.url, "http://localhost:7700/indexes/movies/documents");
    assert_eq!(req.operation, DocumentOperation::AddOrReplace);
    assert_eq!(req.headers.len(), 2);
}

#[test]
fn status_classes() {
    assert!(!is_success(199));
    assert!(is_success(200));
    assert!(is_success(204));
    assert!(is_success(299));
    assert!(!is_success(300));
    assert!(!is_success(500));
}

#[test]
fn skip_gate_counts_but_does_not_send_below_threshold() {
    let skip = Some(3u64);
    let mut sent = Vec::new();
    let mut progress = 0u64;
    for index in 0..6u64 {
        match consume_step(index, &skip) {
            ConsumeAction::Send => sent.push(index),
            ConsumeAction::SkipButCount => {}
        }
        progress += 1;
    }
    assert_eq!(sent, vec![3, 4, 5]);
    assert_eq!(progress, 6);
}

#[test]
fn no_skip_threshold_sends_everything() {
    for index in 0..5u64 {
        assert_eq!(consume_step(index, &None), ConsumeAction::Send);
    }
}

#[test]
fn base_delays_double_up_to_the_cap() {
    let p = policy();
    assert_eq!(p.delay_ms(0), 100);
    assert_eq!(p.delay_ms(1), 200);
    assert_eq!(p.delay_ms(2), 400);
    assert_eq!(p.delay_ms(10), 102_400);
    // 100 * 2^16 = 6_553_600 passes the one-hour cap
    assert_eq!(p.delay_ms(16), 3_600_000);
    assert_eq!(p.delay_ms(19), 3_600_000);
}

#[test]
fn jittered_delays_stay_within_bounds() {
    let p = policy();
    for attempt in 0..20 {
        for rand in 0..60 {
            let d = p.jittered_delay_ms(attempt, rand);
            assert!(d >= p.min_delay_ms);
            assert!(d <= p.max_delay_ms);
        }
    }
    // a zero draw leaves the base delay untouched
    assert_eq!(p.jittered_delay_ms(3, 0), 800);
}

#[test]
fn all_failures_make_exactly_max_attempts_then_fatal() {
    let p = policy();
    let mut session = SendSession::new(p);
    let mut attempts = 0u32;
    let mut delays = Vec::new();
    let mut verdict = None;
    while session.wants_attempt() {
        attempts += 1;
        match session.record(&SendOutcome::Status(500), 0) {
            SendVerdict::RetryAfter(d) => delays.push(d),
            v => verdict = Some(v),
        }
    }
    assert_eq!(attempts, 20);
    assert_eq!(verdict, Some(SendVerdict::Exhausted));
    assert_eq!(delays.len(), 19);
    // non-decreasing until capped, then flat at the cap
    for w in delays.windows(2) {
        assert!(w[0] <= w[1]);
    }
    assert_eq!(delays[0], 100);
    assert_eq!(*delays.last().unwrap(), 3_600_000);
}

#[test]
fn transport_failures_consume_attempts_too() {
    let p = RetryPolicy { max_attempts: 3, min_delay_ms: 1, max_delay_ms: 10 };
    let mut session = SendSession::new(p);
    assert!(matches!(
        session.record(&SendOutcome::TransportError, 0),
        SendVerdict::RetryAfter(_)
    ));
    assert!(matches!(
        session.record(&SendOutcome::TransportError, 0),
        SendVerdict::RetryAfter(_)
    ));
    assert_eq!(session.record(&SendOutcome::TransportError, 0), SendVerdict::Exhausted);
    assert!(!session.wants_attempt());
}

#[test]
fn a_success_ends_the_session_at_once() {
    let mut session = SendSession::new(policy());
    assert_eq!(session.record(&SendOutcome::Status(202), 0), SendVerdict::Delivered);
    assert!(!session.wants_attempt());
}

#[test]
fn a_success_after_failures_ends_the_session() {
    let mut session = SendSession::new(policy());
    assert!(matches!(session.record(&SendOutcome::Status(503), 5), SendVerdict::RetryAfter(_)));
    assert!(matches!(session.record(&SendOutcome::TransportError, 41), SendVerdict::RetryAfter(_)));
    assert_eq!(session.record(&SendOutcome::Status(200), 0), SendVerdict::Delivered);
    assert!(!session.wants_attempt());
}
