use cemantix_ia::client::classify_response;
use cemantix_ia::client::outcome_score;
use cemantix_ia::client::parse_score_text;
use cemantix_ia::client::should_retry;
use cemantix_ia::client::RawPayload;
use cemantix_ia::client::ScoreOutcome;

#[test]
fn score_text_becomes_thousandths() {
    assert_eq!(parse_score_text("0.52"), Some(520));
    assert_eq!(parse_score_text("0.23"), Some(230));
    assert_eq!(parse_score_text("1.0"), Some(1000));
    assert_eq!(parse_score_text("1"), Some(1000));
    assert_eq!(parse_score_text("0.3"), Some(300));
    assert_eq!(parse_score_text("-0.07"), Some(-70));
    assert_eq!(parse_score_text("0.9999"), Some(999));
    assert_eq!(parse_score_text("12.345"), Some(12345));
}

#[test]
fn score_text_rejects_what_is_no_number() {
    assert!(parse_score_text("").is_none());
    assert!(parse_score_text("-").is_none());
    assert!(parse_score_text(".5").is_none());
    assert!(parse_score_text("1.").is_none());
    assert!(parse_score_text("abc").is_none());
    assert!(parse_score_text("1e3").is_none());
    assert!(parse_score_text("1.2.3").is_none());
    assert!(parse_score_text("1234567890123456").is_none());
}

#[test]
fn classification_follows_the_taxonomy() {
    assert_eq!(
        classify_response(401, RawPayload::Unparseable),
        ScoreOutcome::ProtocolFailure
    );
    assert_eq!(
        classify_response(500, RawPayload::Unparseable),
        ScoreOutcome::ProtocolFailure
    );
    assert_eq!(
        classify_response(200, RawPayload::Unparseable),
        ScoreOutcome::ParseFailure
    );
    assert_eq!(
        classify_response(
            200,
            RawPayload::Object {
                has_error: true,
                score_text: None
            }
        ),
        ScoreOutcome::UnknownWord
    );
    assert_eq!(
        classify_response(
            200,
            RawPayload::Object {
                has_error: false,
                score_text: None
            }
        ),
        ScoreOutcome::ParseFailure
    );
    assert_eq!(
        classify_response(
            200,
            RawPayload::Object {
                has_error: false,
                score_text: Some(String::from("0.3"))
            }
        ),
        ScoreOutcome::Success(300)
    );
    assert_eq!(
        classify_response(
            200,
            RawPayload::Object {
                has_error: false,
                score_text: Some(String::from("n/a"))
            }
        ),
        ScoreOutcome::ParseFailure
    );
}

#[test]
fn only_transport_failures_are_retried_and_only_five_times() {
    assert!(should_retry(&ScoreOutcome::TransportFailure, 1));
    assert!(should_retry(&ScoreOutcome::TransportFailure, 4));
    assert!(!should_retry(&ScoreOutcome::TransportFailure, 5));
    assert!(!should_retry(&ScoreOutcome::ProtocolFailure, 1));
    assert!(!should_retry(&ScoreOutcome::ParseFailure, 1));
    assert!(!should_retry(&ScoreOutcome::UnknownWord, 1));
    assert!(!should_retry(&ScoreOutcome::Success(300), 1));
}

#[test]
fn only_success_contributes_a_score() {
    assert_eq!(outcome_score(&ScoreOutcome::Success(520)), Some(520));
    assert_eq!(outcome_score(&ScoreOutcome::UnknownWord), None);
    assert_eq!(outcome_score(&ScoreOutcome::TransportFailure), None);
    assert_eq!(outcome_score(&ScoreOutcome::ProtocolFailure), None);
    assert_eq!(outcome_score(&ScoreOutcome::ParseFailure), None);
}
