use clipkeep::clipboard::CaptureError;
use clipkeep::clipboard::Clipboard;
use clipkeep::clipboard::Contents;
use clipkeep::clipboard::PublishError;
use clipkeep::clipboard::Publisher;
use clipkeep::clipboard::Role;

fn sample_contents() -> Contents {
    let fetched = vec![
        ("UTF8_STRING".to_string(), Some(b"hello".to_vec())),
        ("text/plain".to_string(), Some(b"hello".to_vec())),
    ];
    match Contents::new(fetched) {
        Ok(c) => c,
        Err(_) => panic!("capture of two well-formed fetches must succeed"),
    }
}

#[test]
fn parse_targets_no_owner() {
    let r = Clipboard::parse_targets(None);
    assert!(matches!(r, Err(CaptureError::OwnerUnavailable)));
}

#[test]
fn parse_targets_invalid_text() {
    let r = Clipboard::parse_targets(Some(vec![0xff, 0xfe, 0x00]));
    assert!(matches!(r, Err(CaptureError::Encoding)));
}

#[test]
fn parse_targets_splits_list() {
    let reply = b"TARGETS UTF8_STRING\n  text/plain ".to_vec();
    let ts = Clipboard::parse_targets(Some(reply)).unwrap();
    assert_eq!(ts, vec!["TARGETS", "UTF8_STRING", "text/plain"]);
}

#[test]
fn parse_targets_empty_reply() {
    let ts = Clipboard::parse_targets(Some(Vec::new())).unwrap();
    assert!(ts.is_empty());
}

#[test]
fn targets_to_fetch_skips_marker() {
    let ts = vec![
        "TARGETS".to_string(),
        "UTF8_STRING".to_string(),
        "image/png".to_string(),
    ];
    let plan = Clipboard::targets_to_fetch(&ts);
    assert_eq!(plan, vec!["UTF8_STRING", "image/png"]);
}

#[test]
fn capture_is_all_or_nothing() {
    let fetched = vec![
        ("UTF8_STRING".to_string(), Some(b"hello".to_vec())),
        ("image/png".to_string(), None),
        ("text/plain".to_string(), Some(b"hello".to_vec())),
    ];
    let r = Contents::new(fetched);
    assert!(matches!(r, Err(CaptureError::TargetFetch(t)) if t == "image/png"));
}

#[test]
fn capture_reports_first_failure() {
    let fetched = vec![
        ("a".to_string(), None),
        ("b".to_string(), None),
    ];
    let r = Contents::new(fetched);
    assert!(matches!(r, Err(CaptureError::TargetFetch(t)) if t == "a"));
}

#[test]
fn capture_builds_snapshot() {
    let c = sample_contents();
    assert_eq!(c.len(), 2);
    assert_eq!(c.get(&"UTF8_STRING".to_string()).unwrap().as_slice(), b"hello");
    assert_eq!(c.get(&"text/plain".to_string()).unwrap().as_slice(), b"hello");
}

#[test]
fn capture_never_stores_the_marker() {
    let fetched = vec![
        ("TARGETS".to_string(), Some(b"UTF8_STRING".to_vec())),
        ("UTF8_STRING".to_string(), Some(b"hello".to_vec())),
    ];
    let c = Contents::new(fetched).unwrap();
    assert_eq!(c.len(), 1);
    assert!(c.get(&"TARGETS".to_string()).is_none());
}

#[test]
fn capture_with_failed_marker_fetch_still_succeeds() {
    let fetched = vec![
        ("TARGETS".to_string(), None),
        ("UTF8_STRING".to_string(), Some(b"hello".to_vec())),
    ];
    let c = Contents::new(fetched).unwrap();
    assert_eq!(c.len(), 1);
}

#[test]
fn insert_overrides_earlier_entry() {
    let mut c = Contents::empty();
    c.insert("UTF8_STRING".to_string(), b"first".to_vec());
    c.insert("UTF8_STRING".to_string(), b"second".to_vec());
    assert_eq!(c.len(), 1);
    assert_eq!(c.get(&"UTF8_STRING".to_string()).unwrap().as_slice(), b"second");
}

#[test]
fn insert_ignores_the_marker() {
    let mut c = Contents::empty();
    c.insert("TARGETS".to_string(), b"whatever".to_vec());
    assert_eq!(c.len(), 0);
    assert!(c.get(&"TARGETS".to_string()).is_none());
}

#[test]
fn entries_hand_out_every_pair() {
    let c = sample_contents();
    let es = c.entries();
    assert_eq!(es.len(), 2);
    assert!(es.iter().any(|p| p.0 == "UTF8_STRING" && p.1 == b"hello".to_vec()));
    assert!(es.iter().any(|p| p.0 == "text/plain" && p.1 == b"hello".to_vec()));
}

#[test]
fn round_trip_publish_then_fetch_every_key() {
    let c = sample_contents();
    let keys: Vec<String> = c.entries().iter().map(|p| p.0.clone()).collect();
    let p = Publisher::start(c, 7);
    for k in keys {
        assert_eq!(p.respond(&k).unwrap().as_slice(), b"hello");
    }
}

#[test]
fn published_snapshot_serves_exact_bytes() {
    let c = sample_contents();
    let p = Publisher::start(c, 7);
    assert_eq!(p.respond(&"UTF8_STRING".to_string()).unwrap().as_slice(), b"hello");
    assert!(p.respond(&"image/png".to_string()).is_none());
}

#[test]
fn unsupported_format_is_never_fabricated() {
    let p = Publisher::start(sample_contents(), 7);
    assert!(p.respond(&"image/png".to_string()).is_none());
    assert!(p.respond(&"image/png".to_string()).is_none());
}

#[test]
fn poll_keeps_ownership_while_reported() {
    let mut p = Publisher::start(sample_contents(), 7);
    assert!(!p.poll(Some(7)));
    assert!(!p.poll(Some(7)));
    assert!(p.poll(Some(8)));
}

#[test]
fn poll_treats_missing_answer_as_loss() {
    let mut p = Publisher::start(sample_contents(), 7);
    assert!(p.poll(None));
}

#[test]
fn second_publish_supersedes_first() {
    let a = Contents::new(vec![("a-only".to_string(), Some(b"A".to_vec()))]).unwrap();
    let b = Contents::new(vec![("b-only".to_string(), Some(b"B".to_vec()))]).unwrap();
    let mut first = Publisher::start(a, 1);
    let second = Publisher::start(b, 2);
    assert!(first.poll(Some(2)));
    assert!(second.respond(&"a-only".to_string()).is_none());
    assert_eq!(second.respond(&"b-only".to_string()).unwrap().as_slice(), b"B");
}

#[test]
fn empty_capture_publishes_an_empty_snapshot() {
    let c = Contents::new(Vec::new()).unwrap();
    assert_eq!(c.len(), 0);
    let mut p = Publisher::start(c, 3);
    assert!(p.respond(&"UTF8_STRING".to_string()).is_none());
    assert!(!p.poll(Some(3)));
}

#[test]
fn detach_decision_covers_all_outcomes() {
    assert!(matches!(
        Clipboard::detach_decision(-1),
        Err(PublishError::DetachFailed)
    ));
    assert!(matches!(Clipboard::detach_decision(0), Ok(Role::Server)));
    assert!(matches!(Clipboard::detach_decision(12345), Ok(Role::Caller)));
}

#[test]
fn error_messages_are_exact() {
    assert_eq!(
        CaptureError::OwnerUnavailable.message(),
        "no clipboard owner is available"
    );
    assert_eq!(
        CaptureError::Encoding.message(),
        "the format list is not valid text"
    );
    assert_eq!(
        CaptureError::TargetFetch("image/png".to_string()).message(),
        "could not fetch target image/png"
    );
    assert_eq!(PublishError::DetachFailed.message(), "Could not fork process");
}
