use clipkeep::app::Dialogue;

#[test]
fn dialogue_stays_open_while_typing() {
    assert!(!Dialogue::new(String::new()).should_close());
    assert!(!Dialogue::new("hello".to_string()).should_close());
    assert!(!Dialogue::new("hello wor".to_string()).should_close());
}

#[test]
fn dialogue_closes_on_trailing_space() {
    assert!(Dialogue::new("hello ".to_string()).should_close());
}

#[test]
fn dialogue_closes_on_trailing_newline() {
    assert!(Dialogue::new("hello\n".to_string()).should_close());
}

#[test]
fn dialogue_keeps_the_text() {
    let d = Dialogue::new("hello".to_string());
    assert_eq!(d.text, "hello");
}
