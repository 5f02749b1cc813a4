use clipboard_history::{MonitorState, POLL_INTERVAL_MS};

#[test]
fn new_text_is_reported_once() {
    let mut m = MonitorState::new();
    assert_eq!(m.observe_text("hello".to_string()), Some("hello".to_string()));
    assert_eq!(m.observe_text("hello".to_string()), None);
    assert_eq!(m.observe_text("world".to_string()), Some("world".to_string()));
    assert_eq!(m.observe_text("hello".to_string()), Some("hello".to_string()));
}

#[test]
fn empty_text_is_ignored() {
    let mut m = MonitorState::new();
    assert_eq!(m.observe_text(String::new()), None);
    m.observe_text("a".to_string());
    assert_eq!(m.observe_text(String::new()), None);
    assert_eq!(m.observe_text("a".to_string()), None);
}

#[test]
fn images_are_tracked_apart_from_text() {
    let mut m = MonitorState::new();
    assert_eq!(m.observe_text("p.png".to_string()), Some("p.png".to_string()));
    assert_eq!(m.observe_image("p.png".to_string()), Some("p.png".to_string()));
    assert_eq!(m.observe_image("p.png".to_string()), None);
    assert_eq!(m.observe_image(String::new()), None);
}

#[test]
fn poll_interval_is_half_a_second() {
    assert_eq!(POLL_INTERVAL_MS, 500);
}
