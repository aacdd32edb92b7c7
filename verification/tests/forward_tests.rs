use desktop_utils::forward::{forward_step, ForwardAction, ForwardEvent};

fn text(a: ForwardAction) -> Option<String> {
    match a {
        ForwardAction::WriteToAll(t) => Some(t),
        _ => None,
    }
}

#[test]
fn a_line_is_written_with_its_newline() {
    assert_eq!(text(forward_step(true, ForwardEvent::Line("hi".to_string()))), Some("hi\n".to_string()));
    assert_eq!(text(forward_step(false, ForwardEvent::Line(String::new()))), Some("\n".to_string()));
}

#[test]
fn end_of_input_stops() {
    assert!(matches!(forward_step(true, ForwardEvent::InputEnded), ForwardAction::Stop));
    assert!(matches!(forward_step(false, ForwardEvent::InputEnded), ForwardAction::Stop));
}

#[test]
fn failed_write_stops_only_when_asked() {
    assert!(matches!(forward_step(true, ForwardEvent::WriteFailed), ForwardAction::Stop));
    assert!(matches!(forward_step(false, ForwardEvent::WriteFailed), ForwardAction::Continue));
}

#[test]
fn completed_write_goes_on() {
    assert!(matches!(forward_step(true, ForwardEvent::WriteDone), ForwardAction::Continue));
    assert!(matches!(forward_step(false, ForwardEvent::WriteDone), ForwardAction::Continue));
}
