use kernel::serial::{LineEditor, ReceiveStatus};

/// Feeds `first` then `rest` while the editor asks for bytes; returns the
/// echoed bytes, the final status and the line.
fn run(len: usize, first: u8, rest: &[u8]) -> (Vec<u8>, ReceiveStatus, Option<String>) {
    let (mut editor, step) = LineEditor::start(vec![0xAA; len], first);
    let mut echo = step.echo;
    let mut status = step.status;
    let mut i = 0;
    while status == ReceiveStatus::NeedByte {
        let step = editor.receive(rest[i]);
        i += 1;
        echo.extend(step.echo);
        status = step.status;
    }
    let line = if status == ReceiveStatus::Completed { editor.line() } else { None };
    (echo, status, line)
}

#[test]
fn line_is_echoed_and_returned() {
    let (echo, status, line) = run(16, b'h', b"i!\r");
    assert_eq!(status, ReceiveStatus::Completed);
    assert_eq!(line.as_deref(), Some("hi!"));
    assert_eq!(echo, b"> hi!\r\n".to_vec());
}

#[test]
fn line_feed_also_ends_the_line() {
    let (_, status, line) = run(16, b'o', b"k\n");
    assert_eq!(status, ReceiveStatus::Completed);
    assert_eq!(line.as_deref(), Some("ok"));
}

#[test]
fn backspace_and_delete_erase() {
    let (echo, _, line) = run(16, b'a', &[b'b', 0x08, b'c', 0x7F, 0x7F, 0x7F, b'd', b'\r']);
    assert_eq!(line.as_deref(), Some("d"));
    // erasing on an empty line echoes nothing
    assert_eq!(echo, vec![b'>', b' ', b'a', b'b', 0x08, b'c', 0x7F, 0x7F, b'd', b'\r', b'\n']);
}

#[test]
fn carriage_return_first_cancels() {
    let (_, step) = LineEditor::start(vec![0; 4], b'\r');
    assert_eq!(step.status, ReceiveStatus::Cancelled);
    assert!(step.echo.is_empty());
}

#[test]
fn first_byte_is_kept_as_it_is() {
    let (_, _, line) = run(8, 0x08, b"x\r");
    assert_eq!(line.as_deref(), Some("\u{8}x"));
}

#[test]
fn full_buffer_cancels() {
    let (echo, status, line) = run(3, b'a', b"bc");
    assert_eq!(status, ReceiveStatus::Cancelled);
    assert_eq!(line, None);
    assert_eq!(echo, b"> abc".to_vec());
    let (_, status, _) = run(1, b'a', b"");
    assert_eq!(status, ReceiveStatus::Cancelled);
}

#[test]
fn invalid_utf8_gives_no_line() {
    let (_, status, line) = run(8, 0xFF, b"\r");
    assert_eq!(status, ReceiveStatus::Completed);
    assert_eq!(line, None);
}

#[test]
fn multibyte_utf8_line() {
    let (_, _, line) = run(8, 0xC3, &[0xA9, b'\r']);
    assert_eq!(line.as_deref(), Some("é"));
}

#[test]
fn zero_byte_ends_the_text() {
    let (_, _, line) = run(8, b'a', &[0, b'b', b'\r']);
    assert_eq!(line.as_deref(), Some("a"));
}

#[test]
fn carriage_return_first_on_empty_buffer_cancels() {
    let (editor, step) = LineEditor::start(Vec::new(), b'\r');
    assert_eq!(step.status, ReceiveStatus::Cancelled);
    assert!(step.echo.is_empty());
    assert!(editor.into_buffer().is_empty());
    let (editor, _) = LineEditor::start(vec![1, 2, 3], b'\r');
    assert_eq!(editor.into_buffer(), vec![1, 2, 3]);
}
