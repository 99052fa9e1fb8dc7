use ip_config_tool::ansi::{Color, ScreenBuffer};
use ip_config_tool::terminal::{
    key_event_bytes_from_char, key_event_bytes_from_vk, redraw_pty_output, trim_trailing_whitespace, Format,
    KEY_DELETE, KEY_DOWN, KEY_END, KEY_HOME, KEY_LEFT, KEY_NEXT, KEY_PRIOR, KEY_RIGHT, KEY_UP,
};

#[test]
fn typed_characters_are_sent_in_utf8() {
    assert_eq!(key_event_bytes_from_char('a'), Some(vec![0x61]));
    assert_eq!(key_event_bytes_from_char('\r'), Some(vec![0x0d]));
    assert_eq!(key_event_bytes_from_char('\u{3}'), Some(vec![0x03]));
    assert_eq!(key_event_bytes_from_char('\u{e9}'), Some(vec![0xc3, 0xa9]));
    assert_eq!(key_event_bytes_from_char('\u{20ac}'), Some(vec![0xe2, 0x82, 0xac]));
    assert_eq!(key_event_bytes_from_char('\u{1f600}'), Some(vec![0xf0, 0x9f, 0x98, 0x80]));
}

#[test]
fn other_keys_are_sent_as_escape_sequences() {
    let sent = |vk: u32| key_event_bytes_from_vk(vk).unwrap();
    assert_eq!(sent(KEY_UP), b"\x1b[A");
    assert_eq!(sent(KEY_DOWN), b"\x1b[B");
    assert_eq!(sent(KEY_RIGHT), b"\x1b[C");
    assert_eq!(sent(KEY_LEFT), b"\x1b[D");
    assert_eq!(sent(KEY_HOME), b"\x1b[H");
    assert_eq!(sent(KEY_END), b"\x1b[F");
    assert_eq!(sent(KEY_DELETE), b"\x1b[3~");
    assert_eq!(sent(KEY_PRIOR), b"\x1b[5~");
    assert_eq!(sent(KEY_NEXT), b"\x1b[6~");
    assert_eq!(key_event_bytes_from_vk(0x41), None);
}

fn run(text: &str, color: Color, bold: bool) -> (String, Color, bool) {
    (text.to_string(), color, bold)
}

#[test]
fn white_space_is_taken_off_the_end_of_a_row() {
    let mut runs = vec![run("a b ", Color::Red, false), run("  ", Color::Default, true), run(" ", Color::Red, true)];
    trim_trailing_whitespace(&mut runs);
    assert_eq!(runs, vec![run("a b", Color::Red, false)]);
    let mut runs = vec![run("  ", Color::Default, false)];
    trim_trailing_whitespace(&mut runs);
    assert!(runs.is_empty());
    let mut runs = vec![run(" ", Color::Red, false), run("x", Color::Default, false)];
    trim_trailing_whitespace(&mut runs);
    assert_eq!(runs.len(), 2);
}

#[test]
fn a_blank_screen_is_drawn_as_nothing() {
    let drawn = redraw_pty_output(&ScreenBuffer::new(10, 4));
    assert_eq!(drawn.text, "");
    assert!(drawn.formats.is_empty());
    assert_eq!(drawn.end, 0);
}

#[test]
fn a_screen_is_drawn_up_to_its_last_line() {
    let mut screen = ScreenBuffer::new(10, 6);
    screen.feed(b"one\r\n\r\n\x1b[31mred\x1b[0m \x1b[1mbold\x1b[0m  ");
    let drawn = redraw_pty_output(&screen);
    assert_eq!(drawn.text, "one\r\n\r\nred bold");
    assert_eq!(drawn.end, 15);
    assert_eq!(
        drawn.formats,
        vec![
            Format { from: 7, to: 10, color: Some((205, 49, 49)), bold: false },
            Format { from: 11, to: 15, color: None, bold: true },
        ]
    );
    for f in &drawn.formats {
        assert!(["red", "bold"].contains(&&drawn.text[f.from as usize..f.to as usize]));
    }
}
