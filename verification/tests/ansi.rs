use ip_config_tool::ansi::{Color, ScreenBuffer};

fn plain_text(buf: &ScreenBuffer, row: usize) -> String {
    buf.rows_as_runs()[row].iter().map(|(s, _, _)| s.as_str()).collect::<String>().trim_end().to_string()
}

#[test]
fn plain_text_is_written_left_to_right() {
    let mut buf = ScreenBuffer::new(20, 5);
    buf.feed(b"hello");
    assert_eq!(plain_text(&buf, 0), "hello");
}

#[test]
fn newline_moves_to_next_row() {
    let mut buf = ScreenBuffer::new(20, 5);
    buf.feed(b"one\r\ntwo");
    assert_eq!(plain_text(&buf, 0), "one");
    assert_eq!(plain_text(&buf, 1), "two");
}

#[test]
fn sgr_color_applies_to_following_text() {
    let mut buf = ScreenBuffer::new(20, 5);
    buf.feed(b"\x1b[31mred\x1b[0m plain");
    let runs = &buf.rows_as_runs()[0];
    assert_eq!(runs[0].0, "red");
    assert_eq!(runs[0].1, Color::Red);
    assert_eq!(runs[1].1, Color::Default);
}

#[test]
fn sgr_reset_clears_color_and_bold() {
    let mut buf = ScreenBuffer::new(20, 5);
    buf.feed(b"\x1b[1;32mbold-green\x1b[0mnormal");
    let runs = &buf.rows_as_runs()[0];
    assert_eq!(runs[0].1, Color::Green);
    assert!(runs[0].2);
    assert_eq!(runs[1].1, Color::Default);
    assert!(!runs[1].2);
}

#[test]
fn cursor_up_then_write_overwrites_previous_line() {
    let mut buf = ScreenBuffer::new(20, 5);
    buf.feed(b"one\r\ntwo");
    buf.feed(b"\x1b[1A\rXXX"); // cursor up 1, back to column 0, overwrite
    assert_eq!(plain_text(&buf, 0), "XXX");
    assert_eq!(plain_text(&buf, 1), "two");
}

#[test]
fn erase_line_clears_from_cursor_to_end() {
    let mut buf = ScreenBuffer::new(20, 5);
    buf.feed(b"hello world");
    buf.feed(b"\r\x1b[5C\x1b[0K"); // move to col 5, erase to end of line
    assert_eq!(plain_text(&buf, 0), "hello");
}

#[test]
fn resize_preserves_top_left_content() {
    let mut buf = ScreenBuffer::new(20, 5);
    buf.feed(b"hello");
    buf.resize(10, 3);
    assert_eq!(plain_text(&buf, 0), "hello");
    assert_eq!(buf.cols(), 10);
    assert_eq!(buf.rows(), 3);
}

#[test]
fn scrolls_when_writing_past_last_row() {
    let mut buf = ScreenBuffer::new(10, 2);
    buf.feed(b"first\r\nsecond\r\nthird");
    assert_eq!(plain_text(&buf, 0), "second");
    assert_eq!(plain_text(&buf, 1), "third");
}

#[test]
fn a_full_line_wraps_with_the_next_character() {
    let mut buf = ScreenBuffer::new(3, 2);
    buf.feed(b"abc");
    assert_eq!(plain_text(&buf, 0), "abc");
    assert_eq!(plain_text(&buf, 1), "");
    buf.feed(b"d");
    assert_eq!(plain_text(&buf, 1), "d");
}

#[test]
fn backspace_moves_back_and_stops_at_the_margin() {
    let mut buf = ScreenBuffer::new(5, 1);
    buf.feed(b"ab\x08\x08\x08X");
    assert_eq!(plain_text(&buf, 0), "Xb");
}

#[test]
fn cursor_positions_count_from_one_and_stay_inside() {
    let mut buf = ScreenBuffer::new(4, 3);
    buf.feed(b"\x1b[2;3HX\x1b[HY\x1b[99;99fZ");
    assert_eq!(plain_text(&buf, 0), "Y");
    assert_eq!(plain_text(&buf, 1), "  X");
    assert_eq!(plain_text(&buf, 2), "   Z");
}

#[test]
fn cursor_moves_stay_inside() {
    let mut buf = ScreenBuffer::new(4, 2);
    buf.feed(b"\x1b[9B\x1b[9CX\x1b[9A\x1b[9DY");
    assert_eq!(plain_text(&buf, 0), "Y");
    assert_eq!(plain_text(&buf, 1), "   X");
}

#[test]
fn erase_line_modes() {
    let mut buf = ScreenBuffer::new(5, 1);
    buf.feed(b"abcde\x1b[3G\r\x1b[2C\x1b[1K");
    assert_eq!(plain_text(&buf, 0), "   de");
    buf.feed(b"\x1b[7K");
    assert_eq!(plain_text(&buf, 0), "   de");
    buf.feed(b"\x1b[2K");
    assert_eq!(plain_text(&buf, 0), "");
}

#[test]
fn erase_screen_modes() {
    let fill = b"aaa\r\nbbb\r\nccc\x1b[2;2H";
    let mut buf = ScreenBuffer::new(3, 3);
    buf.feed(fill);
    buf.feed(b"\x1b[J");
    assert_eq!(plain_text(&buf, 0), "aaa");
    assert_eq!(plain_text(&buf, 1), "b");
    assert_eq!(plain_text(&buf, 2), "");

    let mut buf = ScreenBuffer::new(3, 3);
    buf.feed(fill);
    buf.feed(b"\x1b[1J");
    assert_eq!(plain_text(&buf, 0), "");
    assert_eq!(plain_text(&buf, 1), "  b");
    assert_eq!(plain_text(&buf, 2), "ccc");

    let mut buf = ScreenBuffer::new(3, 3);
    buf.feed(fill);
    buf.feed(b"\x1b[2JX");
    assert_eq!(plain_text(&buf, 0), "X");
    assert_eq!(plain_text(&buf, 2), "");
}

#[test]
fn styles_end_one_by_one() {
    let mut buf = ScreenBuffer::new(6, 1);
    buf.feed(b"\x1b[1;31ma\x1b[22mb\x1b[39mc\x1b[1;99md\x1b[me");
    let runs = &buf.rows_as_runs()[0];
    let plain = ("c".to_string(), Color::Default, false);
    assert_eq!(runs[0], ("a".to_string(), Color::Red, true));
    assert_eq!(runs[1], ("b".to_string(), Color::Red, false));
    assert_eq!(runs[2], plain);
    assert_eq!(runs[3], ("d".to_string(), Color::Default, true));
    assert_eq!(runs[4], ("e ".to_string(), Color::Default, false));
}

#[test]
fn runs_hold_every_cell_of_the_row() {
    let mut buf = ScreenBuffer::new(8, 1);
    buf.feed(b"ab\x1b[32mcd\x1b[0me");
    let text: String = buf.rows_as_runs()[0].iter().map(|(s, _, _)| s.as_str()).collect();
    assert_eq!(text, "abcde   ");
}

#[test]
fn bytes_may_be_cut_anywhere() {
    let bytes = "\u{e9}\x1b[1;31mx\x1b[0m\u{20ac}y".as_bytes();
    let mut whole = ScreenBuffer::new(10, 2);
    whole.feed(bytes);
    for cut in 0..=bytes.len() {
        let mut parts = ScreenBuffer::new(10, 2);
        parts.feed(&bytes[..cut]);
        parts.feed(&bytes[cut..]);
        assert_eq!(parts.rows_as_runs(), whole.rows_as_runs());
    }
    assert_eq!(plain_text(&whole, 0), "\u{e9}x\u{20ac}y");
}

#[test]
fn dirty_is_told_once() {
    let mut buf = ScreenBuffer::new(4, 2);
    assert!(!buf.take_dirty());
    buf.feed(b"a");
    assert!(buf.take_dirty());
    assert!(!buf.take_dirty());
    buf.feed(b"\r");
    assert!(!buf.take_dirty());
    buf.resize(5, 5);
    assert!(buf.take_dirty());
}

#[test]
fn a_screen_has_at_least_one_cell() {
    let mut buf = ScreenBuffer::new(0, 0);
    assert_eq!((buf.cols(), buf.rows()), (1, 1));
    buf.feed(b"ab");
    assert_eq!(plain_text(&buf, 0), "b");
    buf.resize(0, 2);
    assert_eq!((buf.cols(), buf.rows()), (1, 2));
}

#[test]
fn colors_have_their_codes_and_parts() {
    assert_eq!(Color::from_sgr(31), Some(Color::Red));
    assert_eq!(Color::from_sgr(39), Some(Color::Default));
    assert_eq!(Color::from_sgr(38), None);
    assert_eq!(Color::from_sgr(29), None);
    assert_eq!(Color::Red.rgb(), Some((205, 49, 49)));
    assert_eq!(Color::White.rgb(), Some((229, 229, 229)));
    assert_eq!(Color::Default.rgb(), None);
}
