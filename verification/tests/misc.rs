use gcast::ansistring::{AnsiString, AsString, Color, Len};
use gcast::net::Header;
use gcast::order::merge_sort;
use gcast::text::str_le;

#[test]
fn color_codes() {
    assert_eq!(Color::Blue.fg_code(), "34");
    assert_eq!(Color::Black.bg_code(), "40");
    assert_eq!(Color::White.fg_code(), "37");
}

#[test]
fn ansi_strings() {
    let mut s = AnsiString::empty();
    s.push_fg(Color::Red).push_str("ab").push_reset();
    assert_eq!(s.as_str(), "\x1b[22;31mab\x1b[0m");
    assert_eq!(s.char_len(), 2);
    s.push_bg_bright(Color::Green).push_blink().push_code("7").push_maybe_code(None);
    assert_eq!(s.as_str(), "\x1b[22;31mab\x1b[0m\x1b[1;42m\x1b[5m\x1b[7m");
    s.push_char('å');
    assert_eq!(s.char_len(), 4);
    let mut t = AnsiString::new("xyz".to_string());
    t.push_fg_bright(Color::Cyan).push_bg(Color::Magenta).push_maybe_code(Some("1"));
    s.push_ansistring(&t);
    assert_eq!(s.char_len(), 7);
    assert!(s.as_str().ends_with("xyz\x1b[1;36m\x1b[22;45m\x1b[1m"));
    s.as_string().push('!');
    assert!(s.as_str().ends_with('!'));
    assert_eq!("héllo".char_len(), 5);
    assert_eq!("héllo".to_string().char_len(), 5);
}

#[test]
fn headers() {
    let h = Header::new(5);
    assert!(h.is_valid());
    assert_eq!(h.size(), 5);
    assert_eq!(h.size_inv(), 5 ^ 0xffff);
    assert!(!Header::from_parts(5, 5).is_valid());
    assert!(Header::from_parts(0, 0xffff).is_valid());
}

#[test]
fn ordering_strings_and_sorting() {
    assert!(str_le("a", "b"));
    assert!(str_le("ab", "ab"));
    assert!(str_le("a", "ab"));
    assert!(!str_le("b", "ab"));
    assert!(str_le("Z", "a"));
    assert_eq!(merge_sort(vec![5, 3, 9, 1, 3]), vec![1, 3, 3, 5, 9]);
    assert_eq!(merge_sort(Vec::<i32>::new()), Vec::<i32>::new());
}
