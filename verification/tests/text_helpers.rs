use hypr_tools::{chars_eq, chars_of, parse_usize, push_i64, str_eq, trim};

#[test]
fn trim_removes_unicode_whitespace() {
    assert_eq!(trim("  halves\n"), "halves");
    assert_eq!(trim("\u{3000}\tquad\u{a0}\r"), "quad");
    assert_eq!(trim("a b"), "a b");
    assert_eq!(trim(" \n "), "");
    assert_eq!(trim(""), "");
}

#[test]
fn parse_usize_like_std() {
    assert_eq!(parse_usize("3"), Some(3));
    assert_eq!(parse_usize("+7"), Some(7));
    assert_eq!(parse_usize("007"), Some(7));
    assert_eq!(parse_usize("+"), None);
    assert_eq!(parse_usize(""), None);
    assert_eq!(parse_usize("-1"), None);
    assert_eq!(parse_usize("1x"), None);
    assert_eq!(parse_usize("18446744073709551615"), Some(18446744073709551615));
    assert_eq!(parse_usize("18446744073709551616"), None);
    for s in ["0", "42", "+42", "99999", "x", "4 2"] {
        assert_eq!(parse_usize(s), s.parse::<usize>().ok(), "{s}");
    }
}

#[test]
fn push_i64_writes_decimal() {
    for n in [0i64, 7, -7, 10, 683, -1366, i64::MAX, i64::MIN] {
        let mut s = String::from(">");
        push_i64(&mut s, n);
        assert_eq!(s, format!(">{}", n));
    }
}

#[test]
fn char_helpers() {
    assert_eq!(chars_of("añb"), vec!['a', 'ñ', 'b']);
    assert!(str_eq("wl_shm", "wl_shm"));
    assert!(!str_eq("wl_shm", "wl_sh"));
    assert!(chars_eq(&vec!['x'], &vec!['x']));
    assert!(!chars_eq(&vec!['x'], &vec!['y']));
}
