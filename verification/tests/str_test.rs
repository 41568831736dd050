use ghtrending::text::{join_trimmed, parse_u32_string, remove_char_string, replace_string, split_string, trim_string};

#[test]
fn test_name_string() {
    let s: String = String::from("krishnaik06 /");
    let t = split_string(&s, '/');
    let mut res = join_trimmed(&t);
    res.push('/');
    assert_eq!(String::from("krishnaik06/"), res);
}

#[test]
fn trim_removes_unicode_white_space_at_both_ends() {
    assert_eq!(trim_string(" \t\n ab c \u{3000}\u{a0}"), "ab c");
    assert_eq!(trim_string("   "), "");
    assert_eq!(trim_string(""), "");
    assert_eq!(trim_string("x"), "x");
}

#[test]
fn split_keeps_empty_pieces() {
    assert_eq!(split_string("a  b", ' '), vec!["a", "", "b"]);
    assert_eq!(split_string("", ' '), vec![""]);
    assert_eq!(split_string("/", '/'), vec!["", ""]);
    assert_eq!(split_string("owner /name", ' '), vec!["owner", "/name"]);
}

#[test]
fn replace_is_left_to_right_without_overlap() {
    assert_eq!(replace_string("aaa", "aa", "b"), "ba");
    assert_eq!(replace_string("abc", "", "-"), "-a-b-c-");
    assert_eq!(replace_string("https://github.com/x/y", "/x/y", ""), "https://github.com");
    assert_eq!(replace_string("/x/stargazers/stargazers", "/stargazers", "/forks"), "/x/forks/forks");
    assert_eq!(remove_char_string("1,234,567", ','), "1234567");
    assert_eq!(remove_char_string("@alice", '@'), "alice");
}

#[test]
fn parse_u32_follows_from_str() {
    assert_eq!(parse_u32_string("1234"), Some(1234));
    assert_eq!(parse_u32_string("+12"), Some(12));
    assert_eq!(parse_u32_string("007"), Some(7));
    assert_eq!(parse_u32_string("4294967295"), Some(4294967295));
    assert_eq!(parse_u32_string("4294967296"), None);
    assert_eq!(parse_u32_string("-1"), None);
    assert_eq!(parse_u32_string("+"), None);
    assert_eq!(parse_u32_string(""), None);
    assert_eq!(parse_u32_string("12 stars"), None);
    for s in ["0", "42", "+9", "99999999999", "1a", " 1"] {
        assert_eq!(parse_u32_string(s), s.parse::<u32>().ok());
    }
}
