use aerodesk::json::{json_quote, read_string_members};
use aerodesk::text::{chars_contain, chars_end_with, chars_less, chars_of, same_text, trim_str};

#[test]
fn trim_matches_std() {
    for s in ["", "   ", " a b \n", "\t\r\nx", "\u{3000}x\u{a0}", "\u{85}y\u{2028}", "x\u{200b}", "mid dle"] {
        assert_eq!(trim_str(s), s.trim(), "input {:?}", s);
    }
    assert_eq!(trim_str(&trim_str("  z  ")), "z");
}

#[test]
fn order_matches_std() {
    let words = ["", "a", "ab", "b", "B", "é", "aa", "z", "Pixel", "Pixel 7"];
    for x in words {
        for y in words {
            assert_eq!(chars_less(&chars_of(x), &chars_of(y)), x < y, "{:?} {:?}", x, y);
        }
    }
}

#[test]
fn contains_and_ends_with() {
    assert!(chars_contain(&chars_of("hello world"), &chars_of("lo w")));
    assert!(chars_contain(&chars_of("abc"), &chars_of("")));
    assert!(!chars_contain(&chars_of("abc"), &chars_of("abcd")));
    assert!(chars_end_with(&chars_of("org.a11y.atspi.EditableText"), &chars_of("EditableText")));
    assert!(!chars_end_with(&chars_of("Text"), &chars_of("EditableText")));
    assert!(same_text("x", "x"));
    assert!(!same_text("x", "y"));
}

#[test]
fn json_quote_escapes() {
    assert_eq!(json_quote("plain"), "\"plain\"");
    assert_eq!(json_quote("a\"b\\c"), "\"a\\\"b\\\\c\"");
    assert_eq!(json_quote("\n\t\r\u{8}\u{c}"), "\"\\n\\t\\r\\b\\f\"");
    assert_eq!(json_quote("\u{1}\u{1f}"), "\"\\u0001\\u001f\"");
    assert_eq!(json_quote("中文 é\u{7f}"), "\"中文 é\u{7f}\"");
    for s in ["x", "\u{0}", "quote\"", "\u{10ffff}"] {
        assert_eq!(json_quote(s), serde_json::to_string(s).unwrap());
    }
}

#[test]
fn string_members_are_read() {
    let keys = vec!["type", "token", "name"];
    let got = read_string_members("{\"type\":\"auth\",\"token\":\"t\",\"name\":5}", &keys);
    assert_eq!(got, Some(vec![Some("auth".to_string()), Some("t".to_string()), None]));
    assert_eq!(read_string_members("not json", &keys), None);
    assert_eq!(read_string_members("[1,2]", &keys), Some(vec![None, None, None]));
}
