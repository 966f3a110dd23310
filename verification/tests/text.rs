use ui::text::js_string;

#[test]
fn escapes_for_javascript() {
    assert_eq!(js_string("a\"b\\c\nd"), "\"a\\\"b\\\\c\\nd\"");
    assert_eq!(js_string("\u{1}"), "\"\\u0001\"");
}

#[test]
fn escapes_every_control_character() {
    assert_eq!(js_string(""), "\"\"");
    assert_eq!(js_string("\r\t"), "\"\\r\\t\"");
    assert_eq!(js_string("\u{1f}é"), "\"\\u001fé\"");
    assert_eq!(js_string("plain text"), "\"plain text\"");
}
