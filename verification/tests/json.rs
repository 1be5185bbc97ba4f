use ratatosk_transport::chatmail::json::{field, unescape};

#[test]
fn a_plain_field_is_found() {
    let json = "{\"email\":\"a@b.cd\",\"password\":\"sekret\"}";
    assert_eq!(field(json, "email").as_deref(), Some("a@b.cd"));
    assert_eq!(field(json, "password").as_deref(), Some("sekret"));
    assert_eq!(field(json, "token"), None);
}

#[test]
fn spaces_around_the_colon_do_not_matter() {
    let json = "{\n  \"email\" :   \"a@b.cd\"\n}";
    assert_eq!(field(json, "email").as_deref(), Some("a@b.cd"));
}

#[test]
fn a_password_may_contain_a_quote() {
    let json = "{\"password\":\"a\\\"b\\\\c\"}";
    assert_eq!(field(json, "password").as_deref(), Some("a\"b\\c"));
}

#[test]
fn an_escape_sequence_is_unfolded() {
    let json = "{\"password\":\"\\u0041\\n\\t\"}";
    assert_eq!(field(json, "password").as_deref(), Some("A\n\t"));
}

#[test]
fn a_key_inside_a_value_is_not_a_key() {
    let json = "{\"password\":\"\\\"email\\\" is not here\",\"email\":\"a@b.cd\"}";
    assert_eq!(field(json, "email").as_deref(), Some("a@b.cd"));
}

#[test]
fn a_value_that_is_not_a_string_is_not_guessed_at() {
    assert_eq!(field("{\"email\":42}", "email"), None);
    assert_eq!(field("{\"email\":null}", "email"), None);
}

#[test]
fn a_truncated_answer_is_refused() {
    assert_eq!(field("{\"password\":\"половина", "password"), None);
    assert_eq!(field("{\"password\":\"конец\\", "password"), None);
}

#[test]
fn a_lone_surrogate_is_refused_rather_than_glued() {
    assert_eq!(field("{\"password\":\"\\ud83d\"}", "password"), None);
}

#[test]
fn a_numeric_escape_is_four_hexadecimal_digits() {
    let read = |text: &str| unescape(&text.chars().collect::<Vec<char>>());
    assert_eq!(read("\\u0041\"").as_deref(), Some("A"));
    assert_eq!(read("\\u00e9\\u00E9\"").as_deref(), Some("éé"));
    assert_eq!(read("\\uffff\"").as_deref(), Some("\u{ffff}"));
    assert_eq!(read("\\u+041\""), None);
    assert_eq!(read("\\u-041\""), None);
    assert_eq!(read("\\u41\""), None);
    assert_eq!(read("\\u004g\""), None);
    assert_eq!(read("\\u41"), None);
}
