use velin_core::host::{parse_reply, plan_effect, push_text_bounded, render_values, reserve_output, MAX_OUTPUT_BYTES};
use velin_core::value::Value;

#[test]
fn replies_parse_as_integers_booleans_or_text() {
    assert_eq!(parse_reply("42"), Value::Integer(42));
    assert_eq!(parse_reply("-7"), Value::Integer(-7));
    assert_eq!(parse_reply("+3"), Value::Integer(3));
    assert_eq!(parse_reply("true"), Value::Boolean(true));
    assert_eq!(parse_reply("false"), Value::Boolean(false));
    assert_eq!(parse_reply("hello"), Value::String("hello".to_string()));
    assert_eq!(parse_reply(" 4"), Value::String(" 4".to_string()));
    assert_eq!(parse_reply("-"), Value::String("-".to_string()));
    assert_eq!(parse_reply("9223372036854775808"), Value::String("9223372036854775808".to_string()));
    assert_eq!(parse_reply("-9223372036854775808"), Value::Integer(i64::MIN));
}

#[test]
fn commands_are_framed_by_name() {
    let say = plan_effect("say");
    assert_eq!((say.prefix.as_str(), say.suffix, say.reads_reply), ("", "\n", false));
    let ask = plan_effect("ask");
    assert_eq!((ask.prefix.as_str(), ask.suffix, ask.reads_reply), ("", " ", true));
    let other = plan_effect("door");
    assert_eq!((other.prefix.as_str(), other.suffix, other.reads_reply), ("[door] ", "\n", false));
}

#[test]
fn values_are_space_joined_after_the_prefix() {
    let values = vec![Value::Integer(1), Value::String("two".to_string()), Value::Boolean(true)];
    assert_eq!(render_values("[x] ", &values, "\n", 0).unwrap(), "[x] 1 two true");
    assert_eq!(render_values("", &[], "\n", 0).unwrap(), "");
}

#[test]
fn output_budget_is_enforced() {
    let values = vec![Value::String("abcdef".to_string())];
    // Exactly at the budget fits; one byte more does not.
    assert_eq!(render_values("", &values, "\n", MAX_OUTPUT_BYTES - 7).unwrap(), "abcdef");
    assert_eq!(render_values("", &values, "\n", MAX_OUTPUT_BYTES - 6), Err("output exceeds 1 MiB"));
    assert_eq!(render_values("", &values, "\n", MAX_OUTPUT_BYTES + 1), Err("output exceeds 1 MiB"));
    assert_eq!(reserve_output(10, 5, 1), Ok(16));
    assert_eq!(reserve_output(MAX_OUTPUT_BYTES - 1, 1, 0), Ok(MAX_OUTPUT_BYTES));
    assert_eq!(reserve_output(MAX_OUTPUT_BYTES, 1, 0), Err("output exceeds 1 MiB"));
    assert_eq!(reserve_output(1, usize::MAX, 0), Err("output size overflow"));
    assert_eq!(reserve_output(0, usize::MAX, 1), Err("output size overflow"));
}

#[test]
fn bounded_text_pushes_leave_the_text_alone_on_failure() {
    let mut text = String::from("ab");
    assert!(push_text_bounded(&mut text, "cd", 4).is_ok());
    assert_eq!(text, "abcd");
    assert_eq!(push_text_bounded(&mut text, "e", 4), Err("output exceeds 1 MiB"));
    assert_eq!(text, "abcd");
}

#[test]
fn reply_parses_integers_booleans_and_strings() {
    assert_eq!(parse_reply("7"), Value::Integer(7));
    assert_eq!(parse_reply("true"), Value::Boolean(true));
    assert_eq!(parse_reply("false"), Value::Boolean(false));
    assert_eq!(parse_reply("hi"), Value::String("hi".into()));
}

#[test]
fn reply_integers_follow_the_i64_syntax_and_range() {
    assert_eq!(parse_reply("-9223372036854775808"), Value::Integer(i64::MIN));
    assert_eq!(parse_reply("9223372036854775807"), Value::Integer(i64::MAX));
    assert_eq!(parse_reply("+12"), Value::Integer(12));
    assert_eq!(parse_reply("0007"), Value::Integer(7));
    assert_eq!(parse_reply("-0"), Value::Integer(0));
    for text in ["9223372036854775808", "-9223372036854775809", "99999999999999999999999", "-", "+", "", " 5", "5 ", "1a", "--1", "+-1", "\u{0661}", "1\u{00e9}"] {
        assert_eq!(parse_reply(text), Value::String(text.to_string()), "{text:?}");
    }
}
