use hero_bot::message::{
    error_is_fatal, login_text, match_request_text, message_text, order_text, WsMsg,
};
use serde_json::Value;

fn parse(text: &str) -> Value {
    serde_json::from_str(text).unwrap()
}

#[test]
fn order_as_text() {
    assert_eq!(
        order_text("MOVE", 7, -3, 40, "🏃rally"),
        r#"{"args":{"comment":"🏃rally","hero_id":7,"x":-3,"y":40},"command":"MOVE"}"#
    );
}

#[test]
fn quotes_are_escaped() {
    assert_eq!(
        order_text("SHOOT", 0, i32::MIN, i32::MAX, "a\"b\\"),
        r#"{"args":{"comment":"a\"b\\","hero_id":0,"x":-2147483648,"y":2147483647},"command":"SHOOT"}"#
    );
}

#[test]
fn login_as_text() {
    assert_eq!(login_text(), r#"{"args":{"name":"Damoc_Damian","version":1},"command":"LOGIN"}"#);
}

#[test]
fn request_as_text() {
    assert_eq!(match_request_text(), r#"{"args":{},"command":"PRACTICE"}"#);
}

#[test]
fn any_message_as_text() {
    assert_eq!(
        message_text("SAY", parse(r#"{"b": 2, "a": "one"}"#)),
        r#"{"args":{"a":"one","b":2},"command":"SAY"}"#
    );
    assert_eq!(message_text("", Value::Null), r#"{"args":null,"command":""}"#);
    assert_eq!(
        message_text("L", parse("[1, -2.5, true]")),
        r#"{"args":[1,-2.5,true],"command":"L"}"#
    );
}

#[test]
fn only_a_true_member_is_fatal() {
    assert!(error_is_fatal(&parse(r#"{"fatal":true,"message":"bye"}"#)));
    assert!(!error_is_fatal(&parse(r#"{"fatal":false}"#)));
    assert!(!error_is_fatal(&parse(r#"{"fatal":"true"}"#)));
    assert!(!error_is_fatal(&parse(r#"{"fatal":1}"#)));
    assert!(!error_is_fatal(&parse(r#"{"message":"oops"}"#)));
    assert!(!error_is_fatal(&parse(r#"[true]"#)));
    assert!(!error_is_fatal(&parse("null")));
    assert!(!error_is_fatal(&parse("true")));
}

#[test]
fn incoming_messages_keep_their_parts() {
    let msg = WsMsg { command: "ERROR".to_string(), args: parse(r#"{"fatal":true}"#) };
    assert_eq!(msg.command, "ERROR");
    assert!(error_is_fatal(&msg.args));
}
