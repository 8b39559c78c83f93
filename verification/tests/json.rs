use rustdis::json::render_response;
use rustdis::{ResponseBody, ResponseMessage, ResponsePayload};

fn reply(payload: ResponsePayload) -> ResponseMessage {
    ResponseMessage {
        src: "n1".to_string(),
        dest: "c2".to_string(),
        body: ResponseBody { msg_id: 12, in_reply_to: 3, payload },
    }
}

#[test]
fn unit_kinds_write_only_their_type() {
    assert_eq!(
        render_response(&reply(ResponsePayload::InitOk)),
        r#"{"src":"n1","dest":"c2","body":{"msg_id":12,"in_reply_to":3,"type":"init_ok"}}"#
    );
    assert_eq!(
        render_response(&reply(ResponsePayload::TopologyOk)),
        r#"{"src":"n1","dest":"c2","body":{"msg_id":12,"in_reply_to":3,"type":"topology_ok"}}"#
    );
}

#[test]
fn message_lists_are_arrays() {
    assert_eq!(
        render_response(&reply(ResponsePayload::ReadOk { messages: vec![1, 20, 4294967295] })),
        r#"{"src":"n1","dest":"c2","body":{"msg_id":12,"in_reply_to":3,"type":"read_ok","messages":[1,20,4294967295]}}"#
    );
    assert_eq!(
        render_response(&reply(ResponsePayload::SyncOk { messages: vec![] })),
        r#"{"src":"n1","dest":"c2","body":{"msg_id":12,"in_reply_to":3,"type":"sync_ok","messages":[]}}"#
    );
}

#[test]
fn strings_are_escaped() {
    let echo = "a\"b\\c\nd\te\u{1}f\u{1f}é/".to_string();
    assert_eq!(
        render_response(&reply(ResponsePayload::EchoOk { echo })),
        "{\"src\":\"n1\",\"dest\":\"c2\",\"body\":{\"msg_id\":12,\"in_reply_to\":3,\"type\":\"echo_ok\",\"echo\":\"a\\\"b\\\\c\\nd\\te\\u0001f\\u001fé/\"}}"
    );
}

#[test]
fn generated_id_is_a_string_field() {
    assert_eq!(
        render_response(&reply(ResponsePayload::GenerateOk { id: "n1-7".to_string() })),
        r#"{"src":"n1","dest":"c2","body":{"msg_id":12,"in_reply_to":3,"type":"generate_ok","id":"n1-7"}}"#
    );
}

#[test]
fn rendering_matches_serde_json_strings() {
    let echo = "x\u{8}\u{c}\r\u{7f}".to_string();
    let text = render_response(&reply(ResponsePayload::EchoOk { echo: echo.clone() }));
    let expected_echo = serde_json::to_string(&echo).unwrap();
    assert!(text.ends_with(&format!("\"echo\":{}}}}}", expected_echo)));
}
