use cluster_node::codec::{decode, encode};
use cluster_node::{EntityId, MsgBody, MsgEnvelope, MsgPayload};

#[test]
fn encoded_reply_is_json_serde_agrees() {
    let env = MsgEnvelope {
        src: EntityId::Node(1),
        dest: EntityId::Client(1),
        body: MsgBody {
            msg_id: Some(2),
            in_reply_to: Some(2),
            payload: MsgPayload::EchoOk { echo: String::from("hello") },
        },
    };
    let text = encode(&env);
    let v: serde_json::Value = serde_json::from_str(&text).unwrap();
    assert_eq!(v.get("src").unwrap().as_str().unwrap(), "n1");
    assert_eq!(v.get("dest").unwrap().as_str().unwrap(), "c1");
    let body = v.get("body").unwrap();
    assert_eq!(body.get("type").unwrap().as_str().unwrap(), "echo_ok");
    assert_eq!(body.get("msg_id").unwrap().as_u64().unwrap(), 2);
    assert_eq!(body.get("in_reply_to").unwrap().as_u64().unwrap(), 2);
    assert_eq!(body.get("echo").unwrap().as_str().unwrap(), "hello");
}

#[test]
fn escaping_matches_what_serde_reads_back() {
    let tricky = "quote \" backslash \\ slash / newline \n carriage \r tab \t bell \u{7} end";
    let env = MsgEnvelope {
        src: EntityId::Node(1),
        dest: EntityId::Client(1),
        body: MsgBody {
            msg_id: Some(1),
            in_reply_to: None,
            payload: MsgPayload::Echo { echo: String::from(tricky) },
        },
    };
    let text = encode(&env);
    let v: serde_json::Value = serde_json::from_str(&text).unwrap();
    let body = v.get("body").unwrap();
    assert_eq!(body.get("echo").unwrap().as_str().unwrap(), tricky);
}

#[test]
fn generate_ok_id_survives_serde() {
    let env = MsgEnvelope {
        src: EntityId::Node(1),
        dest: EntityId::Client(1),
        body: MsgBody {
            msg_id: Some(2),
            in_reply_to: Some(3),
            payload: MsgPayload::GenerateOk { id: u64::MAX },
        },
    };
    let text = encode(&env);
    let v: serde_json::Value = serde_json::from_str(&text).unwrap();
    let body = v.get("body").unwrap();
    assert_eq!(body.get("id").unwrap().as_u64().unwrap(), u64::MAX);
    assert_eq!(decode(&text).unwrap(), env);
}
