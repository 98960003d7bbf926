use cluster_node::codec::{decode, encode};
use cluster_node::{EntityId, MsgBody, MsgEnvelope, MsgPayload};

#[test]
fn test_deserialize_init_request() {
    let envelope = decode(
        r#"{
            "src": "c1",
            "dest": "n1",
            "body": {
                "type": "init",
                "msg_id": 1,
                "node_id": "n1",
                "node_ids": ["n1", "n2", "n3"]
            }
        }"#,
    );

    assert!(envelope.is_ok());
}

#[test]
fn test_deserialize_init_response() {
    let envelope = decode(
        r#"{
            "src": "n1",
            "dest": "c1",
            "body": {
                "type": "init_ok",
                "in_reply_to": 1
            }
        }"#,
    );

    assert!(envelope.is_ok());
}

#[test]
fn test_deserialize_echo_request() {
    let envelope = decode(
        r#"{
            "src": "c1",
            "dest": "n1",
            "body": {
                "type": "echo",
                "msg_id": 1,
                "echo": "Please echo 35"
            }
        }"#,
    );

    assert!(envelope.is_ok());
}

#[test]
fn test_deserialize_echo_response() {
    let envelope = decode(
        r#"{
            "src": "n1",
            "dest": "c1",
            "body": {
                "type": "echo_ok",
                "msg_id": 1,
                "in_reply_to": 1,
                "echo": "Please echo 35"
            }
        }"#,
    );

    assert!(envelope.is_ok());
}

#[test]
fn decode_init_request_fields() {
    let e = decode(
        "{\"src\":\"c1\",\"dest\":\"n1\",\"body\":{\"type\":\"init\",\"msg_id\":1,\"node_id\":\"n1\",\"node_ids\":[\"n1\",\"n2\"]}}",
    )
    .unwrap();
    assert_eq!(e.src, EntityId::Client(1));
    assert_eq!(e.dest, EntityId::Node(1));
    assert_eq!(e.body.msg_id, Some(1));
    assert_eq!(e.body.in_reply_to, None);
    match &e.body.payload {
        MsgPayload::Init { node_id, node_ids } => {
            assert_eq!(*node_id, EntityId::Node(1));
            assert_eq!(node_ids.len(), 2);
            assert_eq!(node_ids[0], EntityId::Node(1));
            assert_eq!(node_ids[1], EntityId::Node(2));
        }
        _ => panic!("expected an init payload"),
    }
}

#[test]
fn decode_generate_ok_fields() {
    let e = decode(
        "{\"src\":\"n1\",\"dest\":\"c1\",\"body\":{\"type\":\"generate_ok\",\"msg_id\":2,\"in_reply_to\":3,\"id\":18446744073709551615}}",
    )
    .unwrap();
    match &e.body.payload {
        MsgPayload::GenerateOk { id } => assert_eq!(*id, u64::MAX),
        _ => panic!("expected a generate_ok payload"),
    }
}

#[test]
fn encode_decode_round_trip_preserves_fields() {
    let env = MsgEnvelope {
        src: EntityId::Node(3),
        dest: EntityId::Client(9),
        body: MsgBody {
            msg_id: Some(7),
            in_reply_to: Some(6),
            payload: MsgPayload::EchoOk {
                echo: String::from("quote \" slash \\ newline \n tab \t done"),
            },
        },
    };
    let text = encode(&env);
    let back = decode(&text).unwrap();
    assert_eq!(back, env);
}

#[test]
fn encode_decode_round_trip_init() {
    let env = MsgEnvelope {
        src: EntityId::Client(1),
        dest: EntityId::Node(0),
        body: MsgBody {
            msg_id: Some(1),
            in_reply_to: None,
            payload: MsgPayload::Init {
                node_id: EntityId::Node(0),
                node_ids: vec![EntityId::Node(0), EntityId::Node(1), EntityId::Node(2)],
            },
        },
    };
    let text = encode(&env);
    assert_eq!(
        text,
        "{\"src\":\"c1\",\"dest\":\"n0\",\"body\":{\"type\":\"init\",\"msg_id\":1,\"node_id\":\"n0\",\"node_ids\":[\"n0\",\"n1\",\"n2\"]}}"
    );
    let back = decode(&text).unwrap();
    assert_eq!(back, env);
}

#[test]
fn decode_rejects_malformed_lines() {
    assert!(decode("").is_err());
    assert!(decode("{").is_err());
    assert!(decode("{}").is_err());
    assert!(decode("not json at all").is_err());
    // unknown tag
    assert!(decode("{\"src\":\"c1\",\"dest\":\"n1\",\"body\":{\"type\":\"mystery\"}}").is_err());
    // bad identifier in src
    assert!(decode("{\"src\":\"z1\",\"dest\":\"n1\",\"body\":{\"type\":\"generate\"}}").is_err());
    // missing required field for the tag
    assert!(decode("{\"src\":\"c1\",\"dest\":\"n1\",\"body\":{\"type\":\"echo\",\"msg_id\":1}}").is_err());
    // trailing garbage after the envelope
    assert!(decode("{\"src\":\"c1\",\"dest\":\"n1\",\"body\":{\"type\":\"generate\"}}x").is_err());
    // number too large for a sequence field
    assert!(decode(
        "{\"src\":\"c1\",\"dest\":\"n1\",\"body\":{\"type\":\"generate_ok\",\"id\":99999999999999999999999999}}"
    )
    .is_err());
}

#[test]
fn decode_allows_absent_correlation_fields() {
    let e = decode("{\"src\":\"n1\",\"dest\":\"c1\",\"body\":{\"type\":\"generate\"}}").unwrap();
    assert_eq!(e.body.msg_id, None);
    assert_eq!(e.body.in_reply_to, None);
    assert!(matches!(e.body.payload, MsgPayload::Generate));
}
