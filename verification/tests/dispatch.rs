use cluster_node::codec::{decode, encode};
use cluster_node::{EntityId, FatalError, MsgBody, MsgEnvelope, MsgPayload, NodeState};

const NOW: u64 = 1_700_000_000;

fn init_line(node: &str) -> String {
    format!(
        "{{\"src\":\"c1\",\"dest\":\"{}\",\"body\":{{\"type\":\"init\",\"msg_id\":1,\"node_id\":\"{}\",\"node_ids\":[\"{}\"]}}}}",
        node, node, node
    )
}

#[test]
fn scenario_init() {
    let mut node = NodeState::new();
    let req = decode(
        r#"{"src":"c1","dest":"n1","body":{"type":"init","msg_id":1,"node_id":"n1","node_ids":["n1"]}}"#,
    )
    .unwrap();
    let reply = node.handle(&req, NOW).unwrap();
    assert_eq!(
        encode(&reply),
        r#"{"src":"n1","dest":"c1","body":{"type":"init_ok","msg_id":1,"in_reply_to":1}}"#
    );
}

#[test]
fn scenario_echo() {
    let mut node = NodeState::new();
    let init = decode(&init_line("n1")).unwrap();
    node.handle(&init, NOW).unwrap();
    let req = decode(r#"{"src":"c1","dest":"n1","body":{"type":"echo","msg_id":2,"echo":"hello"}}"#)
        .unwrap();
    let reply = node.handle(&req, NOW).unwrap();
    assert_eq!(
        encode(&reply),
        r#"{"src":"n1","dest":"c1","body":{"type":"echo_ok","msg_id":2,"in_reply_to":2,"echo":"hello"}}"#
    );
}

#[test]
fn scenario_generate_after_init() {
    let mut node = NodeState::new();
    let init = decode(&init_line("n1")).unwrap();
    node.handle(&init, NOW).unwrap();
    let req =
        decode(r#"{"src":"c1","dest":"n1","body":{"type":"generate","msg_id":3}}"#).unwrap();
    let reply = node.handle(&req, NOW).unwrap();
    assert_eq!(reply.src, EntityId::Node(1));
    assert_eq!(reply.dest, EntityId::Client(1));
    assert_eq!(reply.body.in_reply_to, Some(3));
    match reply.body.payload {
        MsgPayload::GenerateOk { id } => {
            assert_eq!(id >> 32, NOW & 0xFFFF_FFFF);
        }
        _ => panic!("expected a generate_ok reply"),
    }
}

#[test]
fn scenario_two_generates_differ() {
    let mut node = NodeState::new();
    let init = decode(&init_line("n1")).unwrap();
    node.handle(&init, NOW).unwrap();
    let req =
        decode(r#"{"src":"c1","dest":"n1","body":{"type":"generate","msg_id":3}}"#).unwrap();
    let first = match node.handle(&req, NOW).unwrap().body.payload {
        MsgPayload::GenerateOk { id } => id,
        _ => panic!("expected a generate_ok reply"),
    };
    let second = match node.handle(&req, NOW).unwrap().body.payload {
        MsgPayload::GenerateOk { id } => id,
        _ => panic!("expected a generate_ok reply"),
    };
    assert_ne!(first, second);
}

#[test]
fn generate_before_init_is_fatal() {
    let mut node = NodeState::new();
    let req =
        decode(r#"{"src":"c1","dest":"n1","body":{"type":"generate","msg_id":1}}"#).unwrap();
    assert_eq!(node.handle(&req, NOW), Err(FatalError::GenerateBeforeInit));
}

#[test]
fn reply_only_kinds_are_fatal() {
    let mut node = NodeState::new();
    let init = decode(&init_line("n1")).unwrap();
    node.handle(&init, NOW).unwrap();
    let init_ok =
        decode(r#"{"src":"n2","dest":"n1","body":{"type":"init_ok","in_reply_to":1}}"#).unwrap();
    assert_eq!(node.handle(&init_ok, NOW), Err(FatalError::UnexpectedMessage));
    let echo_ok = decode(
        r#"{"src":"n2","dest":"n1","body":{"type":"echo_ok","msg_id":1,"in_reply_to":1,"echo":"x"}}"#,
    )
    .unwrap();
    assert_eq!(node.handle(&echo_ok, NOW), Err(FatalError::UnexpectedMessage));
}

#[test]
fn same_index_same_clock_same_first_id() {
    let mut a = NodeState::new();
    let mut b = NodeState::new();
    let init = decode(&init_line("n5")).unwrap();
    a.handle(&init, NOW).unwrap();
    b.handle(&init, NOW).unwrap();
    let req =
        decode(r#"{"src":"c1","dest":"n5","body":{"type":"generate","msg_id":2}}"#).unwrap();
    let ia = match a.handle(&req, NOW).unwrap().body.payload {
        MsgPayload::GenerateOk { id } => id,
        _ => panic!("expected a generate_ok reply"),
    };
    let ib = match b.handle(&req, NOW).unwrap().body.payload {
        MsgPayload::GenerateOk { id } => id,
        _ => panic!("expected a generate_ok reply"),
    };
    assert_eq!(ia, ib);
}

#[test]
fn different_index_different_first_id() {
    let mut a = NodeState::new();
    let mut b = NodeState::new();
    a.handle(&decode(&init_line("n1")).unwrap(), NOW).unwrap();
    b.handle(&decode(&init_line("n2")).unwrap(), NOW).unwrap();
    let req =
        decode(r#"{"src":"c1","dest":"n1","body":{"type":"generate","msg_id":2}}"#).unwrap();
    let ia = match a.handle(&req, NOW).unwrap().body.payload {
        MsgPayload::GenerateOk { id } => id,
        _ => panic!("expected a generate_ok reply"),
    };
    let ib = match b.handle(&req, NOW).unwrap().body.payload {
        MsgPayload::GenerateOk { id } => id,
        _ => panic!("expected a generate_ok reply"),
    };
    assert_ne!(ia, ib);
}

#[test]
fn reply_msg_ids_increase_across_payload_kinds() {
    let mut node = NodeState::new();
    let init = decode(&init_line("n1")).unwrap();
    let echo = decode(
        r#"{"src":"c1","dest":"n1","body":{"type":"echo","msg_id":9,"echo":"x"}}"#,
    )
    .unwrap();
    let gen =
        decode(r#"{"src":"c1","dest":"n1","body":{"type":"generate","msg_id":10}}"#).unwrap();
    let requests: Vec<&MsgEnvelope> = vec![&init, &echo, &gen, &echo, &gen];
    let mut last: Option<usize> = None;
    for req in requests {
        let reply = node.handle(req, NOW).unwrap();
        let mid = reply.body.msg_id.unwrap();
        if let Some(prev) = last {
            assert!(mid > prev);
        }
        last = Some(mid);
    }
}

#[test]
fn reply_swaps_roles_and_correlates() {
    let env = MsgEnvelope {
        src: EntityId::Client(4),
        dest: EntityId::Node(2),
        body: MsgBody {
            msg_id: Some(11),
            in_reply_to: None,
            payload: MsgPayload::Echo { echo: String::from("m") },
        },
    };
    let r = env.reply(5, MsgPayload::EchoOk { echo: String::from("m") });
    assert_eq!(r.src, EntityId::Node(2));
    assert_eq!(r.dest, EntityId::Client(4));
    assert_eq!(r.body.msg_id, Some(5));
    assert_eq!(r.body.in_reply_to, Some(11));
    // the receiver is untouched
    assert_eq!(env.body.msg_id, Some(11));
}

#[test]
fn reply_without_msg_id_has_no_back_reference() {
    let env = MsgEnvelope {
        src: EntityId::Client(4),
        dest: EntityId::Node(2),
        body: MsgBody { msg_id: None, in_reply_to: None, payload: MsgPayload::Generate },
    };
    let r = env.reply(1, MsgPayload::GenerateOk { id: 3 });
    assert_eq!(r.body.in_reply_to, None);
}
