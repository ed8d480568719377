use sag::controller::{
    aggregate_replies, epoch_seconds, error_replies, hello_url, list_nodes, nodes_reply, now_epoch, protocol_drift, register,
    registration_accepted, sort_replies, status, ControlError, FakeController,
};
use sag::proto::{ModelDescriptor, NodeDescriptor, NodeHello, RegisterRequest, Task, PROTOCOL_VERSION};
use sag::registry::MemoryRegistry;

fn register_req(node_id: &str) -> RegisterRequest {
    RegisterRequest {
        protocol_version: PROTOCOL_VERSION,
        node: NodeDescriptor {
            node_id: node_id.into(),
            addr: format!("http://{node_id}:8080"),
            models: vec![],
            capabilities: vec![],
        },
    }
}

#[test]
fn register_then_list_round_trips_through_handlers() {
    let mut registry = MemoryRegistry::new();
    let resp = register(&mut registry, register_req("gmkmini")).expect("register ok");
    assert!(resp.accepted);

    let listed = list_nodes(&registry).expect("list ok");
    assert_eq!(listed.nodes.len(), 1);
    assert_eq!(listed.nodes[0].node_id, "gmkmini");
    assert_eq!(listed.protocol_version, PROTOCOL_VERSION);
}

#[test]
fn status_reports_start_epoch() {
    let resp = status(1_700_000_000);
    assert_eq!(resp.start_epoch, 1_700_000_000);
    assert_eq!(resp.protocol_version, PROTOCOL_VERSION);
}

#[test]
fn register_accepts_across_protocol_drift() {
    let mut registry = MemoryRegistry::new();
    let mut req = register_req("hptowerz");
    req.protocol_version = PROTOCOL_VERSION + 1;
    assert!(protocol_drift(&req));
    let resp = register(&mut registry, req).expect("drift still accepted");
    assert!(resp.accepted);
    assert_eq!(list_nodes(&registry).unwrap().nodes.len(), 1);
}

#[test]
fn submit_returns_a_run_id_for_a_valid_task() {
    let task = Task {
        id: "t1".into(),
        request: "Fix intermittent cache expiry test".into(),
    };
    assert_eq!(FakeController.submit(task).unwrap(), "run-t1");
}

#[test]
fn empty_request_is_rejected() {
    let task = Task {
        id: "t2".into(),
        request: "   ".into(),
    };
    assert!(matches!(FakeController.submit(task), Err(ControlError::Rejected(_))));
}

#[test]
fn rejection_message_names_the_reason() {
    let task = Task { id: "t3".into(), request: "".into() };
    let err = FakeController.submit(task).unwrap_err();
    assert_eq!(err.message(), "task rejected: empty request");
}

#[test]
fn failed_node_shows_one_entry_per_model() {
    let node = NodeDescriptor {
        node_id: "n1".into(),
        addr: "http://n1:8080/".into(),
        models: vec![
            ModelDescriptor { id: "qwen".into(), capabilities: vec![] },
            ModelDescriptor { id: "gptoss".into(), capabilities: vec![] },
        ],
        capabilities: vec![],
    };
    let entries = error_replies(&node, "timed out");
    assert_eq!(entries.len(), 2);
    assert_eq!(entries[0].model, "qwen");
    assert_eq!(entries[1].model, "gptoss");
    assert!(entries.iter().all(|e| e.node_id == "n1"
        && e.reply.is_none()
        && e.error.as_deref() == Some("timed out")
        && e.latency_ms == 0));
    assert_eq!(hello_url(&node.addr), "http://n1:8080/hello");

    let bare = NodeDescriptor { models: vec![], ..node };
    let entries = error_replies(&bare, "down");
    assert_eq!(entries.len(), 1);
    assert_eq!(entries[0].model, "?");
}

fn reply(node: &str, model: &str, text: &str) -> NodeHello {
    NodeHello {
        node_id: node.into(),
        model: model.into(),
        reply: Some(text.into()),
        error: None,
        latency_ms: 3,
    }
}

#[test]
fn replies_are_sorted_by_node_then_model() {
    let sorted = sort_replies(vec![
        reply("zeta", "a", "1"),
        reply("alpha", "m", "2"),
        reply("alpha", "b", "3"),
        reply("beta", "a", "4"),
    ]);
    let keys: Vec<(String, String)> = sorted.iter().map(|r| (r.node_id.clone(), r.model.clone())).collect();
    assert_eq!(
        keys,
        vec![
            ("alpha".to_string(), "b".to_string()),
            ("alpha".to_string(), "m".to_string()),
            ("beta".to_string(), "a".to_string()),
            ("zeta".to_string(), "a".to_string()),
        ]
    );
    assert_eq!(sorted[0].reply.as_deref(), Some("3"));
}

#[test]
fn clock_reads_after_the_epoch() {
    assert!(now_epoch() > 1_600_000_000);
}

#[test]
fn aggregate_keeps_arrival_order_within_a_model() {
    let resp = aggregate_replies(vec![
        reply("b", "m", "first"),
        reply("a", "m", "x"),
        reply("b", "m", "second"),
    ]);
    assert_eq!(resp.protocol_version, PROTOCOL_VERSION);
    let texts: Vec<&str> = resp.replies.iter().map(|r| r.reply.as_deref().unwrap()).collect();
    assert_eq!(texts, vec!["x", "first", "second"]);
}

#[test]
fn replies_carry_the_protocol_version() {
    let accepted = registration_accepted();
    assert!(accepted.accepted);
    assert_eq!(accepted.message, None);
    assert_eq!(accepted.protocol_version, PROTOCOL_VERSION);
    let listed = nodes_reply(vec![register_req("n").node]);
    assert_eq!(listed.protocol_version, PROTOCOL_VERSION);
    assert_eq!(listed.nodes[0].node_id, "n");
}

#[test]
fn epoch_seconds_are_the_clock_or_zero_before_the_epoch() {
    assert_eq!(epoch_seconds(Some(1_700_000_000)), 1_700_000_000);
    assert_eq!(epoch_seconds(None), 0);
}
