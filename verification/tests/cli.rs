use sag::cli::{controller_path, controller_error, format_nodes, render_status, CliError, Command, FakeCli};
use sag::proto::{ModelDescriptor, NodeDescriptor, StatusResponse, PROTOCOL_VERSION};

#[test]
fn dispatches_run_fix_and_doctor() {
    assert_eq!(
        FakeCli
            .dispatch(Command::RunFix {
                request: "fix cache expiry".into()
            })
            .unwrap(),
        "submitted fix: fix cache expiry"
    );
    assert_eq!(FakeCli.dispatch(Command::Doctor).unwrap(), "all systems nominal");
}

#[test]
fn empty_run_fix_request_is_an_error() {
    assert!(matches!(
        FakeCli.dispatch(Command::RunFix { request: "".into() }),
        Err(CliError::EmptyRequest)
    ));
}

#[test]
fn format_nodes_renders_table_and_empty() {
    assert_eq!(format_nodes(&[]), "no nodes registered");

    let nodes = vec![NodeDescriptor {
        node_id: "gmkmini".into(),
        addr: "http://gmkmini:8080".into(),
        models: vec![
            ModelDescriptor {
                id: "qwen3-coder:30b".into(),
                capabilities: vec![],
            },
            ModelDescriptor {
                id: "gpt-oss:20b".into(),
                capabilities: vec![],
            },
        ],
        capabilities: vec![],
    }];
    let table = format_nodes(&nodes);
    assert!(table.contains("gmkmini"));
    assert!(table.contains("http://gmkmini:8080"));
    assert!(table.contains("qwen3-coder:30b, gpt-oss:20b"));
}

#[test]
fn format_nodes_aligns_columns_exactly() {
    let nodes = vec![
        NodeDescriptor {
            node_id: "a".into(),
            addr: "http://a:1".into(),
            models: vec![],
            capabilities: vec![],
        },
        NodeDescriptor {
            node_id: "b".into(),
            addr: "http://b:2".into(),
            models: vec![ModelDescriptor { id: "m".into(), capabilities: vec![] }],
            capabilities: vec![],
        },
    ];
    let expected = format!(
        "{:<16} {:<30} {}\n{:<16} {:<30} {}\n{:<16} {:<30} {}",
        "NODE", "ADDR", "MODELS", "a", "http://a:1", "-", "b", "http://b:2", "m"
    );
    assert_eq!(format_nodes(&nodes), expected);
}

#[test]
fn blank_whitespace_request_is_an_error() {
    assert!(matches!(
        FakeCli.dispatch(Command::RunFix { request: " \t\n".into() }),
        Err(CliError::EmptyRequest)
    ));
    assert_eq!(FakeCli.dispatch(Command::Nodes).unwrap(), "no nodes registered");
}

#[test]
fn controller_paths_and_replies() {
    assert_eq!(controller_path(&Command::Nodes).unwrap(), "/nodes");
    assert_eq!(controller_path(&Command::Doctor).unwrap(), "/status");
    match controller_path(&Command::RunFix { request: "x".into() }) {
        Err(e @ CliError::NotWired(_)) => assert_eq!(
            e.message(),
            "`run fix` is not wired to the controller yet (later milestone)"
        ),
        other => panic!("unexpected {:?}", other),
    }
    let status = StatusResponse { protocol_version: PROTOCOL_VERSION, start_epoch: 1_700_000_000 };
    assert_eq!(
        render_status("http://c:7000", &status),
        "controller reachable at http://c:7000 — protocol v1, up since epoch 1700000000"
    );
    let e = controller_error("http://c:7000/nodes", "connection refused");
    assert_eq!(e.message(), "controller error: http://c:7000/nodes: connection refused");
    assert_eq!(CliError::EmptyRequest.message(), "empty request");
}
