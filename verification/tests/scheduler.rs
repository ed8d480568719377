use sag::proto::NodeSnapshot;
use sag::scheduler::{FakeScheduler, ScheduleError, ScheduleRequest, Scheduler};

fn node(id: &str, vram: u32, warm: &[&str]) -> NodeSnapshot {
    NodeSnapshot {
        id: id.into(),
        vram_gb: vram,
        queue_depth: 0,
        warm_models: warm.iter().map(|s| s.to_string()).collect(),
    }
}

#[test]
fn rejects_nodes_below_the_vram_floor_and_picks_the_first_that_fits() {
    let nodes = vec![node("hptowerz", 20, &[]), node("gmkmini", 108, &[])];
    let req = ScheduleRequest {
        required_model: None,
        min_vram_gb: 32,
    };
    assert_eq!(FakeScheduler.select(&nodes, &req).unwrap(), "gmkmini");
}

#[test]
fn no_eligible_node_is_an_error() {
    let nodes = vec![node("hptowerz", 20, &[])];
    let req = ScheduleRequest {
        required_model: Some("qwen3-coder:30b".into()),
        min_vram_gb: 0,
    };
    assert!(matches!(FakeScheduler.select(&nodes, &req), Err(ScheduleError::NoEligibleNode)));
}

#[test]
fn warm_model_is_required_when_named() {
    let nodes = vec![node("a", 200, &["other"]), node("b", 16, &["qwen3-coder:30b"]), node("c", 16, &["qwen3-coder:30b"])];
    let req = ScheduleRequest { required_model: Some("qwen3-coder:30b".into()), min_vram_gb: 16 };
    assert_eq!(FakeScheduler.select(&nodes, &req).unwrap(), "b");
    assert!(FakeScheduler::eligible(&nodes[2], &req));
    assert!(!FakeScheduler::eligible(&nodes[0], &req));
    assert_eq!(ScheduleError::NoEligibleNode.message(), "no eligible node for request");
    assert!(matches!(FakeScheduler.select(&[], &ScheduleRequest::default()), Err(ScheduleError::NoEligibleNode)));
}
