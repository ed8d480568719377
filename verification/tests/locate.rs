use sag::locate::{
    register_url, status_url,
    elect, first_route, remote_outranks_self, resolve_peers, retry_registration, Candidate, FirstRoute, Heartbeat,
    NodeRole,
};
use sag::proto::{StatusResponse, PROTOCOL_VERSION};

fn candidate(url: &str, start_epoch: u64, latency_ms: u64) -> Candidate {
    Candidate {
        url: url.into(),
        status: StatusResponse {
            protocol_version: PROTOCOL_VERSION,
            start_epoch,
        },
        latency_ms,
    }
}

#[test]
fn elect_none_when_empty() {
    assert!(elect(vec![]).is_none());
}

#[test]
fn elect_prefers_earliest_start() {
    let winner = elect(vec![candidate("http://b", 200, 1), candidate("http://a", 100, 500)]).unwrap();
    assert_eq!(winner.url, "http://a");
}

#[test]
fn elect_breaks_start_ties_by_latency_then_url() {
    let winner = elect(vec![
        candidate("http://z", 100, 5),
        candidate("http://a", 100, 5),
        candidate("http://m", 100, 50),
    ])
    .unwrap();
    assert_eq!(winner.url, "http://a");
}

#[test]
fn step_down_only_for_strictly_better_controller() {
    assert!(remote_outranks_self(&candidate("http://a", 100, 9), 200, "http://me"));
    assert!(!remote_outranks_self(&candidate("http://a", 300, 0), 200, "http://me"));
    assert!(remote_outranks_self(&candidate("http://a", 200, 5), 200, "http://b"));
    assert!(!remote_outranks_self(&candidate("http://b", 200, 5), 200, "http://a"));
}

#[test]
fn election_does_not_depend_on_answer_order() {
    let all = vec![
        candidate("http://c", 100, 7),
        candidate("http://b", 100, 7),
        candidate("http://d", 90, 700),
        candidate("http://a", 100, 3),
    ];
    let mut reversed = all.clone();
    reversed.reverse();
    assert_eq!(elect(all).unwrap().url, "http://d");
    assert_eq!(elect(reversed).unwrap().url, "http://d");
}

#[test]
fn peers_fall_back_to_the_single_controller() {
    assert_eq!(resolve_peers(&vec![], &"http://c:7000/".to_string()), ["http://c:7000"]);
    assert_eq!(
        resolve_peers(&vec!["http://a/".to_string(), "http://b".to_string()], &"http://c".to_string()),
        ["http://a", "http://b"]
    );
}

#[test]
fn node_follows_promotes_and_steps_down() {
    let peers = vec!["http://p1".to_string()];
    let leader = candidate("http://lead", 50, 1);
    assert_eq!(first_route(Some(&leader), true, &peers), FirstRoute::Follow("http://lead".into()));
    assert_eq!(first_route(None, true, &peers), FirstRoute::Promote);
    assert_eq!(first_route(None, false, &peers), FirstRoute::Fallback("http://p1".into()));

    let mut role = NodeRole::following("http://lead".into());
    assert_eq!(role.on_heartbeat(Some(&leader), true, "http://me"), Heartbeat::Keep);
    let moved = candidate("http://new", 40, 1);
    assert_eq!(role.on_heartbeat(Some(&moved), true, "http://me"), Heartbeat::Follow);
    assert_eq!(role.controller_url, "http://new");
    assert_eq!(role.on_heartbeat(None, false, "http://me"), Heartbeat::Keep);
    assert_eq!(role.on_heartbeat(None, true, "http://me"), Heartbeat::Promote);

    role.promoted_to("http://me".into(), 200);
    assert_eq!(role.on_heartbeat(None, true, "http://me"), Heartbeat::Keep);
    let younger = candidate("http://young", 300, 0);
    assert_eq!(role.on_heartbeat(Some(&younger), true, "http://me"), Heartbeat::Keep);
    assert!(role.promoted);
    let older = candidate("http://old", 100, 9);
    assert_eq!(role.on_heartbeat(Some(&older), true, "http://me"), Heartbeat::StepDown);
    assert!(!role.promoted);
    assert_eq!(role.controller_url, "http://old");

    assert!(retry_registration(4));
    assert!(!retry_registration(5));
}

#[test]
fn controller_urls_append_their_paths() {
    assert_eq!(status_url("http://a:7000"), "http://a:7000/status");
    assert_eq!(register_url("http://a:7000"), "http://a:7000/register");
}
