use sag::proto::RepoRef;
use sag::retrieval::{ExploreError, FakeExplorer};

#[test]
fn fake_explorer_cites_for_a_valid_repo() {
    let repo = RepoRef {
        path: "/home/op/proj".into(),
    };
    let cites = FakeExplorer.explore(&repo, "cache expiry").unwrap();
    assert_eq!(cites.len(), 1);
    assert_eq!(cites[0].path, "src/lib.rs");
    assert!(cites[0].reason.contains("cache expiry"));
}

#[test]
fn empty_repo_path_is_not_found() {
    let repo = RepoRef { path: "".into() };
    assert!(matches!(FakeExplorer.explore(&repo, "anything"), Err(ExploreError::RepoNotFound(_))));
}

#[test]
fn citation_is_exact() {
    let repo = RepoRef { path: "p".into() };
    let cites = FakeExplorer.explore(&repo, "q").unwrap();
    assert_eq!(cites[0].lines, (1, 1));
    assert_eq!(cites[0].reason, "entrypoint relevant to: q");
    let err = FakeExplorer.explore(&RepoRef { path: "  ".into() }, "q").unwrap_err();
    assert_eq!(err.message(), "repo not found:   ");
}
