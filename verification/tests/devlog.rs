use hermes::devlog::{
    commit_state, finish_round, needs_release_check, observe_repo, DevLogRepoState, DevLogState, RoundEnd,
};
use hermes::github::{Release, RepoActivity};

fn activity(pushed: Option<&str>) -> RepoActivity {
    RepoActivity {
        html_url: "https://github.com/darkstardevx/echo".to_string(),
        pushed_at: pushed.map(|p| p.to_string()),
    }
}

fn release(tag: &str) -> Release {
    Release {
        tag_name: tag.to_string(),
        html_url: format!("https://github.com/darkstardevx/echo/releases/tag/{tag}"),
        body: None,
        assets: vec![],
    }
}

fn remembered(pushed: &str, tag: &str) -> DevLogState {
    let mut state = DevLogState::new();
    state.insert(
        "darkstardevx/echo".to_string(),
        DevLogRepoState { pushed_at: Some(pushed.to_string()), release_tag: Some(tag.to_string()) },
    );
    state
}

#[test]
fn first_round_seeds_without_posting() {
    let state = DevLogState::new();
    assert!(state.is_empty());
    let mut next = state.duplicate();
    assert!(needs_release_check(&state, "darkstardevx/echo", true, &activity(Some("t1"))));
    let r = release("v1");
    let line = observe_repo(&state, &mut next, "darkstardevx/echo", true, &activity(Some("t1")), Some(&r));
    assert!(line.is_none());
    let entry = next.get("darkstardevx/echo").unwrap();
    assert_eq!(entry.pushed_at.as_deref(), Some("t1"));
    assert_eq!(entry.release_tag.as_deref(), Some("v1"));
    assert!(matches!(finish_round(true, &vec!["x".to_string()]), RoundEnd::Seed));
}

#[test]
fn unchanged_repository_is_quiet() {
    let state = remembered("t1", "v1");
    let mut next = state.duplicate();
    assert!(!needs_release_check(&state, "darkstardevx/echo", false, &activity(Some("t1"))));
    let line = observe_repo(&state, &mut next, "darkstardevx/echo", false, &activity(Some("t1")), None);
    assert!(line.is_none());
    assert_eq!(next.get("darkstardevx/echo").unwrap().release_tag.as_deref(), Some("v1"));
    assert!(matches!(finish_round(false, &vec![]), RoundEnd::Quiet));
}

#[test]
fn push_with_new_release_is_reported() {
    let state = remembered("t1", "v1");
    let mut next = state.duplicate();
    assert!(needs_release_check(&state, "darkstardevx/echo", false, &activity(Some("t2"))));
    let r = release("v2");
    let line = observe_repo(&state, &mut next, "darkstardevx/echo", false, &activity(Some("t2")), Some(&r));
    assert_eq!(
        line.as_deref(),
        Some("\u{2022} **darkstardevx/echo** \u{2014} https://github.com/darkstardevx/echo \u{b7} release v2: https://github.com/darkstardevx/echo/releases/tag/v2")
    );
    let same = release("v1");
    let mut next2 = state.duplicate();
    let line2 = observe_repo(&state, &mut next2, "darkstardevx/echo", false, &activity(Some("t2")), Some(&same));
    assert_eq!(
        line2.as_deref(),
        Some("\u{2022} **darkstardevx/echo** \u{2014} https://github.com/darkstardevx/echo")
    );
}

#[test]
fn digest_lists_ten_changes_and_counts_the_rest() {
    let changes: Vec<String> = (1..=12).map(|i| format!("c{i}")).collect();
    match finish_round(false, &changes) {
        RoundEnd::Post(content) => {
            let expected = format!(
                "\u{1f6f0}\u{fe0f} **Cybercore project log**\n{}\n\u{2026}and 2 more update(s).",
                (1..=10).map(|i| format!("c{i}")).collect::<Vec<_>>().join("\n")
            );
            assert_eq!(content, expected);
        }
        _ => panic!("expected a digest"),
    }
    match finish_round(false, &vec!["one".to_string()]) {
        RoundEnd::Post(content) => assert_eq!(content, "\u{1f6f0}\u{fe0f} **Cybercore project log**\none"),
        _ => panic!("expected a digest"),
    }
}

#[test]
fn saved_entries_round_trip() {
    let state = remembered("t1", "v1");
    let copy = DevLogState::from_entries(state.entries());
    assert_eq!(copy.get("darkstardevx/echo").unwrap().pushed_at.as_deref(), Some("t1"));
    assert!(copy.get("darkstardevx/other").is_none());
}

#[test]
fn polling_interval_defaults_to_an_hour_and_stays_above_five_minutes() {
    assert_eq!(hermes::devlog::poll_interval(None), 3600);
    assert_eq!(hermes::devlog::poll_interval(Some(60)), 300);
    assert_eq!(hermes::devlog::poll_interval(Some(900)), 900);
}

#[test]
fn observations_are_kept_unless_a_digest_failed_to_post() {
    assert!(commit_state(&RoundEnd::Seed, false));
    assert!(commit_state(&RoundEnd::Quiet, false));
    assert!(commit_state(&RoundEnd::Post("digest".to_string()), true));
    assert!(!commit_state(&RoundEnd::Post("digest".to_string()), false));
}

#[test]
fn repository_without_saved_entry_is_recorded_silently() {
    let state = remembered("t1", "v1");
    let mut next = state.duplicate();
    assert!(needs_release_check(&state, "darkstardevx/gateflow", false, &activity(Some("t9"))));
    let r = release("v3");
    let line = observe_repo(&state, &mut next, "darkstardevx/gateflow", false, &activity(Some("t9")), Some(&r));
    assert!(line.is_none());
    let entry = next.get("darkstardevx/gateflow").unwrap();
    assert_eq!(entry.pushed_at.as_deref(), Some("t9"));
    assert_eq!(entry.release_tag.as_deref(), Some("v3"));
}
