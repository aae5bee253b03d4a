use hermes::github::{
    authorization_header, ci_runs_api_url, download_count, latest_run_passed, release_answer,
    release_api_url, repo_api_url, status_is_error, Asset, ReleaseAnswer,
};

#[test]
fn api_addresses() {
    assert_eq!(
        release_api_url("darkstardevx/echo"),
        "https://api.github.com/repos/darkstardevx/echo/releases/latest"
    );
    assert_eq!(repo_api_url("darkstardevx/echo"), "https://api.github.com/repos/darkstardevx/echo");
    assert_eq!(
        ci_runs_api_url("darkstardevx/echo", "main"),
        "https://api.github.com/repos/darkstardevx/echo/actions/runs?branch=main&status=completed&per_page=1"
    );
    assert_eq!(
        ci_runs_api_url("darkstardevx/echo", "release/v1.2 & co#x"),
        "https://api.github.com/repos/darkstardevx/echo/actions/runs?branch=release/v1.2%20%26%20co%23x&status=completed&per_page=1"
    );
    assert_eq!(authorization_header("SECRET-REDACTED"), "Bearer SECRET-REDACTED");
}

#[test]
fn release_answers() {
    assert_eq!(release_answer(404), ReleaseAnswer::NoRelease);
    assert_eq!(release_answer(403), ReleaseAnswer::Failed);
    assert_eq!(release_answer(502), ReleaseAnswer::Failed);
    assert_eq!(release_answer(200), ReleaseAnswer::Release);
    assert_eq!(release_answer(304), ReleaseAnswer::Release);
    assert!(status_is_error(400));
    assert!(!status_is_error(399));
    assert!(!status_is_error(600));
}

#[test]
fn ci_passes_only_on_a_successful_latest_run() {
    assert!(latest_run_passed(&vec![Some("success".to_string()), Some("failure".to_string())]));
    assert!(!latest_run_passed(&vec![Some("failure".to_string()), Some("success".to_string())]));
    assert!(!latest_run_passed(&vec![None]));
    assert!(!latest_run_passed(&vec![]));
}

fn asset(name: &str, n: u64) -> Asset {
    Asset { name: name.to_string(), download_count: n }
}

#[test]
fn downloads_leave_out_checksums() {
    let assets = vec![asset("tool.tar.gz", 10), asset("tool.tar.gz.sha256", 99), asset("tool.zip", 5)];
    assert_eq!(download_count(&assets), Some(15));
    assert_eq!(download_count(&vec![]), Some(0));
    let huge = vec![asset("a", u64::MAX), asset("b", 1)];
    assert_eq!(download_count(&huge), None);
    let huge_checksum = vec![asset("a", u64::MAX), asset("b.sha256", 1)];
    assert_eq!(download_count(&huge_checksum), Some(u64::MAX));
}
