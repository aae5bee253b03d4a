use hermes::commands::{
    ci_summary, dev_log_label, downloads_message, github_error_message, github_mode,
    no_releases_message, normalized_tool_name, project_card, projects_directory, release_notes,
    release_title, status_line, status_report, symptom_summary, tools_intro, triage_card,
    troubleshooting_guidance, unknown_project_message, unknown_tool_message, uptime_parts,
    uptime_text,
};
use hermes::github::{Asset, Release};

fn release(tag: &str) -> Release {
    Release {
        tag_name: tag.to_string(),
        html_url: format!("https://github.com/x/releases/{tag}"),
        body: None,
        assets: vec![
            Asset { name: "a.zip".to_string(), download_count: 7 },
            Asset { name: "a.zip.sha256".to_string(), download_count: 3 },
        ],
    }
}

#[test]
fn status_lines() {
    assert_eq!(status_line("darkstardevx/echo", Some(true)), "\u{2705} `darkstardevx/echo`");
    assert_eq!(status_line("darkstardevx/echo", Some(false)), "\u{274c} `darkstardevx/echo`");
    assert_eq!(status_line("darkstardevx/echo", None), "\u{2753} `darkstardevx/echo`");
    let report = status_report(&vec![
        ("a/b".to_string(), Some(true)),
        ("c/d".to_string(), None),
    ]);
    assert_eq!(report, "\u{2705} `a/b`\n\u{2753} `c/d`");
}

#[test]
fn uptime() {
    assert_eq!(uptime_parts(3723), (1, 2, 3));
    assert_eq!(uptime_text(3723), "1h 2m 3s");
    assert_eq!(uptime_text(0), "0h 0m 0s");
    assert_eq!(uptime_text(90061), "25h 1m 1s");
    assert_eq!(github_mode(true), "authenticated GitHub API");
    assert_eq!(github_mode(false), "unauthenticated public GitHub API");
    assert_eq!(dev_log_label(false), "disabled");
}

#[test]
fn release_replies() {
    assert!(unknown_tool_message("nope").starts_with("Unknown tool `nope`. Try one of: echo, cybermeta,"));
    assert_eq!(release_title("darkstardevx/echo", "v1.2.0"), "darkstardevx/echo v1.2.0");
    assert_eq!(release_notes(&None), "_(no release notes)_");
    assert_eq!(release_notes(&Some("notes".to_string())), "notes");
    assert_eq!(no_releases_message("a/b"), "`a/b` has no releases yet.");
    assert_eq!(github_error_message("a/b", "timeout"), "Couldn't reach GitHub for `a/b`: timeout");
    assert_eq!(
        downloads_message("a/b", &release("v2")),
        Some("`a/b` v2: **7** downloads".to_string())
    );
}

#[test]
fn project_cards() {
    assert_eq!(normalized_tool_name("  GateFlow "), "gateflow");
    assert!(unknown_project_message("Nope").starts_with("Unknown project Nope. Try one of: echo,"));
    assert_eq!(ci_summary(Some(true)), "\u{2705} Passing");
    assert_eq!(ci_summary(None), "\u{2754} Unavailable");
    let r = release("v0.3.0");
    let card = project_card("gateflow", "darkstardevx/gateflow", Some(&r), Some(false));
    assert_eq!(card.title, "\u{1f6f0}\u{fe0f} gateflow");
    assert_eq!(card.url, "https://github.com/darkstardevx/gateflow");
    assert_eq!(card.description, "Kernel-sandbox testing with namespaces, chaos, and veth.");
    assert_eq!(card.latest_release, "[v0.3.0](https://github.com/x/releases/v0.3.0)");
    assert_eq!(card.ci_signal, "\u{274c} Not passing");
    assert_eq!(
        card.links,
        "[GitHub](https://github.com/darkstardevx/gateflow)\n[Project page](https://darkstardevx.github.io/gateflow/)"
    );
    let bare = project_card("echo", "darkstardevx/echo", None, None);
    assert_eq!(bare.latest_release, "No published release");
    assert_eq!(
        bare.links,
        "[GitHub](https://github.com/darkstardevx/echo)\nNo project page published yet"
    );
}

#[test]
fn directory() {
    let text = projects_directory();
    assert!(text.starts_with(
        "\u{2022} **echo** \u{2014} Traffic inspector TUI for WraithFlow captures.\n  https://github.com/darkstardevx/echo\n\u{2022} **cybermeta**"
    ));
    assert!(text.ends_with("https://github.com/darkstardevx/agentforge"));
    assert_eq!(text.lines().count(), 36);
}

#[test]
fn troubleshooting() {
    assert_eq!(troubleshooting_guidance("keysmith").0, "Crypto & secrets");
    assert_eq!(troubleshooting_guidance("gateflow").0, "Network & sandboxing");
    assert_eq!(troubleshooting_guidance("apexdaemon").0, "System & terminal");
    assert_eq!(troubleshooting_guidance("agentforge").0, "AI-assisted workflows");
    assert_eq!(troubleshooting_guidance("diagprint").0, "Cybercore tool");
    assert_eq!(symptom_summary("   "), "No symptom summary was provided.");
    assert_eq!(symptom_summary("  it crashed  "), "it crashed");
    let long: String = "é".repeat(200);
    assert_eq!(symptom_summary(&long).chars().count(), 180);
    let card = triage_card("echo", "darkstardevx/echo", " boom ");
    assert_eq!(card.title, "\u{1f9ed} Troubleshooting: echo");
    assert!(card.description.ends_with("**Symptom noted:** boom"));
    assert!(card.first_checks.starts_with("\u{2022} Record the interface/topology"));
    assert!(card.first_checks.ends_with("`/releases echo`."));
    assert_eq!(card.area, "Network & sandboxing");
    assert_eq!(
        card.next_step,
        "Open an issue at https://github.com/darkstardevx/echo/issues after redacting sensitive data."
    );
    assert!(tools_intro().starts_with("**:tools: Dev & Core**"));
}
