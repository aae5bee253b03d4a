use hermes::repos::{all, all_named, description, featured, lookup, names_list, resolve, site};

#[test]
fn resolve_ignores_case_and_surrounding_whitespace() {
    assert_eq!(resolve("gateflow"), Some("darkstardevx/gateflow"));
    assert_eq!(resolve("  GateFlow \n"), Some("darkstardevx/gateflow"));
    assert_eq!(resolve("CYBERPLUG-BAR-WIDGET"), Some("darkstardevx/cyberplug-bar-widget"));
    assert_eq!(resolve("unknown-tool"), None);
    assert_eq!(resolve(""), None);
    // U+212A KELVIN SIGN lower-cases to an ASCII 'k'.
    assert_eq!(resolve("\u{212A}eysmith"), Some("darkstardevx/keysmith"));
}

#[test]
fn lookup_takes_the_name_as_given() {
    assert_eq!(lookup("echo"), Some("darkstardevx/echo"));
    assert_eq!(lookup("Echo"), None);
    assert_eq!(lookup(" echo"), None);
}

#[test]
fn every_registry_name_is_found() {
    for (name, repo) in all_named() {
        assert_eq!(lookup(name), Some(repo));
        assert_eq!(resolve(name), Some(repo));
    }
}

#[test]
fn registry_lists_in_order() {
    let repos = all();
    assert_eq!(repos.len(), 18);
    assert_eq!(repos[0], "darkstardevx/echo");
    assert_eq!(repos[17], "darkstardevx/agentforge");
    assert_eq!(
        names_list(),
        "echo, cybermeta, cybervault, keysmith, cyberterm, sentrygrid, wraithflow, vortexwall, aetherscope, ghostport, apexdaemon, cybercore, cyberdeck, cyberplug, cyberplug-bar-widget, diagprint, gateflow, agentforge"
    );
}

#[test]
fn descriptions_and_sites() {
    assert_eq!(description("echo"), "Traffic inspector TUI for WraithFlow captures.");
    assert_eq!(description("not-a-tool"), "Cybercore project.");
    assert_eq!(site("gateflow"), Some("https://darkstardevx.github.io/gateflow/"));
    assert_eq!(site("echo"), None);
    let tools = featured();
    assert_eq!(tools.len(), 5);
    assert_eq!(tools[0].0, "cybercore");
    assert_eq!(tools[4].2, "https://darkstardevx.github.io/cybermeta/");
}

#[test]
fn featured_tools_are_the_five_cards() {
    let names: Vec<&str> = featured().iter().map(|t| t.0).collect();
    assert_eq!(names, vec!["cybercore", "cyberdeck", "diagprint", "gateflow", "cybermeta"]);
}
