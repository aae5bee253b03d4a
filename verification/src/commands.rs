//! The text of the slash-command replies: what each command says, given what
//! was looked up and what GitHub answered.
use vstd::prelude::*;
use crate::github::{Release, download_count, download_total};
use crate::repos::{
    description, description_of, names_list, registry, registry_names, site, find_site,
    featured_tools, all_named, view_pair,
};
use crate::text::{
    ascii_lowercase, trimmed, decimal, join, owned, push_decimal, str_eq, to_ascii_lowercase,
    trim, join_strings, string_views,
};

verus! {

// ---------------------------------------------------------------------------
// /status

/// The mark of a CI outcome: passing, failing, or unknown when the check failed.
pub open spec fn ci_icon(outcome: Option<bool>) -> Seq<char> {
    match outcome {
        Some(true) => "✅"@,
        Some(false) => "❌"@,
        None => "❓"@,
    }
}

pub open spec fn status_line_text(repo: Seq<char>, outcome: Option<bool>) -> Seq<char> {
    ci_icon(outcome) + " `"@ + repo + "`"@
}

/// One line of /status: the mark and the repository.
pub fn status_line(repo: &str, outcome: Option<bool>) -> (r: String)
    ensures
        r@ == status_line_text(repo@, outcome),
{
    let mut r = String::new();
    match outcome {
        Some(true) => r.append("✅"),
        Some(false) => r.append("❌"),
        None => r.append("❓"),
    }
    r.append(" `");
    r.append(repo);
    r.append("`");
    r
}

/// The /status description: one line per repository, in the order given.
pub fn status_report(results: &Vec<(String, Option<bool>)>) -> (r: String)
    ensures
        r@ == join(
            Seq::new(results@.len(), |i: int| status_line_text(results@[i].0@, results@[i].1)),
            "\n"@,
        ),
{
    let ghost lines = Seq::new(results@.len(), |i: int| status_line_text(results@[i].0@, results@[i].1));
    let mut parts: Vec<String> = Vec::new();
    let mut i: usize = 0;
    while i < results.len()
        invariant
            i <= results.len(),
            lines == Seq::new(results@.len(), |i: int| status_line_text(results@[i].0@, results@[i].1)),
            parts@.len() == i,
            forall|k: int| 0 <= k < i ==> (#[trigger] parts@[k])@ == lines[k],
        decreases results.len() - i,
    {
        parts.push(status_line(results[i].0.as_str(), results[i].1));
        i = i + 1;
    }
    assert(string_views(parts@) =~= lines);
    join_strings(&parts, "\n")
}

// ---------------------------------------------------------------------------
// /health

/// Whole hours, the minutes and the seconds past them.
pub fn uptime_parts(secs: u64) -> (r: (u64, u64, u64))
    ensures
        r.0 * 3600 + r.1 * 60 + r.2 == secs,
        r.1 < 60,
        r.2 < 60,
{
    let hours = secs / 3_600;
    let minutes = (secs % 3_600) / 60;
    let seconds = secs % 60;
    assert(hours * 3600 + minutes * 60 + seconds == secs) by (nonlinear_arith)
        requires
            hours == secs / 3600,
            minutes == (secs % 3600) / 60,
            seconds == secs % 60,
    ;
    (hours, minutes, seconds)
}

/// "1h 2m 3s" for an uptime in seconds.
pub fn uptime_text(secs: u64) -> (r: String)
    ensures
        r@ == decimal((secs / 3600) as nat) + "h "@ + decimal(((secs % 3600) / 60) as nat) + "m "@
            + decimal((secs % 60) as nat) + "s"@,
{
    let (h, m, s) = uptime_parts(secs);
    assert(h == secs / 3600 && m == (secs % 3600) / 60 && s == secs % 60) by (nonlinear_arith)
        requires
            h * 3600 + m * 60 + s == secs,
            m < 60,
            s < 60,
    ;
    let mut r = String::new();
    push_decimal(&mut r, h);
    r.append("h ");
    push_decimal(&mut r, m);
    r.append("m ");
    push_decimal(&mut r, s);
    r.append("s");
    r
}

/// How GitHub is reached.
pub fn github_mode(has_token: bool) -> (r: &'static str)
    ensures
        r@ == if has_token {
            "authenticated GitHub API"@
        } else {
            "unauthenticated public GitHub API"@
        },
{
    if has_token {
        "authenticated GitHub API"
    } else {
        "unauthenticated public GitHub API"
    }
}

/// Whether the #dev-log digest runs.
pub fn dev_log_label(enabled: bool) -> (r: &'static str)
    ensures
        r@ == if enabled {
            "enabled"@
        } else {
            "disabled"@
        },
{
    if enabled {
        "enabled"
    } else {
        "disabled"
    }
}

// ---------------------------------------------------------------------------
// /releases and /downloads

/// The reply to a tool name that is not tracked.
pub fn unknown_tool_message(tool: &str) -> (r: String)
    ensures
        r@ == "Unknown tool `"@ + tool@ + "`. Try one of: "@ + join(registry_names(), ", "@),
{
    let names = names_list();
    let mut r = String::new();
    r.append("Unknown tool `");
    r.append(tool);
    r.append("`. Try one of: ");
    r.append(names.as_str());
    r
}

/// The title of a release card.
pub fn release_title(repo: &str, tag: &str) -> (r: String)
    ensures
        r@ == repo@ + " "@ + tag@,
{
    let mut r = owned(repo);
    r.append(" ");
    r.append(tag);
    r
}

/// The release notes, or a placeholder when there are none.
pub fn release_notes(body: &Option<String>) -> (r: String)
    ensures
        r@ == match body {
            Some(b) => b@,
            None => "_(no release notes)_"@,
        },
{
    match body {
        Some(b) => owned(b.as_str()),
        None => owned("_(no release notes)_"),
    }
}

/// The reply for a repository without releases.
pub fn no_releases_message(repo: &str) -> (r: String)
    ensures
        r@ == "`"@ + repo@ + "` has no releases yet."@,
{
    let mut r = owned("`");
    r.append(repo);
    r.append("` has no releases yet.");
    r
}

/// The reply when GitHub could not be asked; `error` is the failure's text.
pub fn github_error_message(repo: &str, error: &str) -> (r: String)
    ensures
        r@ == "Couldn't reach GitHub for `"@ + repo@ + "`: "@ + error@,
{
    let mut r = owned("Couldn't reach GitHub for `");
    r.append(repo);
    r.append("`: ");
    r.append(error);
    r
}

/// The /downloads reply: the downloads of a release's counted assets; `None`
/// when their sum does not fit in a `u64`.
pub fn downloads_message(repo: &str, release: &Release) -> (r: Option<String>)
    ensures
        match r {
            Some(m) => download_total(release.assets@) <= u64::MAX && m@ == "`"@ + repo@ + "` "@
                + release.tag_name@ + ": **"@ + decimal(download_total(release.assets@)) + "** downloads"@,
            None => download_total(release.assets@) > u64::MAX,
        },
{
    let total = match download_count(&release.assets) {
        Some(n) => n,
        None => return None,
    };
    let mut r = owned("`");
    r.append(repo);
    r.append("` ");
    r.append(release.tag_name.as_str());
    r.append(": **");
    push_decimal(&mut r, total);
    r.append("** downloads");
    Some(r)
}

// ---------------------------------------------------------------------------
// /project and /projects

/// A tool name as /project and /troubleshoot compare it: trimmed, ASCII lower case.
pub fn normalized_tool_name(tool: &str) -> (r: String)
    ensures
        r@ == ascii_lowercase(trimmed(tool@)),
{
    to_ascii_lowercase(trim(tool))
}

/// The /project reply to a name that is not tracked.
pub fn unknown_project_message(tool: &str) -> (r: String)
    ensures
        r@ == "Unknown project "@ + tool@ + ". Try one of: "@ + join(registry_names(), ", "@),
{
    let names = names_list();
    let mut r = owned("Unknown project ");
    r.append(tool);
    r.append(". Try one of: ");
    r.append(names.as_str());
    r
}

pub open spec fn ci_summary_text(outcome: Option<bool>) -> Seq<char> {
    match outcome {
        Some(true) => "✅ Passing"@,
        Some(false) => "❌ Not passing"@,
        None => "❔ Unavailable"@,
    }
}

/// The CI field of a project card.
pub fn ci_summary(outcome: Option<bool>) -> (r: &'static str)
    ensures
        r@ == ci_summary_text(outcome),
{
    match outcome {
        Some(true) => "✅ Passing",
        Some(false) => "❌ Not passing",
        None => "❔ Unavailable",
    }
}

pub open spec fn release_summary_text(release: Option<(Seq<char>, Seq<char>)>) -> Seq<char> {
    match release {
        Some((tag, url)) => "["@ + tag + "]("@ + url + ")"@,
        None => "No published release"@,
    }
}

pub open spec fn project_link_text(tool_name: Seq<char>) -> Seq<char> {
    match find_site(featured_tools(), tool_name) {
        Some(url) => "[Project page]("@ + url + ")"@,
        None => "No project page published yet"@,
    }
}

/// A repository's page on GitHub.
pub fn github_url(repo: &str) -> (r: String)
    ensures
        r@ == "https://github.com/"@ + repo@,
{
    let mut r = owned("https://github.com/");
    r.append(repo);
    r
}

/// The fields of a /project card.
pub struct ProjectCard {
    pub title: String,
    pub url: String,
    pub description: String,
    pub latest_release: String,
    pub ci_signal: String,
    pub links: String,
}

/// The /project card of a tracked tool, from its latest release (if one was
/// found) and its CI outcome (`None` when unavailable).
pub fn project_card(tool_name: &str, repo: &str, release: Option<&Release>, ci: Option<bool>) -> (c: ProjectCard)
    ensures
        c.title@ == "🛰️ "@ + tool_name@,
        c.url@ == "https://github.com/"@ + repo@,
        c.description@ == description_of(tool_name@),
        c.latest_release@ == release_summary_text(
            match release {
                Some(r) => Some((r.tag_name@, r.html_url@)),
                None => None,
            },
        ),
        c.ci_signal@ == ci_summary_text(ci),
        c.links@ == "[GitHub](https://github.com/"@ + repo@ + ")\n"@ + project_link_text(tool_name@),
{
    let mut title = owned("🛰️ ");
    title.append(tool_name);
    let latest_release = match release {
        Some(r) => {
            let mut s = owned("[");
            s.append(r.tag_name.as_str());
            s.append("](");
            s.append(r.html_url.as_str());
            s.append(")");
            s
        },
        None => owned("No published release"),
    };
    let mut links = owned("[GitHub](https://github.com/");
    links.append(repo);
    links.append(")\n");
    match site(tool_name) {
        Some(url) => {
            links.append("[Project page](");
            links.append(url);
            links.append(")");
        },
        None => links.append("No project page published yet"),
    }
    ProjectCard {
        title,
        url: github_url(repo),
        description: owned(description(tool_name)),
        latest_release,
        ci_signal: owned(ci_summary(ci)),
        links,
    }
}

pub open spec fn directory_line(entry: (Seq<char>, Seq<char>)) -> Seq<char> {
    "• **"@ + entry.0 + "** — "@ + description_of(entry.0) + "\n  https://github.com/"@ + entry.1
}

/// The /projects directory: every tracked tool with its description and repository.
pub fn projects_directory() -> (r: String)
    ensures
        r@ == join(Seq::new(registry().len(), |i: int| directory_line(registry()[i])), "\n"@),
{
    let named = all_named();
    let ghost lines = Seq::new(registry().len(), |i: int| directory_line(registry()[i]));
    let mut parts: Vec<String> = Vec::new();
    let mut i: usize = 0;
    while i < named.len()
        invariant
            i <= named.len(),
            named@.map_values(|p: (&str, &str)| view_pair(p)) == registry(),
            lines == Seq::new(registry().len(), |i: int| directory_line(registry()[i])),
            parts@.len() == i,
            forall|k: int| 0 <= k < i ==> (#[trigger] parts@[k])@ == lines[k],
        decreases named.len() - i,
    {
        proof {
            assert(view_pair(named@[i as int]) == registry()[i as int]);
        }
        let (name, repo) = named[i];
        let mut line = owned("• **");
        line.append(name);
        line.append("** — ");
        line.append(description(name));
        line.append("\n  https://github.com/");
        line.append(repo);
        parts.push(line);
        i = i + 1;
    }
    assert(string_views(parts@) =~= lines);
    join_strings(&parts, "\n")
}

// ---------------------------------------------------------------------------
// /troubleshoot

/// The area of a tool and the first thing to check when it misbehaves.
pub open spec fn guidance(tool: Seq<char>) -> (Seq<char>, Seq<char>) {
    if tool == "agentforge"@ {
        ("AI-assisted workflows"@, "Run `forge doctor`, verify the project root is clean, and inspect the task contract, capabilities, gates, and audit evidence."@)
    } else if tool == "cybervault"@ || tool == "keysmith"@ {
        ("Crypto & secrets"@, "Reproduce with synthetic test data only and record the algorithm/version; never include a real secret or private key."@)
    } else if tool == "cyberterm"@ || tool == "cyberplug"@ || tool == "cyberplug-bar-widget"@ || tool
        == "apexdaemon"@ {
        ("System & terminal"@, "Record your OS, desktop/session, hardware, and whether the issue survives a clean configuration."@)
    } else if tool == "wraithflow"@ || tool == "echo"@ || tool == "aetherscope"@ || tool == "sentrygrid"@
        || tool == "vortexwall"@ || tool == "ghostport"@ || tool == "gateflow"@ {
        ("Network & sandboxing"@, "Record the interface/topology, kernel, namespace or firewall context, and a sanitized command/output reproduction."@)
    } else {
        ("Cybercore tool"@, "Confirm the installation path, version, platform, and smallest reproducible command before collecting logs."@)
    }
}

/// The area of a tool and the first check to suggest for it.
pub fn troubleshooting_guidance(tool: &str) -> (r: (&'static str, &'static str))
    ensures
        (r.0@, r.1@) == guidance(tool@),
{
    if str_eq(tool, "agentforge") {
        ("AI-assisted workflows", "Run `forge doctor`, verify the project root is clean, and inspect the task contract, capabilities, gates, and audit evidence.")
    } else if str_eq(tool, "cybervault") || str_eq(tool, "keysmith") {
        ("Crypto & secrets", "Reproduce with synthetic test data only and record the algorithm/version; never include a real secret or private key.")
    } else if str_eq(tool, "cyberterm") || str_eq(tool, "cyberplug") || str_eq(tool, "cyberplug-bar-widget")
        || str_eq(tool, "apexdaemon") {
        ("System & terminal", "Record your OS, desktop/session, hardware, and whether the issue survives a clean configuration.")
    } else if str_eq(tool, "wraithflow") || str_eq(tool, "echo") || str_eq(tool, "aetherscope") || str_eq(
        tool,
        "sentrygrid",
    ) || str_eq(tool, "vortexwall") || str_eq(tool, "ghostport") || str_eq(tool, "gateflow") {
        ("Network & sandboxing", "Record the interface/topology, kernel, namespace or firewall context, and a sanitized command/output reproduction.")
    } else {
        ("Cybercore tool", "Confirm the installation path, version, platform, and smallest reproducible command before collecting logs.")
    }
}

/// The most characters of a symptom that a triage card repeats.
pub const SYMPTOM_LIMIT: usize = 180;

pub open spec fn symptom_summary_text(symptom: Seq<char>) -> Seq<char> {
    let t = trimmed(symptom);
    if t.len() == 0 {
        "No symptom summary was provided."@
    } else if t.len() <= SYMPTOM_LIMIT {
        t
    } else {
        t.take(SYMPTOM_LIMIT as int)
    }
}

/// The symptom as the triage card repeats it: trimmed and cut to 180 characters.
pub fn symptom_summary(symptom: &str) -> (r: String)
    ensures
        r@ == symptom_summary_text(symptom@),
{
    let t = trim(symptom);
    let n = t.unicode_len();
    if n == 0 {
        owned("No symptom summary was provided.")
    } else if n <= SYMPTOM_LIMIT {
        owned(t)
    } else {
        owned(t.substring_char(0, SYMPTOM_LIMIT))
    }
}

/// The fields of a /troubleshoot card.
pub struct TriageCard {
    pub title: String,
    pub url: String,
    pub description: String,
    pub first_checks: String,
    pub issue_contents: String,
    pub data_protection: String,
    pub area: String,
    pub next_step: String,
}

/// The /troubleshoot card for a tracked tool, its repository and a symptom.
pub fn triage_card(tool_name: &str, repo: &str, symptom: &str) -> (c: TriageCard)
    ensures
        c.title@ == "🧭 Troubleshooting: "@ + tool_name@,
        c.url@ == "https://github.com/"@ + repo@,
        c.description@ == "Private triage started for **"@ + tool_name@
            + "**. Hermes does not store this report.\n\n**Symptom noted:** "@ + symptom_summary_text(symptom@),
        c.first_checks@ == "• "@ + guidance(tool_name@).1
            + "\n• Confirm the exact version or commit.\n• Reproduce with the smallest safe example.\n• Check the latest release notes with `/releases "@
            + tool_name@ + "`."@,
        c.issue_contents@ == "• OS and architecture\n• Tool version or commit\n• Exact command/config used\n• Expected versus actual behavior\n• Relevant logs or a short traceback\n• A minimal reproduction, if possible"@,
        c.data_protection@ == "Never post passwords, API keys, private keys, tokens, secret files, customer data, or complete production configuration. Redact first."@,
        c.area@ == guidance(tool_name@).0,
        c.next_step@ == "Open an issue at https://github.com/"@ + repo@
            + "/issues after redacting sensitive data."@,
{
    let (family, first_check) = troubleshooting_guidance(tool_name);
    let mut title = owned("🧭 Troubleshooting: ");
    title.append(tool_name);
    let summary = symptom_summary(symptom);
    let mut description = owned("Private triage started for **");
    description.append(tool_name);
    description.append("**. Hermes does not store this report.\n\n**Symptom noted:** ");
    description.append(summary.as_str());
    let mut first_checks = owned("• ");
    first_checks.append(first_check);
    first_checks.append(
        "\n• Confirm the exact version or commit.\n• Reproduce with the smallest safe example.\n• Check the latest release notes with `/releases ",
    );
    first_checks.append(tool_name);
    first_checks.append("`.");
    let mut next_step = owned("Open an issue at https://github.com/");
    next_step.append(repo);
    next_step.append("/issues after redacting sensitive data.");
    TriageCard {
        title,
        url: github_url(repo),
        description,
        first_checks,
        issue_contents: owned(
            "• OS and architecture\n• Tool version or commit\n• Exact command/config used\n• Expected versus actual behavior\n• Relevant logs or a short traceback\n• A minimal reproduction, if possible",
        ),
        data_protection: owned(
            "Never post passwords, API keys, private keys, tokens, secret files, customer data, or complete production configuration. Redact first.",
        ),
        area: owned(family),
        next_step,
    }
}

// ---------------------------------------------------------------------------
// /tools

/// The text above the /tools cards.
pub fn tools_intro() -> (r: &'static str)
    ensures
        r@ == "**:tools: Dev & Core**\nShared design system and toolchain — open a card for the project site."@,
{
    "**:tools: Dev & Core**\nShared design system and toolchain — open a card for the project site."
}

/// The triage card repeats the beginning of the trimmed symptom: its first
/// 180 characters, or all of it when shorter. Only an empty trimmed symptom
/// gives the fixed notice instead.
pub proof fn lemma_symptom_summary_is_prefix(symptom: Seq<char>)
    ensures
        trimmed(symptom).len() > 0 ==> symptom_summary_text(symptom).len() == if trimmed(symptom).len()
            <= SYMPTOM_LIMIT {
            trimmed(symptom).len()
        } else {
            SYMPTOM_LIMIT as nat
        },
        trimmed(symptom).len() > 0 ==> forall|i: int|
            0 <= i < symptom_summary_text(symptom).len() ==> #[trigger] symptom_summary_text(symptom)[i]
                == trimmed(symptom)[i],
        trimmed(symptom).len() == 0 ==> symptom_summary_text(symptom) == "No symptom summary was provided."@,
{
}

} // verus!
