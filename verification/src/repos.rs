//! The portfolio registry: every tracked repository of the Cybercore family,
//! the featured tools with their project sites, and the lookups the slash
//! commands make in it.
use vstd::prelude::*;
use crate::text::{ascii_lowercase, join, join_strings, owned, str_eq, string_views, trim, trimmed};

verus! {

/// The tracked repositories, as (tool name, `owner/repo`), in registry order.
pub open spec fn registry() -> Seq<(Seq<char>, Seq<char>)> {
    seq![        ("echo"@, "darkstardevx/echo"@),
        ("cybermeta"@, "darkstardevx/cybermeta"@),
        ("cybervault"@, "darkstardevx/cybervault"@),
        ("keysmith"@, "darkstardevx/keysmith"@),
        ("cyberterm"@, "darkstardevx/cyberterm"@),
        ("sentrygrid"@, "darkstardevx/sentrygrid"@),
        ("wraithflow"@, "darkstardevx/wraithflow"@),
        ("vortexwall"@, "darkstardevx/vortexwall"@),
        ("aetherscope"@, "darkstardevx/aetherscope"@),
        ("ghostport"@, "darkstardevx/ghostport"@),
        ("apexdaemon"@, "darkstardevx/apexdaemon"@),
        ("cybercore"@, "darkstardevx/cybercore"@),
        ("cyberdeck"@, "darkstardevx/cyberdeck"@),
        ("cyberplug"@, "darkstardevx/cyberplug"@),
        ("cyberplug-bar-widget"@, "darkstardevx/cyberplug-bar-widget"@),
        ("diagprint"@, "darkstardevx/diagprint"@),
        ("gateflow"@, "darkstardevx/gateflow"@),
        ("agentforge"@, "darkstardevx/agentforge"@)
    ]
}

/// The featured tools, as (name, one-line description, project site).
pub open spec fn featured_tools() -> Seq<(Seq<char>, Seq<char>, Seq<char>)> {
    seq![        ("cybercore"@, "The shared design system every tool above is built on."@, "https://darkstardevx.github.io/cybercore/"@),
        ("cyberdeck"@, "Systems intelligence framework."@, "https://darkstardevx.github.io/cyberdeck/"@),
        ("diagprint"@, "Rust diagnostics lifecycle framework."@, "https://darkstardevx.github.io/diagprint/"@),
        ("gateflow"@, "Kernel-sandbox testing with netns, chaos, and veth."@, "https://darkstardevx.github.io/gateflow/"@),
        ("cybermeta"@, "TUI EXIF metadata tool."@, "https://darkstardevx.github.io/cybermeta/"@)
    ]
}

/// The repository of the first entry named `key`, if any.
pub open spec fn find_repo(entries: Seq<(Seq<char>, Seq<char>)>, key: Seq<char>) -> Option<Seq<char>>
    decreases entries.len(),
{
    if entries.len() == 0 {
        None
    } else if entries[0].0 == key {
        Some(entries[0].1)
    } else {
        find_repo(entries.drop_first(), key)
    }
}

/// The site of the first featured tool named `name`, if any.
pub open spec fn find_site(tools: Seq<(Seq<char>, Seq<char>, Seq<char>)>, name: Seq<char>) -> Option<Seq<char>>
    decreases tools.len(),
{
    if tools.len() == 0 {
        None
    } else if tools[0].0 == name {
        Some(tools[0].2)
    } else {
        find_site(tools.drop_first(), name)
    }
}

/// The one-line description shown for a project name.
pub open spec fn description_of(name: Seq<char>) -> Seq<char> {
    if name == "agentforge"@ {
        "Deterministic AI-assisted workflow orchestration."@
    }     else if name == "apexdaemon"@ {
        "Background automation for theme sync, fleet health, and backups."@
    }     else if name == "aetherscope"@ {
        "Packet capture and BPF-filtered network inspection."@
    }     else if name == "cybercore"@ {
        "The shared Cybercore design system and foundations."@
    }     else if name == "cyberdeck"@ {
        "Systems intelligence framework."@
    }     else if name == "cybermeta"@ {
        "Terminal EXIF metadata tooling."@
    }     else if name == "cyberplug"@ {
        "Plugin manager for Omarchy."@
    }     else if name == "cyberplug-bar-widget"@ {
        "Companion bar widget for Cyberplug."@
    }     else if name == "cyberterm"@ {
        "GPU-rendered terminal emulator."@
    }     else if name == "cybervault"@ {
        "Encrypted secrets vault using modern authenticated cryptography."@
    }     else if name == "diagprint"@ {
        "Rust diagnostics lifecycle framework."@
    }     else if name == "echo"@ {
        "Traffic inspector TUI for WraithFlow captures."@
    }     else if name == "gateflow"@ {
        "Kernel-sandbox testing with namespaces, chaos, and veth."@
    }     else if name == "ghostport"@ {
        "Encrypted NAT-traversing port forwarder."@
    }     else if name == "keysmith"@ {
        "Password, passphrase, and hash generation companion."@
    }     else if name == "sentrygrid"@ {
        "Network exposure auditor with host and container correlation."@
    }     else if name == "vortexwall"@ {
        "Active-blackholing firewall using nftables."@
    }     else if name == "wraithflow"@ {
        "Config-driven TCP proxy and traffic-analysis pipelines."@
    } else {
        "Cybercore project."@
    }
}

pub open spec fn view_pair(p: (&str, &str)) -> (Seq<char>, Seq<char>) {
    (p.0@, p.1@)
}

pub open spec fn view_triple(p: (&str, &str, &str)) -> (Seq<char>, Seq<char>, Seq<char>) {
    (p.0@, p.1@, p.2@)
}

pub open spec fn opt_view(o: Option<&str>) -> Option<Seq<char>> {
    match o {
        Some(s) => Some(s@),
        None => None,
    }
}

/// Every tracked repository as (tool name, `owner/repo`), in registry order.
pub fn all_named() -> (v: Vec<(&'static str, &'static str)>)
    ensures
        v@.map_values(|p: (&str, &str)| view_pair(p)) == registry(),
{
    let mut v: Vec<(&'static str, &'static str)> = Vec::new();
    v.push(("echo", "darkstardevx/echo"));
    v.push(("cybermeta", "darkstardevx/cybermeta"));
    v.push(("cybervault", "darkstardevx/cybervault"));
    v.push(("keysmith", "darkstardevx/keysmith"));
    v.push(("cyberterm", "darkstardevx/cyberterm"));
    v.push(("sentrygrid", "darkstardevx/sentrygrid"));
    v.push(("wraithflow", "darkstardevx/wraithflow"));
    v.push(("vortexwall", "darkstardevx/vortexwall"));
    v.push(("aetherscope", "darkstardevx/aetherscope"));
    v.push(("ghostport", "darkstardevx/ghostport"));
    v.push(("apexdaemon", "darkstardevx/apexdaemon"));
    v.push(("cybercore", "darkstardevx/cybercore"));
    v.push(("cyberdeck", "darkstardevx/cyberdeck"));
    v.push(("cyberplug", "darkstardevx/cyberplug"));
    v.push(("cyberplug-bar-widget", "darkstardevx/cyberplug-bar-widget"));
    v.push(("diagprint", "darkstardevx/diagprint"));
    v.push(("gateflow", "darkstardevx/gateflow"));
    v.push(("agentforge", "darkstardevx/agentforge"));
    assert(v@.map_values(|p: (&str, &str)| view_pair(p)) =~= registry());
    v
}

/// The tracked tool names, in registry order.
pub open spec fn registry_names() -> Seq<Seq<char>> {
    Seq::new(registry().len(), |k: int| registry()[k].0)
}

/// Every tracked `owner/repo`, in registry order.
pub fn all() -> (v: Vec<&'static str>)
    ensures
        v@.len() == registry().len(),
        forall|k: int| 0 <= k < v@.len() ==> (#[trigger] v@[k])@ == registry()[k].1,
{
    let named = all_named();
    let mut v: Vec<&'static str> = Vec::new();
    let mut i: usize = 0;
    while i < named.len()
        invariant
            i <= named.len(),
            named@.map_values(|p: (&str, &str)| view_pair(p)) == registry(),
            v@.len() == i,
            forall|k: int| 0 <= k < i ==> (#[trigger] v@[k])@ == registry()[k].1,
        decreases named.len() - i,
    {
        proof {
            assert(view_pair(named@[i as int]) == registry()[i as int]);
        }
        v.push(named[i].1);
        i = i + 1;
    }
    v
}

/// The featured tools as (name, description, project site).
pub fn featured() -> (v: Vec<(&'static str, &'static str, &'static str)>)
    ensures
        v@.map_values(|p: (&str, &str, &str)| view_triple(p)) == featured_tools(),
{
    let mut v: Vec<(&'static str, &'static str, &'static str)> = Vec::new();
    v.push(("cybercore", "The shared design system every tool above is built on.", "https://darkstardevx.github.io/cybercore/"));
    v.push(("cyberdeck", "Systems intelligence framework.", "https://darkstardevx.github.io/cyberdeck/"));
    v.push(("diagprint", "Rust diagnostics lifecycle framework.", "https://darkstardevx.github.io/diagprint/"));
    v.push(("gateflow", "Kernel-sandbox testing with netns, chaos, and veth.", "https://darkstardevx.github.io/gateflow/"));
    v.push(("cybermeta", "TUI EXIF metadata tool.", "https://darkstardevx.github.io/cybermeta/"));
    assert(v@.map_values(|p: (&str, &str, &str)| view_triple(p)) =~= featured_tools());
    v
}

/// The registry entry named exactly `key` (already trimmed and lower-cased).
pub fn lookup(key: &str) -> (r: Option<&'static str>)
    ensures
        opt_view(r) == find_repo(registry(), key@),
{
    let named = all_named();
    let mut i: usize = 0;
    assert(registry().skip(0) =~= registry());
    while i < named.len()
        invariant
            i <= named.len(),
            named@.map_values(|p: (&str, &str)| view_pair(p)) == registry(),
            find_repo(registry(), key@) == find_repo(registry().skip(i as int), key@),
        decreases named.len() - i,
    {
        proof {
            assert(view_pair(named@[i as int]) == registry()[i as int]);
            assert(registry().skip(i as int)[0] == registry()[i as int]);
            assert(registry().skip(i as int).drop_first() =~= registry().skip(i + 1));
        }
        if str_eq(named[i].0, key) {
            return Some(named[i].1);
        }
        i = i + 1;
    }
    None
}

/// The names of all tracked tools, separated by ", ".
pub fn names_list() -> (r: String)
    ensures
        r@ == join(registry_names(), ", "@),
{
    let named = all_named();
    let mut names: Vec<String> = Vec::new();
    let mut i: usize = 0;
    while i < named.len()
        invariant
            i <= named.len(),
            named@.map_values(|p: (&str, &str)| view_pair(p)) == registry(),
            names@.len() == i,
            forall|k: int| 0 <= k < i ==> (#[trigger] names@[k])@ == registry()[k].0,
        decreases named.len() - i,
    {
        proof {
            assert(view_pair(named@[i as int]) == registry()[i as int]);
        }
        names.push(owned(named[i].0));
        i = i + 1;
    }
    assert(string_views(names@) =~= registry_names());
    join_strings(&names, ", ")
}

/// The one-line description of a project; unknown names get a generic line.
pub fn description(name: &str) -> (r: &'static str)
    ensures
        r@ == description_of(name@),
{
    if str_eq(name, "agentforge") {
        "Deterministic AI-assisted workflow orchestration."
    }     else if str_eq(name, "apexdaemon") {
        "Background automation for theme sync, fleet health, and backups."
    }     else if str_eq(name, "aetherscope") {
        "Packet capture and BPF-filtered network inspection."
    }     else if str_eq(name, "cybercore") {
        "The shared Cybercore design system and foundations."
    }     else if str_eq(name, "cyberdeck") {
        "Systems intelligence framework."
    }     else if str_eq(name, "cybermeta") {
        "Terminal EXIF metadata tooling."
    }     else if str_eq(name, "cyberplug") {
        "Plugin manager for Omarchy."
    }     else if str_eq(name, "cyberplug-bar-widget") {
        "Companion bar widget for Cyberplug."
    }     else if str_eq(name, "cyberterm") {
        "GPU-rendered terminal emulator."
    }     else if str_eq(name, "cybervault") {
        "Encrypted secrets vault using modern authenticated cryptography."
    }     else if str_eq(name, "diagprint") {
        "Rust diagnostics lifecycle framework."
    }     else if str_eq(name, "echo") {
        "Traffic inspector TUI for WraithFlow captures."
    }     else if str_eq(name, "gateflow") {
        "Kernel-sandbox testing with namespaces, chaos, and veth."
    }     else if str_eq(name, "ghostport") {
        "Encrypted NAT-traversing port forwarder."
    }     else if str_eq(name, "keysmith") {
        "Password, passphrase, and hash generation companion."
    }     else if str_eq(name, "sentrygrid") {
        "Network exposure auditor with host and container correlation."
    }     else if str_eq(name, "vortexwall") {
        "Active-blackholing firewall using nftables."
    }     else if str_eq(name, "wraithflow") {
        "Config-driven TCP proxy and traffic-analysis pipelines."
    } else {
        "Cybercore project."
    }
}

/// The project site of a featured tool, looked up by its exact name.
pub fn site(name: &str) -> (r: Option<&'static str>)
    ensures
        opt_view(r) == find_site(featured_tools(), name@),
{
    let tools = featured();
    let mut i: usize = 0;
    assert(featured_tools().skip(0) =~= featured_tools());
    while i < tools.len()
        invariant
            i <= tools.len(),
            tools@.map_values(|p: (&str, &str, &str)| view_triple(p)) == featured_tools(),
            find_site(featured_tools(), name@) == find_site(featured_tools().skip(i as int), name@),
        decreases tools.len() - i,
    {
        proof {
            assert(view_triple(tools@[i as int]) == featured_tools()[i as int]);
            assert(featured_tools().skip(i as int)[0] == featured_tools()[i as int]);
            assert(featured_tools().skip(i as int).drop_first() =~= featured_tools().skip(i + 1));
        }
        if str_eq(tools[i].0, name) {
            return Some(tools[i].2);
        }
        i = i + 1;
    }
    None
}

/// The result of std `str::to_lowercase` on `s`: Unicode's lower-case mapping.
pub uninterp spec fn unicode_lowercase(s: Seq<char>) -> Seq<char>;

/// Every character of `s` is ASCII.
pub open spec fn all_ascii(s: Seq<char>) -> bool {
    forall|i: int| 0 <= i < s.len() ==> ((#[trigger] s[i]) as u32) < 128
}

/// std `str::to_lowercase`. Its result is named, not written out: the Unicode
/// lower-case mapping (with its special and context-dependent cases) is a
/// function of the argument alone. Of an all-ASCII string it claims only what
/// std documents: `to_lowercase` lowercases ASCII characters as
/// `to_ascii_lowercase` does ('A' to 'Z' become 'a' to 'z'), and a character
/// without a lower-case mapping stays as it is.
#[verifier::external_body]
fn to_lowercase(s: &str) -> (r: String)
    ensures
        r@ == unicode_lowercase(s@),
        all_ascii(s@) ==> r@ == ascii_lowercase(s@),
{
    s.to_lowercase()
}

/// The repository of a tool name as a user typed it: surrounding whitespace
/// is ignored and the name is compared in lower case.
pub fn resolve(name: &str) -> (r: Option<&'static str>)
    ensures
        opt_view(r) == find_repo(registry(), unicode_lowercase(trimmed(name@))),
        all_ascii(trimmed(name@)) ==> opt_view(r) == find_repo(registry(), ascii_lowercase(trimmed(name@))),
{
    let key = to_lowercase(trim(name));
    lookup(key.as_str())
}

proof fn lemma_find_repo_at(entries: Seq<(Seq<char>, Seq<char>)>, i: int)
    requires
        0 <= i < entries.len(),
        forall|j: int| 0 <= j < i ==> (#[trigger] entries[j]).0 != entries[i].0,
    ensures
        find_repo(entries, entries[i].0) == Some(entries[i].1),
    decreases i,
{
    if i > 0 {
        let rest = entries.drop_first();
        assert forall|j: int| 0 <= j < i - 1 implies (#[trigger] rest[j]).0 != rest[i - 1].0 by {
            assert(rest[j] == entries[j + 1]);
        }
        lemma_find_repo_at(rest, i - 1);
        assert(entries[0].0 != entries[i].0);
    }
}

/// Each tracked tool name, typed exactly, is found, and gives its own repository.
pub proof fn lemma_registry_names_are_found(i: int)
    requires
        0 <= i < registry().len(),
    ensures
        find_repo(registry(), registry()[i].0) == Some(registry()[i].1),
{
    reveal_strlit("echo");
    reveal_strlit("cybermeta");
    reveal_strlit("cybervault");
    reveal_strlit("keysmith");
    reveal_strlit("cyberterm");
    reveal_strlit("sentrygrid");
    reveal_strlit("wraithflow");
    reveal_strlit("vortexwall");
    reveal_strlit("aetherscope");
    reveal_strlit("ghostport");
    reveal_strlit("apexdaemon");
    reveal_strlit("cybercore");
    reveal_strlit("cyberdeck");
    reveal_strlit("cyberplug");
    reveal_strlit("cyberplug-bar-widget");
    reveal_strlit("diagprint");
    reveal_strlit("gateflow");
    reveal_strlit("agentforge");
    assert forall|j: int, k: int| 0 <= j < k < registry().len() implies (#[trigger] registry()[j]).0 != (#[trigger] registry()[k]).0 by {
        let a = registry()[j].0;
        let b = registry()[k].0;
        if a == b {
            assert(a.len() == b.len());
            assert(a[0] == b[0]);
            assert(a[a.len() - 1] == b[b.len() - 1]);
        }
    }
    lemma_find_repo_at(registry(), i);
}

/// The projects the bot describes, as (tool name, one-line description).
pub open spec fn project_descriptions() -> Seq<(Seq<char>, Seq<char>)> {
    seq![
        ("agentforge"@, "Deterministic AI-assisted workflow orchestration."@),
        ("apexdaemon"@, "Background automation for theme sync, fleet health, and backups."@),
        ("aetherscope"@, "Packet capture and BPF-filtered network inspection."@),
        ("cybercore"@, "The shared Cybercore design system and foundations."@),
        ("cyberdeck"@, "Systems intelligence framework."@),
        ("cybermeta"@, "Terminal EXIF metadata tooling."@),
        ("cyberplug"@, "Plugin manager for Omarchy."@),
        ("cyberplug-bar-widget"@, "Companion bar widget for Cyberplug."@),
        ("cyberterm"@, "GPU-rendered terminal emulator."@),
        ("cybervault"@, "Encrypted secrets vault using modern authenticated cryptography."@),
        ("diagprint"@, "Rust diagnostics lifecycle framework."@),
        ("echo"@, "Traffic inspector TUI for WraithFlow captures."@),
        ("gateflow"@, "Kernel-sandbox testing with namespaces, chaos, and veth."@),
        ("ghostport"@, "Encrypted NAT-traversing port forwarder."@),
        ("keysmith"@, "Password, passphrase, and hash generation companion."@),
        ("sentrygrid"@, "Network exposure auditor with host and container correlation."@),
        ("vortexwall"@, "Active-blackholing firewall using nftables."@),
        ("wraithflow"@, "Config-driven TCP proxy and traffic-analysis pipelines."@)
    ]
}

/// Each described project gets the description the table pairs with its name.
pub proof fn lemma_descriptions_follow_the_table(i: int)
    requires
        0 <= i < project_descriptions().len(),
    ensures
        description_of(project_descriptions()[i].0) == project_descriptions()[i].1,
{
    reveal_strlit("agentforge");
    reveal_strlit("apexdaemon");
    reveal_strlit("aetherscope");
    reveal_strlit("cybercore");
    reveal_strlit("cyberdeck");
    reveal_strlit("cybermeta");
    reveal_strlit("cyberplug");
    reveal_strlit("cyberplug-bar-widget");
    reveal_strlit("cyberterm");
    reveal_strlit("cybervault");
    reveal_strlit("diagprint");
    reveal_strlit("echo");
    reveal_strlit("gateflow");
    reveal_strlit("ghostport");
    reveal_strlit("keysmith");
    reveal_strlit("sentrygrid");
    reveal_strlit("vortexwall");
    reveal_strlit("wraithflow");
    if i == 0 {
        assert(description_of(project_descriptions()[0].0) == project_descriptions()[0].1);
    } else if i == 1 {
        assert("agentforge"@[1] != "apexdaemon"@[1]);
        assert(description_of(project_descriptions()[1].0) == project_descriptions()[1].1);
    } else if i == 2 {
        assert("agentforge"@.len() != "aetherscope"@.len());
        assert("apexdaemon"@.len() != "aetherscope"@.len());
        assert(description_of(project_descriptions()[2].0) == project_descriptions()[2].1);
    } else if i == 3 {
        assert("agentforge"@.len() != "cybercore"@.len());
        assert("apexdaemon"@.len() != "cybercore"@.len());
        assert("aetherscope"@.len() != "cybercore"@.len());
        assert(description_of(project_descriptions()[3].0) == project_descriptions()[3].1);
    } else if i == 4 {
        assert("agentforge"@.len() != "cyberdeck"@.len());
        assert("apexdaemon"@.len() != "cyberdeck"@.len());
        assert("aetherscope"@.len() != "cyberdeck"@.len());
        assert("cybercore"@[5] != "cyberdeck"@[5]);
        assert(description_of(project_descriptions()[4].0) == project_descriptions()[4].1);
    } else if i == 5 {
        assert("agentforge"@.len() != "cybermeta"@.len());
        assert("apexdaemon"@.len() != "cybermeta"@.len());
        assert("aetherscope"@.len() != "cybermeta"@.len());
        assert("cybercore"@[5] != "cybermeta"@[5]);
        assert("cyberdeck"@[5] != "cybermeta"@[5]);
        assert(description_of(project_descriptions()[5].0) == project_descriptions()[5].1);
    } else if i == 6 {
        assert("agentforge"@.len() != "cyberplug"@.len());
        assert("apexdaemon"@.len() != "cyberplug"@.len());
        assert("aetherscope"@.len() != "cyberplug"@.len());
        assert("cybercore"@[5] != "cyberplug"@[5]);
        assert("cyberdeck"@[5] != "cyberplug"@[5]);
        assert("cybermeta"@[5] != "cyberplug"@[5]);
        assert(description_of(project_descriptions()[6].0) == project_descriptions()[6].1);
    } else if i == 7 {
        assert("agentforge"@.len() != "cyberplug-bar-widget"@.len());
        assert("apexdaemon"@.len() != "cyberplug-bar-widget"@.len());
        assert("aetherscope"@.len() != "cyberplug-bar-widget"@.len());
        assert("cybercore"@.len() != "cyberplug-bar-widget"@.len());
        assert("cyberdeck"@.len() != "cyberplug-bar-widget"@.len());
        assert("cybermeta"@.len() != "cyberplug-bar-widget"@.len());
        assert("cyberplug"@.len() != "cyberplug-bar-widget"@.len());
        assert(description_of(project_descriptions()[7].0) == project_descriptions()[7].1);
    } else if i == 8 {
        assert("agentforge"@.len() != "cyberterm"@.len());
        assert("apexdaemon"@.len() != "cyberterm"@.len());
        assert("aetherscope"@.len() != "cyberterm"@.len());
        assert("cybercore"@[5] != "cyberterm"@[5]);
        assert("cyberdeck"@[5] != "cyberterm"@[5]);
        assert("cybermeta"@[5] != "cyberterm"@[5]);
        assert("cyberplug"@[5] != "cyberterm"@[5]);
        assert("cyberplug-bar-widget"@.len() != "cyberterm"@.len());
        assert(description_of(project_descriptions()[8].0) == project_descriptions()[8].1);
    } else if i == 9 {
        assert("agentforge"@[0] != "cybervault"@[0]);
        assert("apexdaemon"@[0] != "cybervault"@[0]);
        assert("aetherscope"@.len() != "cybervault"@.len());
        assert("cybercore"@.len() != "cybervault"@.len());
        assert("cyberdeck"@.len() != "cybervault"@.len());
        assert("cybermeta"@.len() != "cybervault"@.len());
        assert("cyberplug"@.len() != "cybervault"@.len());
        assert("cyberplug-bar-widget"@.len() != "cybervault"@.len());
        assert("cyberterm"@.len() != "cybervault"@.len());
        assert(description_of(project_descriptions()[9].0) == project_descriptions()[9].1);
    } else if i == 10 {
        assert("agentforge"@.len() != "diagprint"@.len());
        assert("apexdaemon"@.len() != "diagprint"@.len());
        assert("aetherscope"@.len() != "diagprint"@.len());
        assert("cybercore"@[0] != "diagprint"@[0]);
        assert("cyberdeck"@[0] != "diagprint"@[0]);
        assert("cybermeta"@[0] != "diagprint"@[0]);
        assert("cyberplug"@[0] != "diagprint"@[0]);
        assert("cyberplug-bar-widget"@.len() != "diagprint"@.len());
        assert("cyberterm"@[0] != "diagprint"@[0]);
        assert("cybervault"@.len() != "diagprint"@.len());
        assert(description_of(project_descriptions()[10].0) == project_descriptions()[10].1);
    } else if i == 11 {
        assert("agentforge"@.len() != "echo"@.len());
        assert("apexdaemon"@.len() != "echo"@.len());
        assert("aetherscope"@.len() != "echo"@.len());
        assert("cybercore"@.len() != "echo"@.len());
        assert("cyberdeck"@.len() != "echo"@.len());
        assert("cybermeta"@.len() != "echo"@.len());
        assert("cyberplug"@.len() != "echo"@.len());
        assert("cyberplug-bar-widget"@.len() != "echo"@.len());
        assert("cyberterm"@.len() != "echo"@.len());
        assert("cybervault"@.len() != "echo"@.len());
        assert("diagprint"@.len() != "echo"@.len());
        assert(description_of(project_descriptions()[11].0) == project_descriptions()[11].1);
    } else if i == 12 {
        assert("agentforge"@.len() != "gateflow"@.len());
        assert("apexdaemon"@.len() != "gateflow"@.len());
        assert("aetherscope"@.len() != "gateflow"@.len());
        assert("cybercore"@.len() != "gateflow"@.len());
        assert("cyberdeck"@.len() != "gateflow"@.len());
        assert("cybermeta"@.len() != "gateflow"@.len());
        assert("cyberplug"@.len() != "gateflow"@.len());
        assert("cyberplug-bar-widget"@.len() != "gateflow"@.len());
        assert("cyberterm"@.len() != "gateflow"@.len());
        assert("cybervault"@.len() != "gateflow"@.len());
        assert("diagprint"@.len() != "gateflow"@.len());
        assert("echo"@.len() != "gateflow"@.len());
        assert(description_of(project_descriptions()[12].0) == project_descriptions()[12].1);
    } else if i == 13 {
        assert("agentforge"@.len() != "ghostport"@.len());
        assert("apexdaemon"@.len() != "ghostport"@.len());
        assert("aetherscope"@.len() != "ghostport"@.len());
        assert("cybercore"@[0] != "ghostport"@[0]);
        assert("cyberdeck"@[0] != "ghostport"@[0]);
        assert("cybermeta"@[0] != "ghostport"@[0]);
        assert("cyberplug"@[0] != "ghostport"@[0]);
        assert("cyberplug-bar-widget"@.len() != "ghostport"@.len());
        assert("cyberterm"@[0] != "ghostport"@[0]);
        assert("cybervault"@.len() != "ghostport"@.len());
        assert("diagprint"@[0] != "ghostport"@[0]);
        assert("echo"@.len() != "ghostport"@.len());
        assert("gateflow"@.len() != "ghostport"@.len());
        assert(description_of(project_descriptions()[13].0) == project_descriptions()[13].1);
    } else if i == 14 {
        assert("agentforge"@.len() != "keysmith"@.len());
        assert("apexdaemon"@.len() != "keysmith"@.len());
        assert("aetherscope"@.len() != "keysmith"@.len());
        assert("cybercore"@.len() != "keysmith"@.len());
        assert("cyberdeck"@.len() != "keysmith"@.len());
        assert("cybermeta"@.len() != "keysmith"@.len());
        assert("cyberplug"@.len() != "keysmith"@.len());
        assert("cyberplug-bar-widget"@.len() != "keysmith"@.len());
        assert("cyberterm"@.len() != "keysmith"@.len());
        assert("cybervault"@.len() != "keysmith"@.len());
        assert("diagprint"@.len() != "keysmith"@.len());
        assert("echo"@.len() != "keysmith"@.len());
        assert("gateflow"@[0] != "keysmith"@[0]);
        assert("ghostport"@.len() != "keysmith"@.len());
        assert(description_of(project_descriptions()[14].0) == project_descriptions()[14].1);
    } else if i == 15 {
        assert("agentforge"@[0] != "sentrygrid"@[0]);
        assert("apexdaemon"@[0] != "sentrygrid"@[0]);
        assert("aetherscope"@.len() != "sentrygrid"@.len());
        assert("cybercore"@.len() != "sentrygrid"@.len());
        assert("cyberdeck"@.len() != "sentrygrid"@.len());
        assert("cybermeta"@.len() != "sentrygrid"@.len());
        assert("cyberplug"@.len() != "sentrygrid"@.len());
        assert("cyberplug-bar-widget"@.len() != "sentrygrid"@.len());
        assert("cyberterm"@.len() != "sentrygrid"@.len());
        assert("cybervault"@[0] != "sentrygrid"@[0]);
        assert("diagprint"@.len() != "sentrygrid"@.len());
        assert("echo"@.len() != "sentrygrid"@.len());
        assert("gateflow"@.len() != "sentrygrid"@.len());
        assert("ghostport"@.len() != "sentrygrid"@.len());
        assert("keysmith"@.len() != "sentrygrid"@.len());
        assert(description_of(project_descriptions()[15].0) == project_descriptions()[15].1);
    } else if i == 16 {
        assert("agentforge"@[0] != "vortexwall"@[0]);
        assert("apexdaemon"@[0] != "vortexwall"@[0]);
        assert("aetherscope"@.len() != "vortexwall"@.len());
        assert("cybercore"@.len() != "vortexwall"@.len());
        assert("cyberdeck"@.len() != "vortexwall"@.len());
        assert("cybermeta"@.len() != "vortexwall"@.len());
        assert("cyberplug"@.len() != "vortexwall"@.len());
        assert("cyberplug-bar-widget"@.len() != "vortexwall"@.len());
        assert("cyberterm"@.len() != "vortexwall"@.len());
        assert("cybervault"@[0] != "vortexwall"@[0]);
        assert("diagprint"@.len() != "vortexwall"@.len());
        assert("echo"@.len() != "vortexwall"@.len());
        assert("gateflow"@.len() != "vortexwall"@.len());
        assert("ghostport"@.len() != "vortexwall"@.len());
        assert("keysmith"@.len() != "vortexwall"@.len());
        assert("sentrygrid"@[0] != "vortexwall"@[0]);
        assert(description_of(project_descriptions()[16].0) == project_descriptions()[16].1);
    } else if i == 17 {
        assert("agentforge"@[0] != "wraithflow"@[0]);
        assert("apexdaemon"@[0] != "wraithflow"@[0]);
        assert("aetherscope"@.len() != "wraithflow"@.len());
        assert("cybercore"@.len() != "wraithflow"@.len());
        assert("cyberdeck"@.len() != "wraithflow"@.len());
        assert("cybermeta"@.len() != "wraithflow"@.len());
        assert("cyberplug"@.len() != "wraithflow"@.len());
        assert("cyberplug-bar-widget"@.len() != "wraithflow"@.len());
        assert("cyberterm"@.len() != "wraithflow"@.len());
        assert("cybervault"@[0] != "wraithflow"@[0]);
        assert("diagprint"@.len() != "wraithflow"@.len());
        assert("echo"@.len() != "wraithflow"@.len());
        assert("gateflow"@.len() != "wraithflow"@.len());
        assert("ghostport"@.len() != "wraithflow"@.len());
        assert("keysmith"@.len() != "wraithflow"@.len());
        assert("sentrygrid"@[0] != "wraithflow"@[0]);
        assert("vortexwall"@[0] != "wraithflow"@[0]);
        assert(description_of(project_descriptions()[17].0) == project_descriptions()[17].1);
    }
}

/// A name the table does not list is described generically.
pub proof fn lemma_other_names_get_generic_description(name: Seq<char>)
    requires
        forall|i: int| 0 <= i < project_descriptions().len() ==> (#[trigger] project_descriptions()[i]).0 != name,
    ensures
        description_of(name) == "Cybercore project."@,
{
    assert(name != project_descriptions()[0].0);
    assert(name != project_descriptions()[1].0);
    assert(name != project_descriptions()[2].0);
    assert(name != project_descriptions()[3].0);
    assert(name != project_descriptions()[4].0);
    assert(name != project_descriptions()[5].0);
    assert(name != project_descriptions()[6].0);
    assert(name != project_descriptions()[7].0);
    assert(name != project_descriptions()[8].0);
    assert(name != project_descriptions()[9].0);
    assert(name != project_descriptions()[10].0);
    assert(name != project_descriptions()[11].0);
    assert(name != project_descriptions()[12].0);
    assert(name != project_descriptions()[13].0);
    assert(name != project_descriptions()[14].0);
    assert(name != project_descriptions()[15].0);
    assert(name != project_descriptions()[16].0);
    assert(name != project_descriptions()[17].0);
}

} // verus!
