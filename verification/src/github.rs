//! What the bot reads from GitHub's REST API, the addresses it asks, and the
//! decisions it takes on the answers. The requests themselves are made by the
//! caller.
use vstd::prelude::*;
use crate::text::{ends_with, ends_with_str};

verus! {

/// A published release of a repository.
pub struct Release {
    pub tag_name: String,
    pub html_url: String,
    pub body: Option<String>,
    pub assets: Vec<Asset>,
}

/// One downloadable file of a release.
pub struct Asset {
    pub name: String,
    pub download_count: u64,
}

/// A repository's page and the time of its last push.
pub struct RepoActivity {
    pub html_url: String,
    pub pushed_at: Option<String>,
}

/// The address of a repository's latest release.
pub fn release_api_url(repo: &str) -> (r: String)
    ensures
        r@ == "https://api.github.com/repos/"@ + repo@ + "/releases/latest"@,
{
    let mut r = String::new();
    r.append("https://api.github.com/repos/");
    r.append(repo);
    r.append("/releases/latest");
    r
}

/// The address of a repository.
pub fn repo_api_url(repo: &str) -> (r: String)
    ensures
        r@ == "https://api.github.com/repos/"@ + repo@,
{
    let mut r = String::new();
    r.append("https://api.github.com/repos/");
    r.append(repo);
    r
}

/// Characters a branch name keeps as they are in a query: ASCII letters and
/// digits, `-`, `.`, `_`, `~` and `/`. Characters beyond ASCII are kept too;
/// the URL parser encodes them as UTF-8 when the request is built.
pub open spec fn query_safe(c: char) -> bool {
    ('a' <= c && c <= 'z') || ('A' <= c && c <= 'Z') || ('0' <= c && c <= '9') || c == '-' || c
        == '.' || c == '_' || c == '~' || c == '/' || (c as u32) >= 128
}

/// The upper-case hexadecimal digit for `d < 16`.
pub open spec fn hex_digit(d: nat) -> char {
    if d < 10 {
        ((48 + d) as u32) as char
    } else {
        ((55 + d) as u32) as char
    }
}

/// One character of a query value: itself when safe, else `%` and its two
/// hexadecimal digits.
pub open spec fn escape_char(c: char) -> Seq<char> {
    if query_safe(c) {
        seq![c]
    } else {
        seq!['%', hex_digit(((c as u32) / 16) as nat), hex_digit(((c as u32) % 16) as nat)]
    }
}

/// A query value with every character escaped as `escape_char` says.
pub open spec fn query_escape(s: Seq<char>) -> Seq<char>
    decreases s.len(),
{
    if s.len() == 0 {
        Seq::empty()
    } else {
        query_escape(s.drop_last()) + escape_char(s.last())
    }
}

fn hex(d: u32) -> (c: char)
    requires
        d < 16,
    ensures
        c == hex_digit(d as nat),
{
    if d < 10 {
        let b = (48 + d) as u8;
        b as char
    } else {
        let b = (55 + d) as u8;
        b as char
    }
}

fn is_query_safe(c: char) -> (b: bool)
    ensures
        b == query_safe(c),
{
    ('a' <= c && c <= 'z') || ('A' <= c && c <= 'Z') || ('0' <= c && c <= '9') || c == '-' || c
        == '.' || c == '_' || c == '~' || c == '/' || (c as u32) >= 128
}

/// Appends `value` escaped for a query.
fn push_query_escaped(out: &mut String, value: &str)
    ensures
        final(out)@ == old(out)@ + query_escape(value@),
{
    let ghost start = out@;
    let v = crate::text::chars_of(value);
    let mut i: usize = 0;
    while i < v.len()
        invariant
            i <= v.len(),
            v@ == value@,
            out@ == start + query_escape(v@.take(i as int)),
        decreases v.len() - i,
    {
        let c = v[i];
        assert(v@.take(i + 1).drop_last() =~= v@.take(i as int));
        assert(v@.take(i + 1).last() == c);
        if is_query_safe(c) {
            crate::text::push_char(out, c);
        } else {
            let n = c as u32;
            crate::text::push_char(out, '%');
            crate::text::push_char(out, hex(n / 16));
            crate::text::push_char(out, hex(n % 16));
        }
        i = i + 1;
        assert(out@ =~= start + query_escape(v@.take(i as int)));
    }
    assert(v@.take(v.len() as int) =~= value@);
}

/// The address of the most recent completed workflow run on `branch` (the
/// repository's default branch, as its metadata names it).
pub fn ci_runs_api_url(repo: &str, branch: &str) -> (r: String)
    ensures
        r@ == "https://api.github.com/repos/"@ + repo@ + "/actions/runs?branch="@ + query_escape(
            branch@,
        ) + "&status=completed&per_page=1"@,
{
    let mut r = String::new();
    r.append("https://api.github.com/repos/");
    r.append(repo);
    r.append("/actions/runs?branch=");
    push_query_escaped(&mut r, branch);
    r.append("&status=completed&per_page=1");
    r
}

/// The `User-Agent` header every request carries.
pub fn user_agent() -> (r: &'static str)
    ensures
        r@ == "hermes-discord-bot"@,
{
    "hermes-discord-bot"
}

/// The `Accept` header every request carries.
pub fn accept_header() -> (r: &'static str)
    ensures
        r@ == "application/vnd.github+json"@,
{
    "application/vnd.github+json"
}

/// The `Authorization` header for a token.
pub fn authorization_header(token: &str) -> (r: String)
    ensures
        r@ == "Bearer "@ + token@,
{
    let mut r = String::new();
    r.append("Bearer ");
    r.append(token);
    r
}

/// Whether an HTTP status is a client or server error (400 to 599), which
/// makes a request fail.
pub fn status_is_error(status: u16) -> (r: bool)
    ensures
        r == (400 <= status < 600),
{
    400 <= status && status < 600
}

/// What the answer to a latest-release request means.
#[derive(Clone, Copy, Debug, PartialEq, Eq, Structural)]
pub enum ReleaseAnswer {
    /// 404: the repository has no release.
    NoRelease,
    /// Another error status: the request failed.
    Failed,
    /// The body describes the release.
    Release,
}

/// Reads the status of a latest-release answer.
pub fn release_answer(status: u16) -> (r: ReleaseAnswer)
    ensures
        r == (if status == 404 {
            ReleaseAnswer::NoRelease
        } else if 400 <= status < 600 {
            ReleaseAnswer::Failed
        } else {
            ReleaseAnswer::Release
        }),
{
    if status == 404 {
        ReleaseAnswer::NoRelease
    } else if status_is_error(status) {
        ReleaseAnswer::Failed
    } else {
        ReleaseAnswer::Release
    }
}

/// CI is green when the most recent completed run concluded "success".
pub open spec fn run_passed(conclusions: Seq<Option<String>>) -> bool {
    conclusions.len() > 0 && match conclusions[0] {
        Some(c) => c@ == "success"@,
        None => false,
    }
}

/// Whether the most recent completed run (the first listed) succeeded. Asked
/// of the runs that `ci_runs_api_url` lists, it reads the default branch's.
pub fn latest_run_passed(conclusions: &Vec<Option<String>>) -> (r: bool)
    ensures
        r == run_passed(conclusions@),
{
    if conclusions.len() == 0 {
        return false;
    }
    match &conclusions[0] {
        Some(c) => crate::text::str_eq(c.as_str(), "success"),
        None => false,
    }
}

/// Whether an asset counts as a download: checksum files do not.
pub open spec fn counted(a: Asset) -> bool {
    !ends_with(a.name@, ".sha256"@)
}

/// The downloads of the counted assets.
pub open spec fn download_total(assets: Seq<Asset>) -> nat
    decreases assets.len(),
{
    if assets.len() == 0 {
        0
    } else {
        download_total(assets.drop_last()) + if counted(assets.last()) {
            assets.last().download_count as nat
        } else {
            0nat
        }
    }
}

proof fn lemma_download_total_grows(assets: Seq<Asset>, i: int, j: int)
    requires
        0 <= i <= j <= assets.len(),
    ensures
        download_total(assets.take(i)) <= download_total(assets.take(j)),
    decreases j - i,
{
    if i < j {
        lemma_download_total_grows(assets, i, j - 1);
        assert(assets.take(j).drop_last() =~= assets.take(j - 1));
    }
}

/// The downloads of a release, checksum files left out; `None` when the sum
/// does not fit in a `u64`.
pub fn download_count(assets: &Vec<Asset>) -> (r: Option<u64>)
    ensures
        match r {
            Some(n) => n == download_total(assets@),
            None => download_total(assets@) > u64::MAX,
        },
{
    let mut total: u64 = 0;
    let mut i: usize = 0;
    while i < assets.len()
        invariant
            i <= assets.len(),
            total == download_total(assets@.take(i as int)),
        decreases assets.len() - i,
    {
        assert(assets@.take(i + 1).drop_last() =~= assets@.take(i as int));
        if !ends_with_str(assets[i].name.as_str(), ".sha256") {
            let n = assets[i].download_count;
            if n > u64::MAX - total {
                proof {
                    lemma_download_total_grows(assets@, i + 1, assets@.len() as int);
                    assert(assets@.take(assets@.len() as int) =~= assets@);
                }
                return None;
            }
            total = total + n;
        }
        i = i + 1;
    }
    assert(assets@.take(assets.len() as int) =~= assets@);
    Some(total)
}

/// CI counts as green only when there is a completed run and the most recent
/// one concluded exactly "success": no run, a run without a conclusion, or
/// any other conclusion ("failure", "cancelled", "timed_out", ...) is red.
pub proof fn lemma_run_passed_only_on_success(conclusions: Seq<Option<String>>)
    ensures
        run_passed(conclusions) <==> (conclusions.len() > 0 && conclusions[0] is Some && conclusions[0]->0@
            == "success"@),
        conclusions.len() == 0 ==> !run_passed(conclusions),
        conclusions.len() > 0 && conclusions[0] is None ==> !run_passed(conclusions),
        conclusions.len() > 0 && conclusions[0] is Some && conclusions[0]->0@ != "success"@ ==> !run_passed(
            conclusions,
        ),
{
}

} // verus!
