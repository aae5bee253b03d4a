//! The scheduled #dev-log digest: what the poller remembers of each
//! repository, when it looks for a new release, which repositories it
//! reports, and the message it posts. Polling, posting, sleeping and saving
//! are left to the caller, which hands back what GitHub answered.
use vstd::prelude::*;
use crate::github::{Release, RepoActivity};
use crate::text::{decimal, join, owned, push_decimal, str_eq, join_strings, string_views};

verus! {

/// What the poller last saw of one repository.
#[derive(Clone)]
pub struct DevLogRepoState {
    pub pushed_at: Option<String>,
    pub release_tag: Option<String>,
}

pub open spec fn opt_string(o: Option<String>) -> Option<Seq<char>> {
    match o {
        Some(s) => Some(s@),
        None => None,
    }
}

/// What the poller remembers of a repository: its last push time and release tag.
pub type RepoMemory = (Option<Seq<char>>, Option<Seq<char>>);

pub open spec fn memory_of(e: DevLogRepoState) -> RepoMemory {
    (opt_string(e.pushed_at), opt_string(e.release_tag))
}

/// What the poller remembers of every repository it has seen.
pub struct DevLogState {
    repos: Vec<(String, DevLogRepoState)>,
}

/// The map of (name, memory) entries; a later entry of a name wins.
pub open spec fn memory_map(s: Seq<(String, DevLogRepoState)>) -> Map<Seq<char>, RepoMemory>
    decreases s.len(),
{
    if s.len() == 0 {
        Map::empty()
    } else {
        memory_map(s.drop_last()).insert(s.last().0@, memory_of(s.last().1))
    }
}

pub open spec fn distinct_names(s: Seq<(String, DevLogRepoState)>) -> bool {
    forall|i: int, j: int| 0 <= i < j < s.len() ==> (#[trigger] s[i]).0@ != (#[trigger] s[j]).0@
}

impl View for DevLogState {
    type V = Map<Seq<char>, RepoMemory>;

    closed spec fn view(&self) -> Map<Seq<char>, RepoMemory> {
        memory_map(self.repos@)
    }
}

proof fn lemma_memory_map_at(s: Seq<(String, DevLogRepoState)>, i: int)
    requires
        distinct_names(s),
        0 <= i < s.len(),
    ensures
        memory_map(s).contains_key(s[i].0@),
        memory_map(s)[s[i].0@] == memory_of(s[i].1),
    decreases s.len(),
{
    if i < s.len() - 1 {
        let u = s.drop_last();
        assert forall|a: int, b: int| 0 <= a < b < u.len() implies (#[trigger] u[a]).0@ != (#[trigger] u[b]).0@ by {
            assert(u[a] == s[a] && u[b] == s[b]);
        }
        assert(u[i] == s[i]);
        lemma_memory_map_at(u, i);
        assert(s[i].0@ != s[s.len() - 1].0@);
    }
}

proof fn lemma_memory_map_absent(s: Seq<(String, DevLogRepoState)>, k: Seq<char>)
    requires
        forall|i: int| 0 <= i < s.len() ==> (#[trigger] s[i]).0@ != k,
    ensures
        !memory_map(s).contains_key(k),
    decreases s.len(),
{
    if s.len() > 0 {
        let u = s.drop_last();
        assert forall|i: int| 0 <= i < u.len() implies (#[trigger] u[i]).0@ != k by {
            assert(u[i] == s[i]);
        }
        lemma_memory_map_absent(u, k);
    }
}

/// Replacing entry `i` by one with the same name sets that name in the map.
proof fn lemma_memory_map_update(s: Seq<(String, DevLogRepoState)>, i: int, e: (String, DevLogRepoState))
    requires
        distinct_names(s),
        0 <= i < s.len(),
        e.0@ == s[i].0@,
    ensures
        memory_map(s.update(i, e)) == memory_map(s).insert(e.0@, memory_of(e.1)),
        distinct_names(s.update(i, e)),
    decreases s.len(),
{
    let t = s.update(i, e);
    assert forall|a: int, b: int| 0 <= a < b < t.len() implies (#[trigger] t[a]).0@ != (#[trigger] t[b]).0@ by {
        assert(t[a].0@ == s[a].0@ && t[b].0@ == s[b].0@);
    }
    let u = s.drop_last();
    assert forall|a: int, b: int| 0 <= a < b < u.len() implies (#[trigger] u[a]).0@ != (#[trigger] u[b]).0@ by {
        assert(u[a] == s[a] && u[b] == s[b]);
    }
    if i == s.len() - 1 {
        assert(t.drop_last() =~= u);
        assert(memory_map(t) =~= memory_map(s).insert(e.0@, memory_of(e.1)));
    } else {
        lemma_memory_map_update(u, i, e);
        assert(t.drop_last() =~= u.update(i, e));
        assert(s.last().0@ != e.0@);
        assert(memory_map(t) =~= memory_map(s).insert(e.0@, memory_of(e.1)));
    }
}

impl DevLogState {
    #[verifier::type_invariant]
    spec fn inv(self) -> bool {
        distinct_names(self.repos@)
    }

    /// Nothing remembered yet.
    pub fn new() -> (s: Self)
        ensures
            s@ == Map::<Seq<char>, RepoMemory>::empty(),
    {
        DevLogState { repos: Vec::new() }
    }

    /// Whether nothing is remembered (the poller's first round).
    pub fn is_empty(&self) -> (b: bool)
        ensures
            b == (self@.dom().len() == 0),
    {
        proof {
            use_type_invariant(self);
            if self.repos@.len() > 0 {
                lemma_memory_map_at(self.repos@, 0);
                lemma_memory_map_finite(self.repos@);
                lemma_map_nonempty(memory_map(self.repos@), self.repos@[0].0@);
            } else {
                assert(memory_map(self.repos@) =~= Map::<Seq<char>, RepoMemory>::empty());
            }
        }
        self.repos.len() == 0
    }

    fn position(&self, repo: &str) -> (r: Option<usize>)
        ensures
            match r {
                Some(i) => i < self.repos@.len() && self.repos@[i as int].0@ == repo@,
                None => forall|i: int| 0 <= i < self.repos@.len() ==> (#[trigger] self.repos@[i]).0@
                    != repo@,
            },
    {
        let mut i: usize = 0;
        while i < self.repos.len()
            invariant
                i <= self.repos.len(),
                forall|j: int| 0 <= j < i ==> (#[trigger] self.repos@[j]).0@ != repo@,
            decreases self.repos.len() - i,
        {
            if str_eq(self.repos[i].0.as_str(), repo) {
                return Some(i);
            }
            i = i + 1;
        }
        None
    }

    /// What is remembered of `repo`.
    pub fn get(&self, repo: &str) -> (r: Option<&DevLogRepoState>)
        ensures
            match r {
                Some(e) => self@.contains_key(repo@) && self@[repo@] == memory_of(*e),
                None => !self@.contains_key(repo@),
            },
    {
        proof {
            use_type_invariant(self);
        }
        match self.position(repo) {
            Some(i) => {
                proof {
                    lemma_memory_map_at(self.repos@, i as int);
                }
                Some(&self.repos[i].1)
            },
            None => {
                proof {
                    lemma_memory_map_absent(self.repos@, repo@);
                }
                None
            },
        }
    }

    /// Remembers `entry` for `repo`, replacing what was remembered of it.
    pub fn insert(&mut self, repo: String, entry: DevLogRepoState)
        ensures
            final(self)@ == old(self)@.insert(repo@, memory_of(entry)),
    {
        proof {
            use_type_invariant(&*self);
        }
        let mut repos: Vec<(String, DevLogRepoState)> = Vec::new();
        std::mem::swap(&mut repos, &mut self.repos);
        let ghost s = repos@;
        let mut i: usize = 0;
        let mut found: Option<usize> = None;
        while i < repos.len()
            invariant
                i <= repos.len(),
                repos@ == s,
                found is None ==> forall|j: int| 0 <= j < i ==> (#[trigger] s[j]).0@ != repo@,
                found matches Some(k) ==> k < s.len() && s[k as int].0@ == repo@,
            decreases repos.len() - i,
        {
            if found.is_none() && str_eq(repos[i].0.as_str(), repo.as_str()) {
                found = Some(i);
            }
            i = i + 1;
        }
        match found {
            Some(k) => {
                let ghost e = (repo, entry);
                proof {
                    lemma_memory_map_update(s, k as int, (repo, entry));
                }
                repos.remove(k);
                repos.insert(k, (repo, entry));
                assert(repos@ =~= s.update(k as int, e));
            },
            None => {
                proof {
                    lemma_memory_map_absent(s, repo@);
                }
                repos.push((repo, entry));
                assert(repos@.drop_last() =~= s);
                assert forall|a: int, b: int| 0 <= a < b < repos@.len() implies (#[trigger] repos@[a]).0@
                    != (#[trigger] repos@[b]).0@ by {
                    if b < s.len() {
                        assert(repos@[a] == s[a] && repos@[b] == s[b]);
                    } else {
                        assert(repos@[a] == s[a]);
                    }
                }
            },
        }
        self.repos = repos;
    }

    /// The memory of saved entries, a later entry of a name replacing an earlier one.
    pub fn from_entries(entries: &Vec<(String, DevLogRepoState)>) -> (r: Self)
        ensures
            r@ == memory_map(entries@),
    {
        let mut r = DevLogState::new();
        let ghost all = entries@;
        let mut i: usize = 0;
        assert(r@ =~= memory_map(all.take(0)));
        while i < entries.len()
            invariant
                all == entries@,
                i <= entries.len(),
                r@ == memory_map(all.take(i as int)),
            decreases entries.len() - i,
        {
            assert(all.take(i + 1).drop_last() =~= all.take(i as int));
            r.insert(owned(entries[i].0.as_str()), copy_memory(&entries[i].1));
            i = i + 1;
        }
        assert(all.take(entries.len() as int) =~= all);
        r
    }

    /// A copy of the whole memory.
    pub fn duplicate(&self) -> (r: Self)
        ensures
            r@ == self@,
    {
        proof {
            use_type_invariant(self);
        }
        let mut repos: Vec<(String, DevLogRepoState)> = Vec::new();
        let mut i: usize = 0;
        while i < self.repos.len()
            invariant
                i <= self.repos.len(),
                distinct_names(self.repos@),
                repos@.len() == i,
                forall|k: int| 0 <= k < i ==> (#[trigger] repos@[k]).0@ == self.repos@[k].0@
                    && memory_of(repos@[k].1) == memory_of(self.repos@[k].1),
            decreases self.repos.len() - i,
        {
            repos.push((owned(self.repos[i].0.as_str()), copy_memory(&self.repos[i].1)));
            i = i + 1;
        }
        proof {
            lemma_same_memory(repos@, self.repos@);
        }
        DevLogState { repos }
    }

    /// The remembered repositories, for saving.
    pub fn entries(&self) -> (r: &Vec<(String, DevLogRepoState)>)
        ensures
            memory_map(r@) == self@,
    {
        &self.repos
    }
}

proof fn lemma_same_memory(a: Seq<(String, DevLogRepoState)>, b: Seq<(String, DevLogRepoState)>)
    requires
        a.len() == b.len(),
        forall|k: int| 0 <= k < a.len() ==> (#[trigger] a[k]).0@ == b[k].0@ && memory_of(a[k].1) == memory_of(b[k].1),
    ensures
        memory_map(a) == memory_map(b),
        distinct_names(b) ==> distinct_names(a),
    decreases a.len(),
{
    if a.len() > 0 {
        lemma_same_memory(a.drop_last(), b.drop_last());
        assert(a.last().0@ == b.last().0@);
    }
    if distinct_names(b) {
        assert forall|i: int, j: int| 0 <= i < j < a.len() implies (#[trigger] a[i]).0@ != (#[trigger] a[j]).0@ by {
            assert(a[i].0@ == b[i].0@ && a[j].0@ == b[j].0@);
        }
    }
}

proof fn lemma_memory_map_finite(s: Seq<(String, DevLogRepoState)>)
    ensures
        memory_map(s).dom().finite(),
    decreases s.len(),
{
    if s.len() > 0 {
        lemma_memory_map_finite(s.drop_last());
    }
}

fn copy_text(o: &Option<String>) -> (r: Option<String>)
    ensures
        opt_string(r) == opt_string(*o),
{
    match o {
        Some(s) => Some(owned(s.as_str())),
        None => None,
    }
}

/// A copy of what is remembered of a repository.
pub fn copy_memory(e: &DevLogRepoState) -> (r: DevLogRepoState)
    ensures
        memory_of(r) == memory_of(*e),
{
    DevLogRepoState { pushed_at: copy_text(&e.pushed_at), release_tag: copy_text(&e.release_tag) }
}

proof fn lemma_map_nonempty(m: Map<Seq<char>, RepoMemory>, k: Seq<char>)
    requires
        m.contains_key(k),
        m.dom().finite(),
    ensures
        m.dom().len() > 0,
{
    if m.dom().len() == 0 {
        assert(m.dom() =~= Set::<Seq<char>>::empty());
    }
}

// ---------------------------------------------------------------------------
// The decisions of one polling round.

pub open spec fn prev_pushed(m: Map<Seq<char>, RepoMemory>, repo: Seq<char>) -> Option<Seq<char>> {
    if m.contains_key(repo) {
        m[repo].0
    } else {
        None
    }
}

pub open spec fn prev_tag(m: Map<Seq<char>, RepoMemory>, repo: Seq<char>) -> Option<Seq<char>> {
    if m.contains_key(repo) {
        m[repo].1
    } else {
        None
    }
}

/// Whether the repository was pushed to since it was last seen. A repository
/// with no remembered entry has not been seen: it is not counted as changed.
pub open spec fn pushed_changed(m: Map<Seq<char>, RepoMemory>, repo: Seq<char>, pushed_at: Option<Seq<char>>) -> bool {
    m.contains_key(repo) && prev_pushed(m, repo) != pushed_at
}

/// Whether a release was found whose tag differs from the remembered one of a
/// repository that was seen before.
pub open spec fn release_changed(m: Map<Seq<char>, RepoMemory>, repo: Seq<char>, tag: Option<Seq<char>>) -> bool {
    m.contains_key(repo) && tag is Some && prev_tag(m, repo) != tag
}

fn opt_text_eq(a: &Option<String>, b: &Option<String>) -> (r: bool)
    ensures
        r == (opt_string(*a) == opt_string(*b)),
{
    match (a, b) {
        (Some(x), Some(y)) => str_eq(x.as_str(), y.as_str()),
        (None, None) => true,
        _ => false,
    }
}

fn remembered_pushed(state: &DevLogState, repo: &str) -> (r: Option<String>)
    ensures
        opt_string(r) == prev_pushed(state@, repo@),
{
    match state.get(repo) {
        Some(e) => copy_text(&e.pushed_at),
        None => None,
    }
}

fn remembered_tag(state: &DevLogState, repo: &str) -> (r: Option<String>)
    ensures
        opt_string(r) == prev_tag(state@, repo@),
{
    match state.get(repo) {
        Some(e) => copy_text(&e.release_tag),
        None => None,
    }
}

/// Whether this round must look up the repository's latest release: on the
/// first round and for a repository not seen before (both are recorded
/// silently, release included), otherwise when it was pushed to.
pub fn needs_release_check(state: &DevLogState, repo: &str, first_run: bool, activity: &RepoActivity) -> (r: bool)
    ensures
        r == (first_run || !state@.contains_key(repo@) || pushed_changed(
            state@,
            repo@,
            opt_string(activity.pushed_at),
        )),
{
    match state.get(repo) {
        None => true,
        Some(e) => first_run || !opt_text_eq(&e.pushed_at, &activity.pushed_at),
    }
}

pub open spec fn release_tag_of(release: Option<&Release>) -> Option<Seq<char>> {
    match release {
        Some(r) => Some(r.tag_name@),
        None => None,
    }
}

/// The digest line of a repository that changed.
pub open spec fn change_line(
    m: Map<Seq<char>, RepoMemory>,
    repo: Seq<char>,
    activity: RepoActivity,
    release: Option<&Release>,
) -> Seq<char> {
    "• **"@ + repo + "** — "@ + activity.html_url@ + match release {
        Some(r) => if release_changed(m, repo, Some(r.tag_name@)) {
            " · release "@ + r.tag_name@ + ": "@ + r.html_url@
        } else {
            Seq::empty()
        },
        None => Seq::empty(),
    }
}

/// Takes one repository's observation: `activity` as GitHub answered it and
/// `release`, its latest release when one was looked up and found. Records
/// in `next` the push time and the newest known release tag, and returns the
/// digest line when a repository seen before changed (never on the first
/// round; a repository with no remembered entry is recorded silently).
pub fn observe_repo(
    state: &DevLogState,
    next: &mut DevLogState,
    repo: &str,
    first_run: bool,
    activity: &RepoActivity,
    release: Option<&Release>,
) -> (line: Option<String>)
    ensures
        final(next)@ == old(next)@.insert(
            repo@,
            (
                opt_string(activity.pushed_at),
                match release {
                    Some(r) => Some(r.tag_name@),
                    None => prev_tag(state@, repo@),
                },
            ),
        ),
        match line {
            Some(l) => !first_run && (pushed_changed(state@, repo@, opt_string(activity.pushed_at))
                || release_changed(state@, repo@, release_tag_of(release))) && l@ == change_line(
                state@,
                repo@,
                *activity,
                release,
            ),
            None => first_run || !(pushed_changed(state@, repo@, opt_string(activity.pushed_at))
                || release_changed(state@, repo@, release_tag_of(release))),
        },
        !state@.contains_key(repo@) ==> line is None,
{
    let seen = state.get(repo).is_some();
    let prev_push = remembered_pushed(state, repo);
    let prev_release = remembered_tag(state, repo);
    let pushed = seen && !opt_text_eq(&prev_push, &activity.pushed_at);
    let changed_release = seen && match release {
        Some(r) => match &prev_release {
            Some(t) => !str_eq(t.as_str(), r.tag_name.as_str()),
            None => true,
        },
        None => false,
    };
    let tag = match release {
        Some(r) => Some(owned(r.tag_name.as_str())),
        None => prev_release,
    };
    next.insert(owned(repo), DevLogRepoState { pushed_at: copy_text(&activity.pushed_at), release_tag: tag });
    if !first_run && (pushed || changed_release) {
        let mut l = owned("• **");
        l.append(repo);
        l.append("** — ");
        l.append(activity.html_url.as_str());
        match release {
            Some(r) => {
                if changed_release {
                    l.append(" · release ");
                    l.append(r.tag_name.as_str());
                    l.append(": ");
                    l.append(r.html_url.as_str());
                }
            },
            None => {},
        }
        Some(l)
    } else {
        None
    }
}

/// The most change lines one digest lists.
pub const DIGEST_LIMIT: usize = 10;

/// The lines a digest lists: the first ten changes, then how many were left out.
pub open spec fn digest_lines(changes: Seq<Seq<char>>) -> Seq<Seq<char>> {
    if changes.len() > DIGEST_LIMIT {
        changes.take(DIGEST_LIMIT as int).push(
            "…and "@ + decimal((changes.len() - DIGEST_LIMIT) as nat) + " more update(s)."@,
        )
    } else {
        changes
    }
}

pub open spec fn digest_text(changes: Seq<Seq<char>>) -> Seq<char> {
    "🛰️ **Cybercore project log**\n"@ + join(digest_lines(changes), "\n"@)
}

/// How a polling round ends.
pub enum RoundEnd {
    /// The first round: remember what was seen, post nothing.
    Seed,
    /// Post this digest; remember what was seen once it is posted.
    Post(String),
    /// Nothing changed: remember what was seen.
    Quiet,
}

/// Ends a round from its change lines.
pub fn finish_round(first_run: bool, changes: &Vec<String>) -> (r: RoundEnd)
    ensures
        first_run ==> r is Seed,
        !first_run && changes@.len() == 0 ==> r is Quiet,
        !first_run && changes@.len() > 0 ==> match r {
            RoundEnd::Post(content) => content@ == digest_text(string_views(changes@)),
            _ => false,
        },
{
    if first_run {
        return RoundEnd::Seed;
    }
    if changes.len() == 0 {
        return RoundEnd::Quiet;
    }
    let ghost views = string_views(changes@);
    let mut shown: Vec<String> = Vec::new();
    let mut i: usize = 0;
    while i < changes.len() && i < DIGEST_LIMIT
        invariant
            i <= changes.len(),
            i <= DIGEST_LIMIT,
            views == string_views(changes@),
            shown@.len() == i,
            forall|k: int| 0 <= k < i ==> (#[trigger] shown@[k])@ == views[k],
        decreases changes.len() - i,
    {
        shown.push(owned(changes[i].as_str()));
        i = i + 1;
    }
    if changes.len() > DIGEST_LIMIT {
        let mut more = owned("…and ");
        push_decimal(&mut more, (changes.len() - DIGEST_LIMIT) as u64);
        more.append(" more update(s).");
        shown.push(more);
    }
    assert(string_views(shown@) =~= digest_lines(views));
    let body = join_strings(&shown, "\n");
    let mut content = owned("🛰️ **Cybercore project log**\n");
    content.append(body.as_str());
    RoundEnd::Post(content)
}

/// Whether the round's observations become the remembered state: after a
/// seeding or quiet round always, after a digest only once it was posted.
pub fn commit_state(end: &RoundEnd, posted: bool) -> (c: bool)
    ensures
        c == !(*end is Post && !posted),
{
    match end {
        RoundEnd::Post(_) => posted,
        _ => true,
    }
}

/// A digest lists the first changes in their order, at most ten of them, and
/// then one line counting the rest.
pub proof fn lemma_digest_bounded(changes: Seq<Seq<char>>)
    ensures
        digest_lines(changes).len() <= DIGEST_LIMIT + 1,
        forall|i: int| 0 <= i < changes.len() && i < DIGEST_LIMIT ==> #[trigger] digest_lines(changes)[i]
            == changes[i],
        changes.len() <= DIGEST_LIMIT ==> digest_lines(changes) == changes,
        changes.len() > DIGEST_LIMIT ==> digest_lines(changes).last() == "…and "@ + decimal(
            (changes.len() - DIGEST_LIMIT) as nat,
        ) + " more update(s)."@,
{
}

/// The polling interval when none is configured: one hour.
pub const DEFAULT_INTERVAL_SECS: u64 = 3_600;

/// The shortest polling interval allowed: five minutes.
pub const MIN_INTERVAL_SECS: u64 = 300;

/// The polling interval from the configured number of seconds, if one was
/// given and read: one hour by default, never under five minutes.
pub fn poll_interval(configured: Option<u64>) -> (secs: u64)
    ensures
        secs == ({
            let wanted = match configured {
                Some(n) => n,
                None => DEFAULT_INTERVAL_SECS,
            };
            if wanted < MIN_INTERVAL_SECS {
                MIN_INTERVAL_SECS
            } else {
                wanted
            }
        }),
{
    let wanted = match configured {
        Some(n) => n,
        None => DEFAULT_INTERVAL_SECS,
    };
    if wanted < MIN_INTERVAL_SECS {
        MIN_INTERVAL_SECS
    } else {
        wanted
    }
}

/// What counts as a change of a repository: one seen before changed when its
/// push time differs from the remembered one, or when a release was found
/// whose tag differs from the remembered tag (also when none was
/// remembered); a repository not seen before never counts as changed.
pub proof fn lemma_change_rules(
    m: Map<Seq<char>, RepoMemory>,
    repo: Seq<char>,
    pushed_at: Option<Seq<char>>,
    tag: Seq<char>,
)
    ensures
        m.contains_key(repo) ==> (pushed_changed(m, repo, pushed_at) <==> m[repo].0 != pushed_at),
        m.contains_key(repo) ==> (release_changed(m, repo, Some(tag)) <==> m[repo].1 != Some(tag)),
        m.contains_key(repo) && m[repo].1 is None ==> release_changed(m, repo, Some(tag)),
        !release_changed(m, repo, None),
        !m.contains_key(repo) ==> !pushed_changed(m, repo, pushed_at) && !release_changed(
            m,
            repo,
            Some(tag),
        ),
{
}

/// The digest line of a changed repository names it and links its page, and
/// links the found release exactly when its tag differs from the remembered
/// one (a first release included).
pub proof fn lemma_change_line_links_new_release(
    m: Map<Seq<char>, RepoMemory>,
    repo: Seq<char>,
    activity: RepoActivity,
    release: Release,
)
    requires
        m.contains_key(repo),
    ensures
        m[repo].1 != Some(release.tag_name@) ==> change_line(m, repo, activity, Some(&release)) == "• **"@
            + repo + "** — "@ + activity.html_url@ + " · release "@ + release.tag_name@ + ": "@
            + release.html_url@,
        m[repo].1 == Some(release.tag_name@) ==> change_line(m, repo, activity, Some(&release)) == "• **"@
            + repo + "** — "@ + activity.html_url@,
        change_line(m, repo, activity, None) == "• **"@ + repo + "** — "@ + activity.html_url@,
{
    let head = "• **"@ + repo + "** — "@ + activity.html_url@;
    if m[repo].1 == Some(release.tag_name@) {
        assert(head + Seq::<char>::empty() =~= head);
    } else {
        assert(head + (" · release "@ + release.tag_name@ + ": "@ + release.html_url@) =~= head
            + " · release "@ + release.tag_name@ + ": "@ + release.html_url@);
    }
    assert(head + Seq::<char>::empty() =~= head);
}

} // verus!
