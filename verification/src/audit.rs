//! The read-only server audit: channel layout, channel types, duplicate
//! names and custom permission overwrites of one guild, rendered as text.
use vstd::prelude::*;
use crate::order::{
    Key, key_views, indices_in, sort_by_keys, runs, sort_indices, runs_exec,
};
use crate::text::{
    ascii_lowercase, trimmed, decimal, join, concat, chars_of, to_ascii_lowercase, trim,
    push_decimal, join_strings, string_views, push_char,
};

verus! {

/// Discord's channel type number of a category.
pub const CATEGORY_KIND: u8 = 4;

/// Discord's channel type number of a voice channel.
pub const VOICE_KIND: u8 = 2;

/// Whom a permission overwrite applies to.
#[derive(Clone, Copy, Debug, PartialEq, Eq, Structural)]
pub enum OverwriteKind {
    Member,
    Role,
    Other,
}

/// What the audit reads of one guild channel.
pub struct Channel {
    pub id: u64,
    pub name: String,
    /// Discord's channel type number.
    pub kind: u8,
    pub position: u16,
    pub parent_id: Option<u64>,
    pub overwrites: Vec<OverwriteKind>,
}

/// The name that serenity's `ChannelType::name` gives a channel type number.
pub open spec fn channel_type_name(kind: u8) -> Seq<char> {
    if kind == 0 {
        "text"@
    } else if kind == 1 {
        "private"@
    } else if kind == 2 {
        "voice"@
    } else if kind == 3 {
        "group_dm"@
    } else if kind == 4 {
        "category"@
    } else if kind == 5 {
        "news"@
    } else if kind == 10 {
        "news_thread"@
    } else if kind == 11 {
        "public_thread"@
    } else if kind == 12 {
        "private_thread"@
    } else if kind == 13 {
        "stage"@
    } else if kind == 14 {
        "directory"@
    } else if kind == 15 {
        "forum"@
    } else {
        "unknown"@
    }
}

/// serenity's `ChannelType::from(u8)` followed by `ChannelType::name`: the
/// numbers Discord assigns map to their variant's name, every other number to
/// "unknown" (as serenity's source writes it out).
#[verifier::external_body]
fn kind_name(kind: u8) -> (r: String)
    ensures
        r@ == channel_type_name(kind),
{
    poise::serenity_prelude::ChannelType::from(kind).name().to_string()
}

// ---------------------------------------------------------------------------
// What the report says, over the sequence of channels in the order given.

/// The indices `k < n` for which `p(k)` holds, increasing.
pub open spec fn indices_where(n: nat, p: spec_fn(int) -> bool) -> Seq<usize>
    decreases n,
{
    if n == 0 {
        Seq::empty()
    } else {
        let r = indices_where((n - 1) as nat, p);
        if p(n - 1) {
            r.push((n - 1) as usize)
        } else {
            r
        }
    }
}

pub open spec fn is_category(c: Channel) -> bool {
    c.kind == CATEGORY_KIND
}

pub open spec fn category_filter(cs: Seq<Channel>) -> spec_fn(int) -> bool {
    |k: int| is_category(cs[k])
}

pub open spec fn non_category_filter(cs: Seq<Channel>) -> spec_fn(int) -> bool {
    |k: int| !is_category(cs[k])
}

pub open spec fn child_filter(cs: Seq<Channel>, id: u64) -> spec_fn(int) -> bool {
    |k: int| cs[k].parent_id == Some(id)
}

pub open spec fn uncategorized_filter(cs: Seq<Channel>) -> spec_fn(int) -> bool {
    |k: int|
        !is_category(cs[k]) && match cs[k].parent_id {
            Some(id) => category_name_of(cs, id, cs.len()) is None,
            None => true,
        }
}

pub open spec fn any_filter() -> spec_fn(int) -> bool {
    |k: int| true
}

/// The name of the last category among the first `n` channels with id `id`.
pub open spec fn category_name_of(cs: Seq<Channel>, id: u64, n: nat) -> Option<Seq<char>>
    decreases n,
{
    if n == 0 {
        None
    } else if is_category(cs[n - 1]) && cs[n - 1].id == id {
        Some(cs[n - 1].name@)
    } else {
        category_name_of(cs, id, (n - 1) as nat)
    }
}

/// Layout order: position, then the ASCII-lower-cased name.
pub open spec fn layout_keys(cs: Seq<Channel>) -> Seq<Key> {
    Seq::new(cs.len(), |i: int| (cs[i].position as u64, ascii_lowercase(cs[i].name@)))
}

/// Duplicate detection compares names trimmed and ASCII-lower-cased.
pub open spec fn name_keys(cs: Seq<Channel>) -> Seq<Key> {
    Seq::new(cs.len(), |i: int| (0u64, ascii_lowercase(trimmed(cs[i].name@))))
}

/// Channel types are counted per type name.
pub open spec fn kind_keys(cs: Seq<Channel>) -> Seq<Key> {
    Seq::new(cs.len(), |i: int| (0u64, channel_type_name(cs[i].kind)))
}

pub open spec fn count_kind(s: Seq<OverwriteKind>, kind: OverwriteKind) -> nat
    decreases s.len(),
{
    if s.len() == 0 {
        0
    } else {
        count_kind(s.drop_last(), kind) + if s.last() == kind {
            1nat
        } else {
            0nat
        }
    }
}

/// Overwrites of the first `n` channels.
pub open spec fn total_overwrites(cs: Seq<Channel>, n: nat) -> nat
    decreases n,
{
    if n == 0 {
        0
    } else {
        total_overwrites(cs, (n - 1) as nat) + cs[n - 1].overwrites@.len()
    }
}

/// Overwrites of one kind among the first `n` channels.
pub open spec fn kind_overwrites(cs: Seq<Channel>, kind: OverwriteKind, n: nat) -> nat
    decreases n,
{
    if n == 0 {
        0
    } else {
        kind_overwrites(cs, kind, (n - 1) as nat) + count_kind(cs[n - 1].overwrites@, kind)
    }
}

/// Channels among the first `n` with at least one overwrite.
pub open spec fn channels_with_overwrites(cs: Seq<Channel>, n: nat) -> nat
    decreases n,
{
    if n == 0 {
        0
    } else {
        channels_with_overwrites(cs, (n - 1) as nat) + if cs[n - 1].overwrites@.len() > 0 {
            1nat
        } else {
            0nat
        }
    }
}

/// "text=3, voice=1": each type name with its number of channels, by name.
pub open spec fn type_counts_text(cs: Seq<Channel>) -> Seq<char> {
    let keys = kind_keys(cs);
    let r = runs(keys, sort_by_keys(keys, indices_where(cs.len(), any_filter())));
    join(Seq::new(r.len(), |j: int| keys[r[j][0] as int].1 + "="@ + decimal(r[j].len())), ", "@)
}

pub open spec fn header_text(guild_id: u64, cs: Seq<Channel>) -> Seq<char> {
    "Hermes Watch server audit — guild `"@ + decimal(guild_id as nat) + "`\n"@ + "Channels: "@
        + decimal(cs.len()) + " total\n"@ + "Types: "@ + type_counts_text(cs) + "\n"@
        + "Custom permission overwrites: "@ + decimal(channels_with_overwrites(cs, cs.len()))
        + " channels ("@ + decimal(kind_overwrites(cs, OverwriteKind::Role, cs.len()))
        + " role, "@ + decimal(kind_overwrites(cs, OverwriteKind::Member, cs.len()))
        + " member)\n"@
}

pub open spec fn overwrite_note(c: Channel) -> Seq<char> {
    if c.overwrites@.len() == 0 {
        Seq::empty()
    } else {
        " ["@ + decimal(c.overwrites@.len()) + " overwrites]"@
    }
}

pub open spec fn child_line(c: Channel) -> Seq<char> {
    "  "@ + (if c.kind == VOICE_KIND {
        "🔊"@
    } else {
        "#"@
    }) + " "@ + c.name@ + overwrite_note(c) + "\n"@
}

/// The channels whose parent is `id`, in layout order.
pub open spec fn sorted_children(cs: Seq<Channel>, id: u64) -> Seq<usize> {
    sort_by_keys(layout_keys(cs), indices_where(cs.len(), child_filter(cs, id)))
}

pub open spec fn category_block(cs: Seq<Channel>, k: int) -> Seq<char> {
    let ch = sorted_children(cs, cs[k].id);
    "📁 "@ + cs[k].name@ + "\n"@ + if ch.len() == 0 {
        "  (empty)\n"@
    } else {
        concat(Seq::new(ch.len(), |j: int| child_line(cs[ch[j] as int])))
    }
}

/// The categories in layout order.
pub open spec fn sorted_categories(cs: Seq<Channel>) -> Seq<usize> {
    sort_by_keys(layout_keys(cs), indices_where(cs.len(), category_filter(cs)))
}

pub open spec fn layout_text(cs: Seq<Channel>) -> Seq<char> {
    let cats = sorted_categories(cs);
    "\nChannel layout:\n"@ + concat(Seq::new(cats.len(), |j: int| category_block(cs, cats[j] as int)))
}

/// Channels outside every category, in layout order.
pub open spec fn sorted_uncategorized(cs: Seq<Channel>) -> Seq<usize> {
    sort_by_keys(layout_keys(cs), indices_where(cs.len(), uncategorized_filter(cs)))
}

pub open spec fn uncategorized_text(cs: Seq<Channel>) -> Seq<char> {
    let u = sorted_uncategorized(cs);
    if u.len() == 0 {
        Seq::empty()
    } else {
        "📂 Uncategorized\n"@ + concat(Seq::new(u.len(), |j: int| "  # "@ + cs[u[j] as int].name@ + "\n"@))
    }
}

/// "Category / #name", or "Uncategorized / #name".
pub open spec fn location(cs: Seq<Channel>, k: int) -> Seq<char> {
    let parent = match cs[k].parent_id {
        Some(id) => match category_name_of(cs, id, cs.len()) {
            Some(name) => name,
            None => "Uncategorized"@,
        },
        None => "Uncategorized"@,
    };
    parent + " / #"@ + cs[k].name@
}

/// The non-category channels grouped by compared name, groups in name order,
/// each group in the given channel order.
pub open spec fn name_groups(cs: Seq<Channel>) -> Seq<Seq<usize>> {
    let keys = name_keys(cs);
    runs(keys, sort_by_keys(keys, indices_where(cs.len(), non_category_filter(cs))))
}

/// The warning line of a group of equally named channels; nothing for a single channel.
pub open spec fn duplicate_line(cs: Seq<Channel>, group: Seq<usize>) -> Seq<char> {
    if group.len() > 1 {
        "⚠️ `"@ + name_keys(cs)[group[0] as int].1 + "` → "@ + join(
            Seq::new(group.len(), |j: int| location(cs, group[j] as int)),
            ", "@,
        ) + "\n"@
    } else {
        Seq::empty()
    }
}

pub open spec fn overlaps_text(cs: Seq<Channel>) -> Seq<char> {
    let g = name_groups(cs);
    let dups = concat(Seq::new(g.len(), |j: int| duplicate_line(cs, g[j])));
    "\nPotential overlaps:\n"@ + (if dups.len() == 0 {
        "✅ No duplicate channel names detected.\n"@
    } else {
        dups
    }) + if channels_with_overwrites(cs, cs.len()) == 0 {
        "✅ No channel-specific permission overwrites detected.\n"@
    } else {
        "ℹ️ Review channels marked with `[N overwrites]`; custom rules can create access overlap.\n"@
    }
}

/// The whole audit report of a guild's channels.
pub open spec fn audit_text(guild_id: u64, cs: Seq<Channel>) -> Seq<char> {
    header_text(guild_id, cs) + layout_text(cs) + uncategorized_text(cs) + overlaps_text(cs)
        + "\nNo messages, message content, or member lists were read.\n"@
}

// ---------------------------------------------------------------------------
// Computing the report.

proof fn lemma_indices_where_bounded(n: nat, p: spec_fn(int) -> bool)
    ensures
        indices_in(indices_where(n, p), n),
        indices_where(n, p).len() <= n,
    decreases n,
{
    if n > 0 {
        lemma_indices_where_bounded((n - 1) as nat, p);
    }
}

fn categories_exec(channels: &Vec<Channel>) -> (r: Vec<usize>)
    ensures
        r@ == indices_where(channels@.len(), category_filter(channels@)),
        indices_in(r@, channels@.len()),
{
    let mut r: Vec<usize> = Vec::new();
    let mut i: usize = 0;
    while i < channels.len()
        invariant
            i <= channels.len(),
            r@ == indices_where(i as nat, category_filter(channels@)),
        decreases channels.len() - i,
    {
        if channels[i].kind == CATEGORY_KIND {
            r.push(i);
        }
        i = i + 1;
    }
    proof {
        lemma_indices_where_bounded(channels@.len(), category_filter(channels@));
    }
    r
}

fn non_categories_exec(channels: &Vec<Channel>) -> (r: Vec<usize>)
    ensures
        r@ == indices_where(channels@.len(), non_category_filter(channels@)),
        indices_in(r@, channels@.len()),
{
    let mut r: Vec<usize> = Vec::new();
    let mut i: usize = 0;
    while i < channels.len()
        invariant
            i <= channels.len(),
            r@ == indices_where(i as nat, non_category_filter(channels@)),
        decreases channels.len() - i,
    {
        if channels[i].kind != CATEGORY_KIND {
            r.push(i);
        }
        i = i + 1;
    }
    proof {
        lemma_indices_where_bounded(channels@.len(), non_category_filter(channels@));
    }
    r
}

fn all_indices_exec(n: usize) -> (r: Vec<usize>)
    ensures
        r@ == indices_where(n as nat, any_filter()),
        indices_in(r@, n as nat),
{
    let mut r: Vec<usize> = Vec::new();
    let mut i: usize = 0;
    while i < n
        invariant
            i <= n,
            r@ == indices_where(i as nat, any_filter()),
        decreases n - i,
    {
        r.push(i);
        i = i + 1;
    }
    proof {
        lemma_indices_where_bounded(n as nat, any_filter());
    }
    r
}

fn children_exec(channels: &Vec<Channel>, id: u64) -> (r: Vec<usize>)
    ensures
        r@ == indices_where(channels@.len(), child_filter(channels@, id)),
        indices_in(r@, channels@.len()),
{
    let mut r: Vec<usize> = Vec::new();
    let mut i: usize = 0;
    while i < channels.len()
        invariant
            i <= channels.len(),
            r@ == indices_where(i as nat, child_filter(channels@, id)),
        decreases channels.len() - i,
    {
        if channels[i].parent_id == Some(id) {
            r.push(i);
        }
        i = i + 1;
    }
    proof {
        lemma_indices_where_bounded(channels@.len(), child_filter(channels@, id));
    }
    r
}

/// The index of the last category with id `id`.
fn category_index_exec(channels: &Vec<Channel>, id: u64) -> (r: Option<usize>)
    ensures
        match r {
            Some(k) => k < channels@.len() && category_name_of(channels@, id, channels@.len())
                == Some(channels@[k as int].name@),
            None => category_name_of(channels@, id, channels@.len()) is None,
        },
{
    let mut j: usize = channels.len();
    while j > 0
        invariant
            j <= channels.len(),
            category_name_of(channels@, id, channels@.len()) == category_name_of(channels@, id, j as nat),
        decreases j,
    {
        if channels[j - 1].kind == CATEGORY_KIND && channels[j - 1].id == id {
            return Some(j - 1);
        }
        j = j - 1;
    }
    None
}

fn uncategorized_exec(channels: &Vec<Channel>) -> (r: Vec<usize>)
    ensures
        r@ == indices_where(channels@.len(), uncategorized_filter(channels@)),
        indices_in(r@, channels@.len()),
{
    let mut r: Vec<usize> = Vec::new();
    let mut i: usize = 0;
    while i < channels.len()
        invariant
            i <= channels.len(),
            r@ == indices_where(i as nat, uncategorized_filter(channels@)),
        decreases channels.len() - i,
    {
        if channels[i].kind != CATEGORY_KIND {
            let outside = match channels[i].parent_id {
                Some(id) => category_index_exec(channels, id).is_none(),
                None => true,
            };
            if outside {
                r.push(i);
            }
        }
        i = i + 1;
    }
    proof {
        lemma_indices_where_bounded(channels@.len(), uncategorized_filter(channels@));
    }
    r
}

fn layout_keys_exec(channels: &Vec<Channel>) -> (keys: Vec<(u64, Vec<char>)>)
    ensures
        key_views(keys@) == layout_keys(channels@),
        keys.len() == channels.len(),
{
    let mut keys: Vec<(u64, Vec<char>)> = Vec::new();
    let mut i: usize = 0;
    while i < channels.len()
        invariant
            i <= channels.len(),
            keys.len() == i,
            forall|k: int| 0 <= k < i ==> key_views(keys@)[k] == #[trigger] layout_keys(channels@)[k],
        decreases channels.len() - i,
    {
        let lower = to_ascii_lowercase(channels[i].name.as_str());
        keys.push((channels[i].position as u64, chars_of(lower.as_str())));
        i = i + 1;
    }
    assert(key_views(keys@) =~= layout_keys(channels@));
    keys
}

fn name_keys_exec(channels: &Vec<Channel>) -> (keys: Vec<(u64, Vec<char>)>)
    ensures
        key_views(keys@) == name_keys(channels@),
        keys.len() == channels.len(),
{
    let mut keys: Vec<(u64, Vec<char>)> = Vec::new();
    let mut i: usize = 0;
    while i < channels.len()
        invariant
            i <= channels.len(),
            keys.len() == i,
            forall|k: int| 0 <= k < i ==> key_views(keys@)[k] == #[trigger] name_keys(channels@)[k],
        decreases channels.len() - i,
    {
        let lower = to_ascii_lowercase(trim(channels[i].name.as_str()));
        keys.push((0u64, chars_of(lower.as_str())));
        i = i + 1;
    }
    assert(key_views(keys@) =~= name_keys(channels@));
    keys
}

fn kind_keys_exec(channels: &Vec<Channel>) -> (keys: Vec<(u64, Vec<char>)>)
    ensures
        key_views(keys@) == kind_keys(channels@),
        keys.len() == channels.len(),
{
    let mut keys: Vec<(u64, Vec<char>)> = Vec::new();
    let mut i: usize = 0;
    while i < channels.len()
        invariant
            i <= channels.len(),
            keys.len() == i,
            forall|k: int| 0 <= k < i ==> key_views(keys@)[k] == #[trigger] kind_keys(channels@)[k],
        decreases channels.len() - i,
    {
        let name = kind_name(channels[i].kind);
        keys.push((0u64, chars_of(name.as_str())));
        i = i + 1;
    }
    assert(key_views(keys@) =~= kind_keys(channels@));
    keys
}

proof fn lemma_count_kind_bounded(s: Seq<OverwriteKind>, kind: OverwriteKind)
    ensures
        count_kind(s, kind) <= s.len(),
    decreases s.len(),
{
    if s.len() > 0 {
        lemma_count_kind_bounded(s.drop_last(), kind);
    }
}

proof fn lemma_overwrite_sums(cs: Seq<Channel>, i: nat, n: nat)
    requires
        i <= n <= cs.len(),
    ensures
        kind_overwrites(cs, OverwriteKind::Role, i) <= total_overwrites(cs, i),
        kind_overwrites(cs, OverwriteKind::Member, i) <= total_overwrites(cs, i),
        total_overwrites(cs, i) <= total_overwrites(cs, n),
        channels_with_overwrites(cs, i) <= i,
    decreases n,
{
    if n > i {
        lemma_overwrite_sums(cs, i, (n - 1) as nat);
    } else if i > 0 {
        lemma_overwrite_sums(cs, (i - 1) as nat, (i - 1) as nat);
        lemma_count_kind_bounded(cs[i - 1].overwrites@, OverwriteKind::Role);
        lemma_count_kind_bounded(cs[i - 1].overwrites@, OverwriteKind::Member);
    }
}

fn count_kind_exec(v: &Vec<OverwriteKind>, kind: OverwriteKind) -> (r: usize)
    ensures
        r == count_kind(v@, kind),
{
    let mut r: usize = 0;
    let mut i: usize = 0;
    while i < v.len()
        invariant
            i <= v.len(),
            r == count_kind(v@.take(i as int), kind),
            r <= i,
        decreases v.len() - i,
    {
        proof {
            assert(v@.take(i + 1).drop_last() =~= v@.take(i as int));
        }
        if v[i] == kind {
            r = r + 1;
        }
        i = i + 1;
    }
    assert(v@.take(v.len() as int) =~= v@);
    r
}

/// (channels with overwrites, role overwrites, member overwrites)
fn overwrite_counts(channels: &Vec<Channel>) -> (r: (usize, usize, usize))
    requires
        total_overwrites(channels@, channels@.len()) <= usize::MAX,
    ensures
        r.0 == channels_with_overwrites(channels@, channels@.len()),
        r.1 == kind_overwrites(channels@, OverwriteKind::Role, channels@.len()),
        r.2 == kind_overwrites(channels@, OverwriteKind::Member, channels@.len()),
{
    let ghost cs = channels@;
    let mut with: usize = 0;
    let mut roles: usize = 0;
    let mut members: usize = 0;
    let mut i: usize = 0;
    while i < channels.len()
        invariant
            cs == channels@,
            i <= channels.len(),
            total_overwrites(cs, cs.len()) <= usize::MAX,
            with == channels_with_overwrites(cs, i as nat),
            roles == kind_overwrites(cs, OverwriteKind::Role, i as nat),
            members == kind_overwrites(cs, OverwriteKind::Member, i as nat),
        decreases channels.len() - i,
    {
        proof {
            lemma_overwrite_sums(cs, (i + 1) as nat, cs.len());
        }
        if channels[i].overwrites.len() > 0 {
            with = with + 1;
        }
        roles = roles + count_kind_exec(&channels[i].overwrites, OverwriteKind::Role);
        members = members + count_kind_exec(&channels[i].overwrites, OverwriteKind::Member);
        i = i + 1;
    }
    (with, roles, members)
}

#[verifier::loop_isolation(false)]
fn type_counts_exec(channels: &Vec<Channel>) -> (r: String)
    ensures
        r@ == type_counts_text(channels@),
{
    let keys = kind_keys_exec(channels);
    let all = all_indices_exec(channels.len());
    let sorted = sort_indices(&keys, &all);
    let groups = runs_exec(&keys, &sorted);
    let ghost kv = kind_keys(channels@);
    let ghost rs = runs(kv, sort_by_keys(kv, indices_where(channels@.len(), any_filter())));
    let ghost pieces = Seq::new(rs.len(), |j: int| kv[rs[j][0] as int].1 + "="@ + decimal(rs[j].len()));
    proof {
        lemma_runs_nonempty(kv, sort_by_keys(kv, indices_where(channels@.len(), any_filter())), channels@.len());
    }
    let mut parts: Vec<String> = Vec::new();
    let mut j: usize = 0;
    while j < groups.len()
        invariant
            j <= groups.len(),
            groups@.len() == rs.len(),
            forall|k: int| 0 <= k < groups@.len() ==> (#[trigger] groups@[k])@ == rs[k],
            forall|k: int| 0 <= k < rs.len() ==> (#[trigger] rs[k]).len() > 0 && rs[k][0] < channels@.len(),
            key_views(keys@) == kv,
            keys.len() == channels.len(),
            parts@.len() == j,
            forall|k: int| 0 <= k < j ==> (#[trigger] parts@[k])@ == pieces[k],
        decreases groups.len() - j,
    {
        proof {
            assert(groups@[j as int]@ == rs[j as int]);
        }
        let first = groups[j][0];
        let mut piece = crate::text::string_of(&keys[first].1);
        piece.append("=");
        push_decimal(&mut piece, groups[j].len() as u64);
        proof {
            assert(kv[first as int].1 == keys@[first as int].1@);
            assert(first == rs[j as int][0]);
            assert(groups@[j as int]@.len() == rs[j as int].len());
            assert((groups@[j as int].len() as u64) as nat == rs[j as int].len());
            assert(piece@ == pieces[j as int]);
        }
        parts.push(piece);
        j = j + 1;
    }
    assert(string_views(parts@) =~= pieces);
    join_strings(&parts, ", ")
}

/// Every run of a sorted sequence of valid indices is non-empty and holds valid indices.
proof fn lemma_runs_nonempty(keys: Seq<Key>, s: Seq<usize>, n: nat)
    requires
        indices_in(s, n),
    ensures
        forall|k: int| 0 <= k < runs(keys, s).len() ==> (#[trigger] runs(keys, s)[k]).len() > 0
            && runs(keys, s)[k][0] < n,
    decreases s.len(),
{
    if s.len() > 0 {
        lemma_runs_nonempty(keys, s.drop_last(), n);
        assert(s[s.len() - 1] < n);
        let r = runs(keys, s.drop_last());
        if r.len() > 0 && keys[r.last().last() as int].1 == keys[s.last() as int].1 {
            assert forall|k: int| 0 <= k < runs(keys, s).len() implies (#[trigger] runs(keys, s)[k]).len() > 0
                && runs(keys, s)[k][0] < n by {
                if k < r.len() - 1 {
                    assert(runs(keys, s)[k] == r[k]);
                } else {
                    assert(runs(keys, s)[k][0] == r.last()[0]);
                }
            }
        } else {
            assert forall|k: int| 0 <= k < runs(keys, s).len() implies (#[trigger] runs(keys, s)[k]).len() > 0
                && runs(keys, s)[k][0] < n by {
                if k < r.len() {
                    assert(runs(keys, s)[k] == r[k]);
                }
            }
        }
    }
}

fn header_exec(guild_id: u64, channels: &Vec<Channel>) -> (r: String)
    requires
        total_overwrites(channels@, channels@.len()) <= usize::MAX,
    ensures
        r@ == header_text(guild_id, channels@),
{
    let counts = overwrite_counts(channels);
    let types = type_counts_exec(channels);
    let mut r = String::new();
    r.append("Hermes Watch server audit — guild `");
    push_decimal(&mut r, guild_id);
    r.append("`\n");
    r.append("Channels: ");
    push_decimal(&mut r, channels.len() as u64);
    r.append(" total\n");
    r.append("Types: ");
    r.append(types.as_str());
    r.append("\n");
    r.append("Custom permission overwrites: ");
    push_decimal(&mut r, counts.0 as u64);
    r.append(" channels (");
    push_decimal(&mut r, counts.1 as u64);
    r.append(" role, ");
    push_decimal(&mut r, counts.2 as u64);
    r.append(" member)\n");
    r
}

fn child_line_exec(c: &Channel) -> (r: String)
    ensures
        r@ == child_line(*c),
{
    let mut r = String::new();
    r.append("  ");
    if c.kind == VOICE_KIND {
        r.append("🔊");
    } else {
        r.append("#");
    }
    r.append(" ");
    r.append(c.name.as_str());
    if c.overwrites.len() > 0 {
        r.append(" [");
        push_decimal(&mut r, c.overwrites.len() as u64);
        r.append(" overwrites]");
    }
    r.append("\n");
    assert(r@ =~= child_line(*c));
    r
}

#[verifier::loop_isolation(false)]
fn category_block_exec(channels: &Vec<Channel>, lkeys: &Vec<(u64, Vec<char>)>, k: usize) -> (r: String)
    requires
        k < channels.len(),
        key_views(lkeys@) == layout_keys(channels@),
        lkeys.len() == channels.len(),
    ensures
        r@ == category_block(channels@, k as int),
{
    let kids = children_exec(channels, channels[k].id);
    let sorted = sort_indices(lkeys, &kids);
    let ghost ch = sorted_children(channels@, channels@[k as int].id);
    let ghost pieces = Seq::new(ch.len(), |j: int| child_line(channels@[ch[j] as int]));
    let mut r = String::new();
    r.append("📁 ");
    r.append(channels[k].name.as_str());
    r.append("\n");
    let ghost head = r@;
    if sorted.len() == 0 {
        r.append("  (empty)\n");
    } else {
        let mut j: usize = 0;
        while j < sorted.len()
            invariant
                j <= sorted.len(),
                r@ == head + concat(pieces.take(j as int)),
            decreases sorted.len() - j,
        {
            proof {
                assert(pieces.take(j + 1).drop_last() =~= pieces.take(j as int));
                assert(sorted@[j as int] < channels.len());
            }
            let line = child_line_exec(&channels[sorted[j]]);
            r.append(line.as_str());
            j = j + 1;
            proof {
                assert(r@ =~= head + concat(pieces.take(j as int)));
            }
        }
        assert(pieces.take(sorted.len() as int) =~= pieces);
    }
    r
}

#[verifier::loop_isolation(false)]
fn layout_exec(channels: &Vec<Channel>, lkeys: &Vec<(u64, Vec<char>)>) -> (r: String)
    requires
        key_views(lkeys@) == layout_keys(channels@),
        lkeys.len() == channels.len(),
    ensures
        r@ == layout_text(channels@),
{
    let cats = categories_exec(channels);
    let sorted = sort_indices(lkeys, &cats);
    let ghost cs = sorted_categories(channels@);
    let ghost pieces = Seq::new(cs.len(), |j: int| category_block(channels@, cs[j] as int));
    let mut r = String::new();
    r.append("\nChannel layout:\n");
    let ghost head = r@;
    let mut j: usize = 0;
    while j < sorted.len()
        invariant
            j <= sorted.len(),
            r@ == head + concat(pieces.take(j as int)),
        decreases sorted.len() - j,
    {
        proof {
            assert(pieces.take(j + 1).drop_last() =~= pieces.take(j as int));
            assert(sorted@[j as int] < channels.len());
        }
        let block = category_block_exec(channels, lkeys, sorted[j]);
        r.append(block.as_str());
        j = j + 1;
        proof {
            assert(r@ =~= head + concat(pieces.take(j as int)));
        }
    }
    assert(pieces.take(sorted.len() as int) =~= pieces);
    r
}

#[verifier::loop_isolation(false)]
fn uncategorized_text_exec(channels: &Vec<Channel>, lkeys: &Vec<(u64, Vec<char>)>) -> (r: String)
    requires
        key_views(lkeys@) == layout_keys(channels@),
        lkeys.len() == channels.len(),
    ensures
        r@ == uncategorized_text(channels@),
{
    let outside = uncategorized_exec(channels);
    let sorted = sort_indices(lkeys, &outside);
    let ghost u = sorted_uncategorized(channels@);
    let ghost pieces = Seq::new(u.len(), |j: int| "  # "@ + channels@[u[j] as int].name@ + "\n"@);
    let mut r = String::new();
    if sorted.len() == 0 {
        return r;
    }
    r.append("📂 Uncategorized\n");
    let ghost head = r@;
    let mut j: usize = 0;
    while j < sorted.len()
        invariant
            j <= sorted.len(),
            r@ == head + concat(pieces.take(j as int)),
        decreases sorted.len() - j,
    {
        proof {
            assert(pieces.take(j + 1).drop_last() =~= pieces.take(j as int));
            assert(sorted@[j as int] < channels.len());
        }
        r.append("  # ");
        r.append(channels[sorted[j]].name.as_str());
        r.append("\n");
        j = j + 1;
        proof {
            assert(r@ =~= head + concat(pieces.take(j as int)));
        }
    }
    assert(pieces.take(sorted.len() as int) =~= pieces);
    r
}

fn location_exec(channels: &Vec<Channel>, k: usize) -> (r: String)
    requires
        k < channels.len(),
    ensures
        r@ == location(channels@, k as int),
{
    let mut r = String::new();
    match channels[k].parent_id {
        Some(id) => match category_index_exec(channels, id) {
            Some(c) => r.append(channels[c].name.as_str()),
            None => r.append("Uncategorized"),
        },
        None => r.append("Uncategorized"),
    }
    r.append(" / #");
    r.append(channels[k].name.as_str());
    r
}

#[verifier::loop_isolation(false)]
fn duplicate_line_exec(channels: &Vec<Channel>, nkeys: &Vec<(u64, Vec<char>)>, group: &Vec<usize>) -> (r: String)
    requires
        key_views(nkeys@) == name_keys(channels@),
        nkeys.len() == channels.len(),
        indices_in(group@, channels@.len()),
    ensures
        r@ == duplicate_line(channels@, group@),
{
    let mut r = String::new();
    if group.len() <= 1 {
        return r;
    }
    let ghost locs = Seq::new(group@.len(), |j: int| location(channels@, group@[j] as int));
    let mut parts: Vec<String> = Vec::new();
    let mut j: usize = 0;
    while j < group.len()
        invariant
            j <= group.len(),
            parts@.len() == j,
            forall|t: int| 0 <= t < j ==> (#[trigger] parts@[t])@ == locs[t],
        decreases group.len() - j,
    {
        proof {
            assert(group@[j as int] < channels.len());
        }
        parts.push(location_exec(channels, group[j]));
        j = j + 1;
    }
    assert(string_views(parts@) =~= locs);
    let joined = join_strings(&parts, ", ");
    proof {
        assert(group@[0] < channels.len());
        assert(name_keys(channels@)[group@[0] as int].1 == nkeys@[group@[0] as int].1@);
    }
    let key = crate::text::string_of(&nkeys[group[0]].1);
    r.append("⚠️ `");
    r.append(key.as_str());
    r.append("` → ");
    r.append(joined.as_str());
    r.append("\n");
    r
}

proof fn lemma_runs_hold_indices(keys: Seq<Key>, s: Seq<usize>, n: nat)
    requires
        indices_in(s, n),
    ensures
        forall|k: int| 0 <= k < runs(keys, s).len() ==> indices_in(#[trigger] runs(keys, s)[k], n),
    decreases s.len(),
{
    if s.len() > 0 {
        lemma_runs_hold_indices(keys, s.drop_last(), n);
        assert(s[s.len() - 1] < n);
        let r = runs(keys, s.drop_last());
        assert forall|k: int| 0 <= k < runs(keys, s).len() implies indices_in(#[trigger] runs(keys, s)[k], n) by {
            if r.len() > 0 && keys[r.last().last() as int].1 == keys[s.last() as int].1 {
                if k < r.len() - 1 {
                    assert(runs(keys, s)[k] == r[k]);
                } else {
                    let g = r.last().push(s.last());
                    assert(indices_in(r[r.len() - 1], n));
                    assert forall|t: int| 0 <= t < g.len() implies (#[trigger] g[t]) < n by {
                        if t < g.len() - 1 {
                            assert(g[t] == r[r.len() - 1][t]);
                        }
                    }
                }
            } else {
                if k < r.len() {
                    assert(runs(keys, s)[k] == r[k]);
                } else {
                    assert(runs(keys, s)[k] =~= seq![s.last()]);
                }
            }
        }
    }
}

#[verifier::loop_isolation(false)]
fn overlaps_exec(channels: &Vec<Channel>, any_overwrites: bool) -> (r: String)
    requires
        any_overwrites == (channels_with_overwrites(channels@, channels@.len()) != 0),
    ensures
        r@ == overlaps_text(channels@),
{
    let nkeys = name_keys_exec(channels);
    let others = non_categories_exec(channels);
    let sorted = sort_indices(&nkeys, &others);
    let groups = runs_exec(&nkeys, &sorted);
    let ghost g = name_groups(channels@);
    let ghost pieces = Seq::new(g.len(), |j: int| duplicate_line(channels@, g[j]));
    proof {
        lemma_runs_hold_indices(name_keys(channels@), sorted@, channels@.len());
    }
    let mut dups = String::new();
    let mut j: usize = 0;
    while j < groups.len()
        invariant
            j <= groups.len(),
            dups@ == concat(pieces.take(j as int)),
        decreases groups.len() - j,
    {
        proof {
            assert(pieces.take(j + 1).drop_last() =~= pieces.take(j as int));
            assert(groups@[j as int]@ == g[j as int]);
        }
        let line = duplicate_line_exec(channels, &nkeys, &groups[j]);
        dups.append(line.as_str());
        j = j + 1;
        proof {
            assert(dups@ =~= concat(pieces.take(j as int)));
        }
    }
    assert(pieces.take(groups.len() as int) =~= pieces);
    let mut r = String::new();
    r.append("\nPotential overlaps:\n");
    if dups.as_str().is_empty() {
        r.append("✅ No duplicate channel names detected.\n");
    } else {
        r.append(dups.as_str());
    }
    if any_overwrites {
        r.append("ℹ️ Review channels marked with `[N overwrites]`; custom rules can create access overlap.\n");
    } else {
        r.append("✅ No channel-specific permission overwrites detected.\n");
    }
    r
}

/// The audit report of a guild's channels (the channels in any order; ties in
/// the layout keep that order).
pub fn audit_report(guild_id: u64, channels: &Vec<Channel>) -> (r: String)
    requires
        total_overwrites(channels@, channels@.len()) <= usize::MAX,
    ensures
        r@ == audit_text(guild_id, channels@),
{
    let counts = overwrite_counts(channels);
    let lkeys = layout_keys_exec(channels);
    let mut r = header_exec(guild_id, channels);
    let layout = layout_exec(channels, &lkeys);
    r.append(layout.as_str());
    let outside = uncategorized_text_exec(channels, &lkeys);
    r.append(outside.as_str());
    let overlaps = overlaps_exec(channels, counts.0 != 0);
    r.append(overlaps.as_str());
    r.append("\nNo messages, message content, or member lists were read.\n");
    r
}

// ---------------------------------------------------------------------------
// Splitting the report into messages.

/// The index of the first line feed in `s`, or its length when there is none.
pub open spec fn first_newline(s: Seq<char>) -> nat
    decreases s.len(),
{
    if s.len() == 0 {
        0
    } else if s[0] == '\n' {
        0
    } else {
        1 + first_newline(s.drop_first())
    }
}

/// A line without the carriage return of a "\r\n" ending.
pub open spec fn strip_cr(l: Seq<char>) -> Seq<char> {
    if l.len() > 0 && l.last() == '\r' {
        l.drop_last()
    } else {
        l
    }
}

/// `str::lines`: lines end at "\n" or "\r\n"; the last line ending is optional.
pub open spec fn lines(s: Seq<char>) -> Seq<Seq<char>>
    decreases s.len(),
{
    if s.len() == 0 {
        Seq::empty()
    } else {
        let i = first_newline(s);
        if i >= s.len() {
            seq![s]
        } else {
            seq![strip_cr(s.take(i as int))] + lines(s.skip(i + 1 as int))
        }
    }
}

/// The number of bytes UTF-8 takes for one character.
pub open spec fn utf8_width(c: char) -> nat {
    let u = c as u32;
    if u < 0x80 {
        1
    } else if u < 0x800 {
        2
    } else if u < 0x10000 {
        3
    } else {
        4
    }
}

/// The length of the UTF-8 encoding of `s`, which is what `str::len` counts.
pub open spec fn byte_len(s: Seq<char>) -> nat
    decreases s.len(),
{
    if s.len() == 0 {
        0
    } else {
        byte_len(s.drop_last()) + utf8_width(s.last())
    }
}

proof fn lemma_byte_len_concat(a: Seq<char>, b: Seq<char>)
    ensures
        byte_len(a + b) == byte_len(a) + byte_len(b),
    decreases b.len(),
{
    if b.len() == 0 {
        assert(a + b =~= a);
    } else {
        lemma_byte_len_concat(a, b.drop_last());
        assert((a + b).drop_last() =~= a + b.drop_last());
    }
}

/// The number of UTF-8 bytes of `s` (`str::len`).
fn byte_len_exec(s: &str) -> (r: u128)
    ensures
        r == byte_len(s@),
{
    let v = chars_of(s);
    let mut r: u128 = 0;
    let mut i: usize = 0;
    while i < v.len()
        invariant
            i <= v.len(),
            v@ == s@,
            r == byte_len(s@.take(i as int)),
            r <= 4 * i,
        decreases v.len() - i,
    {
        proof {
            assert(s@.take(i + 1).drop_last() =~= s@.take(i as int));
        }
        let u = v[i] as u32;
        let w: u128 = if u < 0x80 {
            1
        } else if u < 0x800 {
            2
        } else if u < 0x10000 {
            3
        } else {
            4
        };
        r = r + w;
        i = i + 1;
    }
    assert(s@.take(v.len() as int) =~= s@);
    r
}

/// The chunks finished so far and the chunk being filled, after taking `ls`
/// line by line: a line joins the current chunk (after a "\n") unless that
/// would make a non-empty chunk longer than `max` bytes, in which case the
/// chunk is finished first.
pub open spec fn chunk_state(ls: Seq<Seq<char>>, max: nat) -> (Seq<Seq<char>>, Seq<char>)
    decreases ls.len(),
{
    if ls.len() == 0 {
        (Seq::empty(), Seq::empty())
    } else {
        let (done, cur) = chunk_state(ls.drop_last(), max);
        let line = ls.last();
        let line_len = byte_len(line) + if cur.len() > 0 {
            1nat
        } else {
            0nat
        };
        let (done2, cur2) = if cur.len() > 0 && byte_len(cur) + line_len > max {
            (done.push(cur), Seq::empty())
        } else {
            (done, cur)
        };
        (done2, if cur2.len() > 0 {
            cur2 + "\n"@ + line
        } else {
            line
        })
    }
}

/// The chunks of `ls` for messages of at most `max` bytes.
pub open spec fn chunk_lines(ls: Seq<Seq<char>>, max: nat) -> Seq<Seq<char>> {
    let (done, cur) = chunk_state(ls, max);
    if cur.len() > 0 {
        done.push(cur)
    } else {
        done
    }
}

proof fn lemma_first_newline(t: Seq<char>, m: int)
    requires
        0 <= m <= t.len(),
        forall|k: int| 0 <= k < m ==> t[k] != '\n',
        m == t.len() || t[m] == '\n',
    ensures
        first_newline(t) == m,
    decreases m,
{
    if m > 0 {
        lemma_first_newline(t.drop_first(), m - 1);
    }
}

/// One step of the chunking: takes `line` into `cur`, finishing `cur` first if needed.
fn chunk_step(done: &mut Vec<String>, cur: &mut String, cur_len: &mut u128, line: String, max_bytes: usize)
    requires
        *old(cur_len) == byte_len(old(cur)@),
        byte_len(old(cur)@) + byte_len(line@) + 1 < u128::MAX,
    ensures
        ({
            let prev = (string_views(old(done)@), old(cur)@);
            let line_len = byte_len(line@) + if prev.1.len() > 0 {
                1nat
            } else {
                0nat
            };
            let (done2, cur2) = if prev.1.len() > 0 && byte_len(prev.1) + line_len > max_bytes {
                (prev.0.push(prev.1), Seq::<char>::empty())
            } else {
                (prev.0, prev.1)
            };
            &&& string_views(final(done)@) == done2
            &&& final(cur)@ == if cur2.len() > 0 {
                cur2 + "\n"@ + line@
            } else {
                line@
            }
        }),
        *final(cur_len) == byte_len(final(cur)@),
{
    let len = byte_len_exec(line.as_str());
    let nonempty = !cur.as_str().is_empty();
    let line_len: u128 = len + if nonempty {
        1u128
    } else {
        0u128
    };
    if nonempty && *cur_len + line_len > max_bytes as u128 {
        let mut finished = String::new();
        std::mem::swap(&mut finished, cur);
        done.push(finished);
        *cur_len = 0;
        assert(string_views(done@) =~= string_views(old(done)@).push(old(cur)@));
    }
    proof {
        reveal_strlit("\n");
        lemma_byte_len_concat(cur@, "\n"@);
        lemma_byte_len_concat(cur@ + "\n"@, line@);
        assert(byte_len("\n"@) == 1) by {
            assert("\n"@.len() == 1);
            assert("\n"@[0] == '\n');
            assert("\n"@.drop_last() =~= Seq::<char>::empty());
            assert(byte_len("\n"@.drop_last()) == 0);
            assert(utf8_width('\n') == 1);
        }
    }
    if !cur.as_str().is_empty() {
        cur.append("\n");
        *cur_len = *cur_len + 1;
    }
    cur.append(line.as_str());
    *cur_len = *cur_len + len;
}

proof fn lemma_byte_len_bound(s: Seq<char>)
    ensures
        byte_len(s) <= 4 * s.len(),
    decreases s.len(),
{
    if s.len() > 0 {
        lemma_byte_len_bound(s.drop_last());
    }
}

/// A string of the characters `v[from..to]`.
fn string_of_range(v: &Vec<char>, from: usize, to: usize) -> (r: String)
    requires
        from <= to <= v.len(),
    ensures
        r@ == v@.subrange(from as int, to as int),
{
    let mut r = String::new();
    let mut i: usize = from;
    while i < to
        invariant
            from <= i <= to,
            to <= v.len(),
            r@ == v@.subrange(from as int, i as int),
        decreases to - i,
    {
        push_char(&mut r, v[i]);
        i = i + 1;
        assert(r@ =~= v@.subrange(from as int, i as int));
    }
    r
}

/// The report cut into chunks of whole lines of at most `max_bytes` bytes each
/// (a single longer line stands alone in its chunk).
pub fn split_report(report: &str, max_bytes: usize) -> (r: Vec<String>)
    ensures
        string_views(r@) == chunk_lines(lines(report@), max_bytes as nat),
{
    let v = chars_of(report);
    let n = v.len();
    let ghost s = report@;
    let mut done: Vec<String> = Vec::new();
    let mut cur = String::new();
    let mut cur_len: u128 = 0;
    let ghost mut taken: Seq<Seq<char>> = Seq::empty();
    let mut start: usize = 0;
    assert(s.skip(0) =~= s);
    assert(string_views(done@) =~= Seq::<Seq<char>>::empty());
    while start < n
        invariant
            v@ == s,
            n == v.len(),
            start <= n,
            lines(s) == taken + lines(s.skip(start as int)),
            (string_views(done@), cur@) == chunk_state(taken, max_bytes as nat),
            cur_len == byte_len(cur@),
            cur@.len() <= 2 * start,
        decreases n - start,
    {
        let mut j: usize = start;
        while j < n && v[j] != '\n'
            invariant
                v@ == s,
                n == v.len(),
                start <= j <= n,
                forall|k: int| start <= k < j ==> v@[k] != '\n',
            decreases n - j,
        {
            j = j + 1;
        }
        let ghost t = s.skip(start as int);
        proof {
            assert forall|k: int| 0 <= k < j - start implies t[k] != '\n' by {
                assert(t[k] == v@[k + start]);
            }
            if j < n {
                assert(t[j - start] == v@[j as int]);
            }
            lemma_first_newline(t, j - start);
        }
        let mut end: usize = j;
        if j < n && end > start && v[end - 1] == '\r' {
            end = end - 1;
        }
        let line = string_of_range(&v, start, end);
        proof {
            if j < n {
                assert(t.take(j - start) =~= s.subrange(start as int, j as int));
                if end < j {
                    assert(strip_cr(t.take(j - start)) =~= line@);
                } else {
                    assert(strip_cr(t.take(j - start)) =~= line@);
                }
                assert(t.skip(j - start + 1) =~= s.skip(j + 1));
                assert(lines(t) == seq![line@] + lines(s.skip(j + 1)));
            } else {
                assert(t =~= line@);
                assert(lines(t) == seq![line@]);
                assert(s.skip(n as int) =~= Seq::<char>::empty());
            }
            lemma_byte_len_bound(cur@);
            lemma_byte_len_bound(line@);
            assert(taken.push(line@).drop_last() =~= taken);
        }
        let ghost line_view = line@;
        let ghost old_cur_len = cur@.len();
        chunk_step(&mut done, &mut cur, &mut cur_len, line, max_bytes);
        proof {
            taken = taken.push(line_view);
            reveal_strlit("\n");
            assert(line_view.len() <= j - start);
            assert(cur@.len() <= old_cur_len + 1 + line_view.len());
        }
        if j >= n {
            start = n;
            proof {
                assert(lines(s) =~= taken + lines(s.skip(start as int)));
            }
        } else {
            start = j + 1;
            proof {
                assert(lines(s) =~= taken + lines(s.skip(start as int)));
            }
        }
    }
    proof {
        assert(s.skip(n as int) =~= Seq::<char>::empty());
        assert(taken =~= lines(s));
    }
    if !cur.as_str().is_empty() {
        done.push(cur);
        assert(string_views(done@) =~= chunk_state(taken, max_bytes as nat).0.push(chunk_state(taken, max_bytes as nat).1));
    }
    done
}

/// The most bytes of report text one audit message carries.
pub const MESSAGE_LIMIT: usize = 1800;

/// One message of the audit: the chunk in a text code block, the chunks after
/// the first headed "Audit continued:".
pub open spec fn audit_message(index: int, chunk: Seq<char>) -> Seq<char> {
    (if index == 0 {
        Seq::empty()
    } else {
        "Audit continued:\n"@
    }) + "```text\n"@ + chunk + "\n```"@
}

/// The messages that carry an audit report.
pub fn audit_messages(report: &str) -> (r: Vec<String>)
    ensures
        r@.len() == chunk_lines(lines(report@), MESSAGE_LIMIT as nat).len(),
        forall|k: int| 0 <= k < r@.len() ==> (#[trigger] r@[k])@ == audit_message(
            k,
            chunk_lines(lines(report@), MESSAGE_LIMIT as nat)[k],
        ),
{
    let chunks = split_report(report, MESSAGE_LIMIT);
    let ghost cv = chunk_lines(lines(report@), MESSAGE_LIMIT as nat);
    let mut r: Vec<String> = Vec::new();
    let mut i: usize = 0;
    while i < chunks.len()
        invariant
            i <= chunks.len(),
            string_views(chunks@) == cv,
            r@.len() == i,
            forall|k: int| 0 <= k < i ==> (#[trigger] r@[k])@ == audit_message(k, cv[k]),
        decreases chunks.len() - i,
    {
        let mut m = String::new();
        if i > 0 {
            m.append("Audit continued:\n");
        }
        m.append("```text\n");
        m.append(chunks[i].as_str());
        m.append("\n```");
        proof {
            assert(cv[i as int] == chunks@[i as int]@);
            assert(m@ =~= audit_message(i as int, cv[i as int]));
        }
        r.push(m);
        i = i + 1;
    }
    r
}

proof fn lemma_first_newline_facts(t: Seq<char>)
    ensures
        first_newline(t) <= t.len(),
        forall|k: int| 0 <= k < first_newline(t) ==> t[k] != '\n',
        first_newline(t) < t.len() ==> t[first_newline(t) as int] == '\n',
    decreases t.len(),
{
    if t.len() > 0 && t[0] != '\n' {
        lemma_first_newline_facts(t.drop_first());
        assert forall|k: int| 0 <= k < first_newline(t) implies t[k] != '\n' by {
            if k > 0 {
                assert(t[k] == t.drop_first()[k - 1]);
            }
        }
    }
}

/// No line of `str::lines` holds a line feed.
proof fn lemma_lines_have_no_newline(s: Seq<char>)
    ensures
        forall|k: int| 0 <= k < lines(s).len() ==> !(#[trigger] lines(s)[k]).contains('\n'),
    decreases s.len(),
{
    if s.len() > 0 {
        let i = first_newline(s);
        lemma_first_newline_facts(s);
        if i < s.len() {
            lemma_lines_have_no_newline(s.skip(i + 1 as int));
            let head = strip_cr(s.take(i as int));
            assert(!head.contains('\n')) by {
                if head.contains('\n') {
                    let k = choose|k: int| 0 <= k < head.len() && head[k] == '\n';
                    assert(s.take(i as int)[k] == '\n');
                }
            }
            assert forall|k: int| 0 <= k < lines(s).len() implies !(#[trigger] lines(s)[k]).contains('\n') by {
                if k > 0 {
                    assert(lines(s)[k] == lines(s.skip(i + 1 as int))[k - 1]);
                }
            }
        } else {
            assert(!s.contains('\n')) by {
                if s.contains('\n') {
                    let k = choose|k: int| 0 <= k < s.len() && s[k] == '\n';
                }
            }
        }
    }
}

/// A chunk is fit to send: it is not empty, and it is within `max` bytes
/// unless it is a single line.
pub open spec fn fit_chunk(c: Seq<char>, max: nat) -> bool {
    c.len() > 0 && (byte_len(c) <= max || !c.contains('\n'))
}

proof fn lemma_chunk_state_fit(ls: Seq<Seq<char>>, max: nat)
    requires
        forall|k: int| 0 <= k < ls.len() ==> !(#[trigger] ls[k]).contains('\n'),
    ensures
        forall|k: int| 0 <= k < chunk_state(ls, max).0.len() ==> fit_chunk(#[trigger] chunk_state(ls, max).0[k], max),
        chunk_state(ls, max).1.len() > 0 ==> fit_chunk(chunk_state(ls, max).1, max),
    decreases ls.len(),
{
    if ls.len() > 0 {
        let prev = ls.drop_last();
        assert forall|k: int| 0 <= k < prev.len() implies !(#[trigger] prev[k]).contains('\n') by {
            assert(prev[k] == ls[k]);
        }
        lemma_chunk_state_fit(prev, max);
        let (done, cur) = chunk_state(prev, max);
        let line = ls.last();
        assert(!line.contains('\n'));
        reveal_strlit("\n");
        lemma_byte_len_concat(cur, "\n"@);
        lemma_byte_len_concat(cur + "\n"@, line);
        assert(byte_len("\n"@) == 1) by {
            assert("\n"@.drop_last() =~= Seq::<char>::empty());
            assert(byte_len("\n"@.drop_last()) == 0);
        }
        let line_len = byte_len(line) + if cur.len() > 0 {
            1nat
        } else {
            0nat
        };
        if cur.len() > 0 && byte_len(cur) + line_len > max {
            assert forall|k: int| 0 <= k < done.push(cur).len() implies fit_chunk(#[trigger] done.push(cur)[k], max) by {
                if k < done.len() {
                    assert(done.push(cur)[k] == done[k]);
                }
            }
        } else if cur.len() > 0 {
            assert((cur + "\n"@ + line).len() > 0);
        }
    }
}

/// Every chunk of a split report is non-empty, and a chunk longer than the
/// byte limit is one single line (a line that alone exceeds it).
pub proof fn lemma_split_report_chunks_fit(report: Seq<char>, max: nat)
    ensures
        forall|k: int| 0 <= k < chunk_lines(lines(report), max).len() ==> fit_chunk(
            #[trigger] chunk_lines(lines(report), max)[k],
            max,
        ),
{
    lemma_lines_have_no_newline(report);
    lemma_chunk_state_fit(lines(report), max);
    let (done, cur) = chunk_state(lines(report), max);
    if cur.len() > 0 {
        assert forall|k: int| 0 <= k < done.push(cur).len() implies fit_chunk(#[trigger] done.push(cur)[k], max) by {
            if k < done.len() {
                assert(done.push(cur)[k] == done[k]);
            }
        }
    }
}

} // verus!
