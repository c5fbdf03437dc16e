//! Pushing the checked-out branch: where it can go, and pushing exactly the
//! commit that was shown, never forced. A rejection is explained; nothing is
//! fetched, merged or rebased.
use crate::bytes::{lossy, lossy_text, utf8, utf8_text};
use crate::commit::{busy, busy_text};
use crate::git::{cleared, stopped, summarized, summary, what_runs, Repo, State};
use crate::github::opt;
use crate::order::{
    key_order, sort, sorted_by, sorting_orders, sorting_sorts_views, text_le, text_le_total,
    text_le_transitive, text_not_after, Keyed,
};
use crate::process::{message_of, Output};
use crate::review::{safe, safe_text, Review};
use crate::session::Message;
use crate::text::{
    after_prefix, all_hex, chars, clip, clippable, clipped, contains, cut, decimal, has, has_prefix,
    lines, listed, parse_max, part, push_decimal, read_number, same, slices, split_lines,
    split_once, starts_with, strip, strip_prefix, text, trimmed, views,
};
use std::sync::Arc;
use vstd::prelude::*;

verus! {

// ---------------------------------------------------------------------------
// Destinations
// ---------------------------------------------------------------------------

#[derive(Debug)]
pub struct Destination {
    pub remote: String,
    /// Branch on the remote.
    pub branch: String,
    /// Make this destination the branch's upstream after pushing.
    pub set_upstream: bool,
    pub note: &'static str,
}

pub struct DestinationView {
    pub remote: Seq<char>,
    pub branch: Seq<char>,
    pub set_upstream: bool,
    pub note: Seq<char>,
}

impl View for Destination {
    type V = DestinationView;

    open spec fn view(&self) -> DestinationView {
        DestinationView {
            remote: self.remote@,
            branch: self.branch@,
            set_upstream: self.set_upstream,
            note: self.note@,
        }
    }
}

pub open spec fn destination_views(d: Seq<Destination>) -> Seq<DestinationView> {
    d.map_values(|x: Destination| x@)
}

pub open spec fn pair(p: Option<(String, String)>) -> Option<(Seq<char>, Seq<char>)> {
    match p {
        Some(p) => Some((p.0@, p.1@)),
        None => None,
    }
}

/// Which remotes come first: the pull request's head repository, the configured
/// default, `origin`, all others.
pub open spec fn rank_of(
    remote: Seq<char>,
    head_remote: Option<Seq<char>>,
    push_default: Option<Seq<char>>,
) -> int {
    if head_remote == Some(remote) {
        0
    } else if push_default == Some(remote) {
        1
    } else if remote == "origin"@ {
        2
    } else {
        3
    }
}

pub open spec fn remote_le(
    a: Seq<char>,
    b: Seq<char>,
    head_remote: Option<Seq<char>>,
    push_default: Option<Seq<char>>,
) -> bool {
    let x = rank_of(a, head_remote, push_default);
    let y = rank_of(b, head_remote, push_default);
    if x != y {
        x < y
    } else {
        text_le(a, b)
    }
}

pub open spec fn remote_order(
    head_remote: Option<Seq<char>>,
    push_default: Option<Seq<char>>,
) -> spec_fn(Seq<char>, Seq<char>) -> bool {
    |a: Seq<char>, b: Seq<char>| remote_le(a, b, head_remote, push_default)
}

/// A remote that the branch would be new on.
pub open spec fn new_destination(
    remote: Seq<char>,
    branch: Seq<char>,
    head_remote: Option<Seq<char>>,
) -> DestinationView {
    DestinationView {
        remote,
        branch,
        set_upstream: true,
        note: if head_remote == Some(remote) {
            "PR head repository · new branch, sets upstream"@
        } else {
            "new branch, sets upstream"@
        },
    }
}

pub open spec fn upstream_choices(
    branch: Seq<char>,
    remote: Seq<char>,
    target: Seq<char>,
) -> Seq<DestinationView> {
    let first = DestinationView {
        remote,
        branch: target,
        set_upstream: false,
        note: "upstream"@,
    };
    if target == branch {
        seq![first]
    } else {
        seq![
            first,
            DestinationView {
                remote,
                branch,
                set_upstream: false,
                note: "same name as the local branch"@,
            },
        ]
    }
}

/// Where the branch can be pushed, the default first.
pub open spec fn choices(
    branch: Seq<char>,
    remotes: Seq<Seq<char>>,
    upstream: Option<(Seq<char>, Seq<char>)>,
    push: Option<(Seq<char>, Seq<char>)>,
    head_remote: Option<Seq<char>>,
    push_default: Option<Seq<char>>,
) -> Seq<DestinationView> {
    match (push, upstream) {
        (Some(p), _) => seq![
            DestinationView {
                remote: p.0,
                branch: p.1,
                set_upstream: false,
                note: if upstream == Some(p) {
                    "upstream"@
                } else {
                    "configured push destination"@
                },
            },
        ],
        (None, Some(u)) => upstream_choices(branch, u.0, u.1),
        (None, None) => sorted_by(remotes, remote_order(head_remote, push_default)).map_values(
            |r: Seq<char>| new_destination(r, branch, head_remote),
        ),
    }
}

/// A remote with its rank.
struct Ranked {
    name: String,
    rank: u8,
}

impl Keyed for Ranked {
    closed spec fn le(&self, other: &Ranked) -> bool {
        if self.rank != other.rank {
            self.rank < other.rank
        } else {
            text_le(self.name@, other.name@)
        }
    }

    proof fn total(a: &Ranked, b: &Ranked) {
        text_le_total(a.name@, b.name@);
    }

    proof fn transitive(a: &Ranked, b: &Ranked, c: &Ranked) {
        if a.rank == b.rank && b.rank == c.rank {
            text_le_transitive(a.name@, b.name@, c.name@);
        }
    }

    fn not_after(&self, other: &Ranked) -> (r: bool) {
        if self.rank != other.rank {
            self.rank < other.rank
        } else {
            text_not_after(&chars(&self.name), &chars(&other.name))
        }
    }
}

fn is(a: Option<&str>, b: &str) -> (r: bool)
    ensures
        r == (opt(a) == Some(b@)),
{
    match a {
        Some(a) => same(a, b),
        None => false,
    }
}

/// Where the branch can be pushed, the default first. `push` is Git's
/// `@{push}` and `upstream` the configured upstream, as (remote, branch).
/// Without either, every remote is offered as a new upstream; `head_remote`
/// (the PR's head repository), `push_default` and `origin` come first.
pub fn destinations(
    branch: &str,
    remotes: &Vec<String>,
    upstream: Option<(String, String)>,
    push: Option<(String, String)>,
    head_remote: Option<&str>,
    push_default: Option<&str>,
) -> (r: Vec<Destination>)
    ensures
        destination_views(r@) == choices(
            branch@,
            views(remotes@),
            pair(upstream),
            pair(push),
            opt(head_remote),
            opt(push_default),
        ),
{
    let mut r: Vec<Destination> = Vec::new();
    match push {
        Some((remote, target)) => {
            let known = match &upstream {
                Some((a, b)) => same(a, &remote) && same(b, &target),
                None => false,
            };
            r.push(
                Destination {
                    remote,
                    branch: target,
                    set_upstream: false,
                    note: if known {
                        "upstream"
                    } else {
                        "configured push destination"
                    },
                },
            );
            assert(destination_views(r@) =~= choices(
                branch@,
                views(remotes@),
                pair(upstream),
                pair(push),
                opt(head_remote),
                opt(push_default),
            ));
            return r;
        },
        None => {},
    }
    match upstream {
        Some((remote, target)) => {
            // Git cannot decide (e.g. `push.default=simple` with a differently
            // named upstream, or no remote-tracking branch yet).
            let other = !same(&target, branch);
            let again = remote.clone();
            r.push(
                Destination { remote, branch: target, set_upstream: false, note: "upstream" },
            );
            if other {
                r.push(
                    Destination {
                        remote: again,
                        branch: branch.to_owned(),
                        set_upstream: false,
                        note: "same name as the local branch",
                    },
                );
            }
            assert(destination_views(r@) =~= upstream_choices(branch@, again@, target@));
            return r;
        },
        None => {},
    }
    let ghost names = views(remotes@);
    let ghost head = opt(head_remote);
    let ghost default = opt(push_default);
    let mut ranked: Vec<Ranked> = Vec::new();
    let mut i: usize = 0;
    while i < remotes.len()
        invariant
            i <= remotes@.len(),
            names == views(remotes@),
            head == opt(head_remote),
            default == opt(push_default),
            ranked@.len() == i,
            forall|k: int|
                0 <= k < i ==> (#[trigger] ranked@[k]).name@ == names[k] && ranked@[k].rank
                    == rank_of(names[k], head, default),
        decreases remotes@.len() - i,
    {
        let name = remotes[i].clone();
        let rank: u8 = if is(head_remote, &name) {
            0
        } else if is(push_default, &name) {
            1
        } else if same(&name, "origin") {
            2
        } else {
            3
        };
        assert(names[i as int] == name@);
        ranked.push(Ranked { name, rank });
        i += 1;
    }
    let ghost unsorted = ranked@;
    let ranked = sort(ranked);
    proof {
        let f = |x: Ranked| x.name@;
        sorting_sorts_views(unsorted, key_order::<Ranked>(), f, remote_order(head, default));
        assert(unsorted.map_values(f) =~= names);
        assert(ranked@.map_values(f) == sorted_by(names, remote_order(head, default)));
    }
    let ghost wanted = choices(branch@, names, None, None, head, default);
    let ghost ordered_names = sorted_by(names, remote_order(head, default));
    assert(ranked@.map_values(|x: Ranked| x.name@).len() == ranked@.len());
    let mut k: usize = 0;
    assert(destination_views(r@) =~= wanted.take(0));
    while k < ranked.len()
        invariant
            k <= ranked@.len(),
            head == opt(head_remote),
            ordered_names == ranked@.map_values(|x: Ranked| x.name@),
            wanted == ordered_names.map_values(
                |x: Seq<char>| new_destination(x, branch@, head),
            ),
            destination_views(r@) == wanted.take(k as int),
        decreases ranked@.len() - k,
    {
        let ghost before = destination_views(r@);
        let note = if is(head_remote, &ranked[k].name) {
            "PR head repository · new branch, sets upstream"
        } else {
            "new branch, sets upstream"
        };
        let d = Destination {
            remote: ranked[k].name.clone(),
            branch: branch.to_owned(),
            set_upstream: true,
            note,
        };
        assert(ordered_names[k as int] == ranked@[k as int].name@);
        assert(d@ == wanted[k as int]);
        r.push(d);
        assert(destination_views(r@) =~= before.push(d@));
        assert(wanted.take(k as int + 1) =~= wanted.take(k as int).push(wanted[k as int]));
        k += 1;
    }
    assert(wanted.take(k as int) =~= wanted);
    r
}

/// Without a configured destination every remote is offered once.
pub proof fn every_remote_is_offered(
    branch: Seq<char>,
    remotes: Seq<Seq<char>>,
    head_remote: Option<Seq<char>>,
    push_default: Option<Seq<char>>,
)
    ensures
        ({
            let offered = choices(branch, remotes, None, None, head_remote, push_default);
            &&& offered.map_values(|d: DestinationView| d.remote).to_multiset()
                == remotes.to_multiset()
            &&& forall|i: int|
                0 <= i < offered.len() ==> (#[trigger] offered[i]).set_upstream
                    && offered[i].branch == branch
        }),
{
    let le = remote_order(head_remote, push_default);
    assert forall|a: Seq<char>, b: Seq<char>| #[trigger] le(a, b) || le(b, a) by {
        text_le_total(a, b);
    }
    assert forall|a: Seq<char>, b: Seq<char>, c: Seq<char>| #[trigger]
        le(a, b) && #[trigger] le(b, c) implies le(a, c) by {
        if rank_of(a, head_remote, push_default) == rank_of(b, head_remote, push_default)
            && rank_of(b, head_remote, push_default) == rank_of(c, head_remote, push_default) {
            text_le_transitive(a, b, c);
        }
    }
    sorting_orders(remotes, le);
    let offered = choices(branch, remotes, None, None, head_remote, push_default);
    assert(offered.map_values(|d: DestinationView| d.remote) =~= sorted_by(remotes, le));
}

/// A configured destination keeps the upstream as it is.
pub proof fn configured_upstreams_are_kept(
    branch: Seq<char>,
    remotes: Seq<Seq<char>>,
    upstream: Option<(Seq<char>, Seq<char>)>,
    push: Option<(Seq<char>, Seq<char>)>,
    head_remote: Option<Seq<char>>,
    push_default: Option<Seq<char>>,
)
    requires
        upstream is Some || push is Some,
    ensures
        ({
            let offered = choices(branch, remotes, upstream, push, head_remote, push_default);
            &&& 1 <= offered.len() <= 2
            &&& forall|i: int|
                0 <= i < offered.len() ==> !(#[trigger] offered[i]).set_upstream
        }),
{
}

// ---------------------------------------------------------------------------
// Rejections
// ---------------------------------------------------------------------------

/// The reason behind the first `[remote rejected]` from line `i` on.
pub open spec fn remote_reason(rows: Seq<Seq<char>>, i: int) -> Option<Seq<char>>
    decreases rows.len() - i,
{
    if i < 0 || i >= rows.len() {
        None
    } else {
        match split_once(rows[i], "[remote rejected]"@) {
            Some((_, reason)) => Some(trimmed(reason)),
            None => remote_reason(rows, i + 1),
        }
    }
}

pub open spec fn rejected(
    stdout: Seq<char>,
    message: Seq<char>,
    destination: Seq<char>,
) -> Seq<char> {
    if contains(stdout, "(non-fast-forward)"@) || contains(stdout, "(fetch first)"@) {
        "Push rejected: "@ + destination
            + " has commits that are not in your branch. Integrate them outside Helix (for example git pull --rebase), then push again; Helix never force-pushes"@
    } else {
        match remote_reason(lines(stdout), 0) {
            Some(reason) => "Push rejected by the remote: "@ + safe(reason),
            None => "Push failed: "@ + summarized(message, 3),
        }
    }
}

/// A rejected or failed push, explained. Never suggests forcing.
pub fn rejection(stdout: &str, message: &str, destination: &str) -> (r: String)
    ensures
        r@ == rejected(stdout@, message@, destination@),
{
    let all = chars(stdout);
    if has(&all, "(non-fast-forward)") || has(&all, "(fetch first)") {
        let mut r = "Push rejected: ".to_owned();
        r.append(destination);
        r.append(
            " has commits that are not in your branch. Integrate them outside Helix (for example git pull --rebase), then push again; Helix never force-pushes",
        );
        return r;
    }
    let rows = split_lines(&all);
    let ghost given = slices(rows@);
    let mut i: usize = 0;
    while i < rows.len()
        invariant
            i <= rows@.len(),
            given == slices(rows@),
            given == lines(stdout@),
            !contains(stdout@, "(non-fast-forward)"@),
            !contains(stdout@, "(fetch first)"@),
            remote_reason(given, 0) == remote_reason(given, i as int),
        decreases rows@.len() - i,
    {
        assert(given[i as int] == rows@[i as int]@);
        match cut(rows[i], "[remote rejected]") {
            Some((_before, reason)) => {
                let mut r = "Push rejected by the remote: ".to_owned();
                r.append(&safe_text(&text(strip(reason))));
                return r;
            },
            None => {},
        }
        i += 1;
    }
    let mut r = "Push failed: ".to_owned();
    r.append(&summary(message, 3));
    r
}

// ---------------------------------------------------------------------------
// Preparing a push
// ---------------------------------------------------------------------------

/// A remote's name that can be handed to Git: one that starts with `-` could be
/// taken for an option.
pub open spec fn usable(name: Seq<char>) -> bool {
    name.len() > 0 && name[0] != '-'
}

pub open spec fn usable_names(rows: Seq<Seq<char>>) -> Seq<Seq<char>>
    decreases rows.len(),
{
    if rows.len() == 0 {
        seq![]
    } else if usable(rows.last()) {
        usable_names(rows.drop_last()).push(rows.last())
    } else {
        usable_names(rows.drop_last())
    }
}

/// The remotes that `git remote` printed.
pub fn read_remotes(printed: &str) -> (r: Result<Vec<String>, &'static str>)
    ensures
        match r {
            Ok(remotes) => views(remotes@) == usable_names(lines(printed@)) && remotes@.len() > 0,
            Err(e) => usable_names(lines(printed@)).len() == 0 && e@
                == "No Git remote is configured; add one with git remote add"@,
        },
{
    let all = chars(printed);
    let rows = split_lines(&all);
    let ghost given = slices(rows@);
    let mut r: Vec<String> = Vec::new();
    let mut i: usize = 0;
    assert(views(r@) =~= seq![]);
    while i < rows.len()
        invariant
            i <= rows@.len(),
            given == slices(rows@),
            views(r@) == usable_names(given.take(i as int)),
        decreases rows@.len() - i,
    {
        let ghost before = views(r@);
        proof {
            assert(given.take(i as int + 1).drop_last() =~= given.take(i as int));
            assert(given[i as int] == rows@[i as int]@);
        }
        let row = rows[i];
        if row.len() > 0 && row[0] != '-' {
            r.push(text(row));
            assert(views(r@) =~= before.push(row@));
        }
        i += 1;
    }
    assert(given.take(i as int) =~= given);
    assert(views(r@).len() == r@.len());
    if r.len() == 0 {
        return Err("No Git remote is configured; add one with git remote add");
    }
    Ok(r)
}

/// The names that are left can be handed to Git.
pub proof fn remotes_are_never_options(rows: Seq<Seq<char>>)
    ensures
        forall|i: int| 0 <= i < usable_names(rows).len() ==> usable(#[trigger] usable_names(rows)[i]),
    decreases rows.len(),
{
    if rows.len() > 0 {
        let t = rows.drop_last();
        remotes_are_never_options(t);
        let r = usable_names(rows);
        assert forall|i: int| 0 <= i < r.len() implies usable(#[trigger] r[i]) by {
            if i < usable_names(t).len() {
                assert(r[i] == usable_names(t)[i]);
            }
        }
    }
}

/// The upstream that is configured, if it is a branch of a known remote.
pub fn configured_upstream(remote: Option<&str>, merge: Option<&str>, remotes: &Vec<String>) -> (r:
    Option<(String, String)>)
    ensures
        pair(r) == (match (remote, merge) {
            (Some(remote), Some(merge)) => if views(remotes@).contains(remote@) {
                match strip_prefix(merge@, "refs/heads/"@) {
                    Some(target) => Some((remote@, target)),
                    None => None,
                }
            } else {
                None
            },
            _ => None,
        }),
{
    match (remote, merge) {
        (Some(remote), Some(merge)) => {
            if !listed(remotes, remote) {
                return None;
            }
            let all = chars(merge);
            match after_prefix(&all, "refs/heads/") {
                Some(target) => Some((remote.to_owned(), text(target))),
                None => None,
            }
        },
        _ => None,
    }
}

/// Among the first `n` remotes, the one with the longest name that the reference
/// belongs to; the last of those with equal names.
pub open spec fn owner(remotes: Seq<Seq<char>>, reference: Seq<char>, n: int) -> Option<int>
    decreases n,
{
    if n <= 0 {
        None
    } else {
        let best = owner(remotes, reference, n - 1);
        if !starts_with(reference, remotes[n - 1] + "/"@) {
            best
        } else {
            match best {
                Some(b) => if remotes[b].len() > remotes[n - 1].len() {
                    best
                } else {
                    Some(n - 1)
                },
                None => Some(n - 1),
            }
        }
    }
}

pub open spec fn push_reference(
    printed: Option<Seq<char>>,
    remotes: Seq<Seq<char>>,
) -> Option<(Seq<char>, Seq<char>)> {
    match printed {
        Some(printed) => match strip_prefix(trimmed(printed), "refs/remotes/"@) {
            Some(reference) => match owner(remotes, reference, remotes.len() as int) {
                Some(i) => Some((remotes[i], reference.skip(remotes[i].len() as int + 1))),
                None => None,
            },
            None => None,
        },
        None => None,
    }
}

/// Where Git would push, read from what `git rev-parse --symbolic-full-name
/// @{push}` printed.
pub fn push_destination(out: Option<&Output>, remotes: &Vec<String>) -> (r: Option<
    (String, String),
>)
    ensures
        pair(r) == push_reference(
            match out {
                Some(out) => if out.success {
                    utf8_text(out.stdout@)
                } else {
                    None
                },
                None => None,
            },
            views(remotes@),
        ),
{
    let out = match out {
        Some(out) => out,
        None => return None,
    };
    if !out.success {
        return None;
    }
    let all = match utf8(&out.stdout) {
        Some(s) => chars(s),
        None => return None,
    };
    let reference = match after_prefix(strip(&all), "refs/remotes/") {
        Some(reference) => reference,
        None => return None,
    };
    let ghost names = views(remotes@);
    let mut best: Option<usize> = None;
    let mut i: usize = 0;
    while i < remotes.len()
        invariant
            i <= remotes@.len(),
            names == views(remotes@),
            match best {
                Some(b) => b < i && owner(names, reference@, i as int) == Some(b as int)
                    && starts_with(reference@, names[b as int] + "/"@),
                None => owner(names, reference@, i as int) is None,
            },
        decreases remotes@.len() - i,
    {
        let mut prefix = remotes[i].clone();
        prefix.append("/");
        assert(names[i as int] == remotes@[i as int]@);
        if has_prefix(reference, &prefix) {
            let longer = match best {
                Some(b) => {
                    assert(names[b as int] == remotes@[b as int]@);
                    chars(&remotes[b]).len() > chars(&remotes[i]).len()
                },
                None => false,
            };
            if !longer {
                best = Some(i);
            }
        }
        i += 1;
    }
    match best {
        Some(b) => {
            proof {
                reveal_strlit("/");
                assert(names[b as int] == remotes@[b as int]@);
            }
            let total: usize = reference.len();
            assert((names[b as int] + "/"@).len() <= total);
            let skip: usize = chars(&remotes[b]).len() + 1;
            let branch = part(reference, skip, total);
            assert(branch@ =~= reference@.skip(names[b as int].len() as int + 1));
            Some((remotes[b].clone(), text(branch)))
        },
        None => None,
    }
}

/// The first remote from index `i` on that belongs to `repo`.
pub open spec fn remote_of(repos: Seq<Option<String>>, repo: Seq<char>, i: int) -> Option<int>
    decreases repos.len() - i,
{
    if i < 0 || i >= repos.len() {
        None
    } else if crate::status::text_view(repos[i]) == Some(repo) {
        Some(i)
    } else {
        remote_of(repos, repo, i + 1)
    }
}

/// The remote that pushes to the pull request's head repository; `repos` are the
/// repositories of the remotes' push URLs.
pub fn head_remote(remotes: &Vec<String>, repos: &Vec<Option<String>>, head_repo: Option<&str>) -> (r:
    Option<String>)
    requires
        remotes@.len() == repos@.len(),
    ensures
        crate::status::text_view(r) == (match head_repo {
            Some(repo) => match remote_of(repos@, repo@, 0) {
                Some(i) => Some(remotes@[i]@),
                None => None,
            },
            None => None,
        }),
{
    let repo = match head_repo {
        Some(repo) => repo,
        None => return None,
    };
    let mut i: usize = 0;
    while i < repos.len()
        invariant
            i <= repos@.len(),
            remotes@.len() == repos@.len(),
            head_repo == Some(repo),
            remote_of(repos@, repo@, 0) == remote_of(repos@, repo@, i as int),
        decreases repos@.len() - i,
    {
        let found = match &repos[i] {
            Some(x) => same(x, repo),
            None => false,
        };
        if found {
            return Some(remotes[i].clone());
        }
        i += 1;
    }
    None
}

/// The branch of a destination, as far as it is known here.
pub open spec fn tracking_of(d: DestinationView) -> Seq<char> {
    "refs/remotes/"@ + d.remote + "/"@ + d.branch
}

pub fn tracking(d: &Destination) -> (r: String)
    ensures
        r@ == tracking_of(d@),
{
    let mut r = "refs/remotes/".to_owned();
    r.append(&d.remote);
    r.append("/");
    r.append(&d.branch);
    r
}

/// What Git counts and lists: the commits that are not on the destination yet.
pub fn outgoing(d: &Destination, oid: &str, known: bool) -> (r: Vec<String>)
    ensures
        views(r@) == (if known {
            seq![tracking_of(d@) + ".."@ + oid@]
        } else {
            seq![oid@, "--not"@, "--remotes="@ + d.remote@]
        }),
{
    let mut r: Vec<String> = Vec::new();
    if known {
        let mut range = tracking(d);
        range.append("..");
        range.append(oid);
        r.push(range);
        assert(views(r@) =~= seq![range@]);
    } else {
        let mut not = "--remotes=".to_owned();
        not.append(&d.remote);
        r.push(oid.to_owned());
        r.push("--not".to_owned());
        r.push(not);
        assert(views(r@) =~= seq![oid@, "--not"@, not@]);
    }
    r
}

/// What Git counts: the commits that are only on the destination.
pub fn incoming(d: &Destination, oid: &str) -> (r: String)
    ensures
        r@ == oid@ + ".."@ + tracking_of(d@),
{
    let mut r = oid.to_owned();
    r.append("..");
    r.append(&tracking(d));
    r
}

/// A count that Git printed.
pub fn read_count(printed: &str) -> (r: Option<u32>)
    ensures
        match r {
            Some(n) => parse_max(printed@, u32::MAX as nat) == Some(n as nat),
            None => parse_max(printed@, u32::MAX as nat) is None,
        },
{
    match read_number(&chars(printed), 0xffff_ffff) {
        Some(n) => Some(n as u32),
        None => None,
    }
}

pub open spec fn commits_text(ahead: Option<u32>, behind: Option<u32>) -> Seq<char> {
    (match ahead {
        Some(n) => if n == 0 {
            "up to date"@
        } else {
            decimal(n as nat) + " to push"@
        },
        None => "?"@,
    }) + (match behind {
        Some(n) => if n > 0 {
            ", remote has "@ + decimal(n as nat) + " more: will be rejected"@
        } else {
            seq![]
        },
        None => seq![],
    })
}

/// `2 to push`, `up to date`, …
pub fn describe_commits(ahead: Option<u32>, behind: Option<u32>) -> (r: String)
    ensures
        r@ == commits_text(ahead, behind),
{
    let mut r = String::new();
    match ahead {
        Some(n) => {
            if n == 0 {
                r = "up to date".to_owned();
            } else {
                push_decimal(&mut r, n as u64);
                assert(r@ =~= decimal(n as nat));
                r.append(" to push");
            }
        },
        None => {
            r = "?".to_owned();
        },
    }
    let ghost first = r@;
    match behind {
        Some(n) => {
            if n > 0 {
                r.append(", remote has ");
                push_decimal(&mut r, n as u64);
                r.append(" more: will be rejected");
            }
        },
        None => {},
    }
    assert(r@ =~= commits_text(ahead, behind));
    r
}

// ---------------------------------------------------------------------------
// Pushing
// ---------------------------------------------------------------------------

/// What will be pushed: a commit of a branch.
#[derive(Debug)]
pub struct Plan {
    pub root: String,
    pub branch: String,
    pub oid: String,
    pub subject: String,
}

/// The commit that will be pushed; a branch without one cannot be.
pub fn plan_head(branch: &str, head: Option<String>) -> (r: Result<String, String>)
    ensures
        match (head, r) {
            (Some(h), Ok(oid)) => oid == h,
            (None, Err(e)) => e@ == branch@ + " has no commits to push"@,
            _ => false,
        },
{
    match head {
        Some(h) => Ok(h),
        None => {
            let mut e = branch.to_owned();
            e.append(" has no commits to push");
            Err(e)
        },
    }
}

/// Whether the branch of `repo` can be pushed now, and what is said while that is
/// prepared.
pub fn push(state: &mut State, repo: &Repo, finished: &Vec<u64>) -> (r: Result<
    (String, &'static str),
    String,
>)
    requires
        old(state).well_formed(),
    ensures
        final(state).well_formed(),
        final(state).drafts == old(state).drafts,
        match repo.branch {
            None => *final(state) == *old(state) && (r matches Err(e) && e@
                == "Detached HEAD; check out a branch to push"@),
            Some(branch) => {
                let running = cleared(old(state).running@, repo.root@, finished@);
                &&& final(state).running@ == running
                &&& match (what_runs(running, repo.root@), r) {
                    (Some(what), Err(e)) => e@ == busy_text(what),
                    (None, Ok((b, m))) => b@ == branch@ && m@ == "Preparing push…"@,
                    _ => false,
                }
            },
        },
{
    match &repo.branch {
        None => Err("Detached HEAD; check out a branch to push".to_owned()),
        Some(branch) => match state.running(&repo.root, finished) {
            Some(what) => Err(busy(what)),
            None => Ok((branch.clone(), "Preparing push…")),
        },
    }
}

/// What is said when the destinations are shown.
pub fn plan_status(plan: &Plan) -> (r: String)
    ensures
        r@ == "Push "@ + plan.branch@ + " at "@ + plan.subject@
            + " · Enter pushes to the selected destination, Esc cancels · never forced"@,
{
    let mut r = "Push ".to_owned();
    r.append(&plan.branch);
    r.append(" at ");
    r.append(&plan.subject);
    r.append(" · Enter pushes to the selected destination, Esc cancels · never forced");
    r
}

/// The destinations of a plan are shown, and what is said then; or why they are not.
pub fn show(repo: Option<&Repo>, plan: &Plan) -> (r: Result<String, String>)
    ensures
        match r {
            Ok(status) => focused_on(repo, plan.root@) && status@ == "Push "@ + plan.branch@
                + " at "@ + plan.subject@
                + " · Enter pushes to the selected destination, Esc cancels · never forced"@,
            Err(e) => !focused_on(repo, plan.root@) && e@ == refocused(":git-push"@),
        },
{
    match check_focus(repo, &plan.root, ":git-push") {
        Ok(_) => Ok(plan_status(plan)),
        Err(e) => Err(e),
    }
}

pub open spec fn label_of(d: DestinationView) -> Seq<char> {
    d.remote + "/"@ + d.branch
}

impl Destination {
    pub fn label(&self) -> (r: String)
        ensures
            r@ == label_of(self@),
    {
        let mut r = self.remote.clone();
        r.append("/");
        r.append(&self.branch);
        r
    }
}

/// Start a push, unless something else runs in the repository.
pub fn start(
    state: &mut State,
    plan: &Plan,
    destination: &Destination,
    task: u64,
    finished: &Vec<u64>,
) -> (r: Result<String, String>)
    requires
        old(state).well_formed(),
        clippable(plan.oid@, 10),
    ensures
        final(state).well_formed(),
        final(state).drafts == old(state).drafts,
        ({
            let running = cleared(old(state).running@, plan.root@, finished@);
            match what_runs(running, plan.root@) {
                Some(what) => final(state).running@ == running && (r matches Err(e) && e@
                    == busy_text(what)),
                None => {
                    &&& what_runs(final(state).running@, plan.root@) == Some("push"@)
                    &&& final(state).running@.drop_last() == running
                    &&& final(state).running@.last().task == task
                    &&& r matches Ok(m) && m@ == "Pushing "@ + clipped(plan.oid@, 10) + " to "@
                        + label_of(destination@) + "…"@
                },
            }
        }),
{
    match state.running(&plan.root, finished) {
        Some(what) => {
            return Err(busy(what));
        },
        None => {},
    }
    let mut m = "Pushing ".to_owned();
    m.append(&clip(&plan.oid, 10));
    m.append(" to ");
    m.append(&destination.label());
    m.append("…");
    state.start(&plan.root, "push", task);
    Ok(m)
}

/// The planned commit is pushed only while the branch still points at it.
pub fn check_head(plan: &Plan, reference: &str, head: Option<&str>) -> (r: Result<(), &'static str>)
    ensures
        ({
            let unmoved = reference@ == "refs/heads/"@ + plan.branch@ && opt(head) == Some(
                plan.oid@,
            );
            match r {
                Ok(_) => unmoved,
                Err(e) => !unmoved && e@
                    == "HEAD moved since the push was prepared; run :git-push again"@,
            }
        }),
{
    let mut expected = "refs/heads/".to_owned();
    expected.append(&plan.branch);
    if same(reference, &expected) && is(head, &plan.oid) {
        Ok(())
    } else {
        Err("HEAD moved since the push was prepared; run :git-push again")
    }
}

pub open spec fn push_args(oid: Seq<char>, d: DestinationView) -> Seq<Seq<char>> {
    seq!["push"@, "--porcelain"@, d.remote, oid + ":refs/heads/"@ + d.branch]
}

/// The arguments that push exactly one commit to one branch.
pub fn push_arguments(plan: &Plan, destination: &Destination) -> (r: Vec<String>)
    ensures
        views(r@) == push_args(plan.oid@, destination@),
{
    let mut refspec = plan.oid.clone();
    refspec.append(":refs/heads/");
    refspec.append(&destination.branch);
    let mut r: Vec<String> = Vec::new();
    r.push("push".to_owned());
    r.push("--porcelain".to_owned());
    r.push(destination.remote.clone());
    r.push(refspec);
    assert(views(r@) =~= push_args(plan.oid@, destination@));
    r
}

/// A push is never forced: its only option is the output format, and its refspec
/// does not start with `+`.
pub proof fn pushes_are_never_forced(oid: Seq<char>, d: DestinationView)
    requires
        all_hex(oid),
        oid.len() > 0,
        usable(d.remote),
    ensures
        ({
            let args = push_args(oid, d);
            &&& args[3][0] != '+'
            &&& forall|i: int|
                0 <= i < args.len() && starts_with(#[trigger] args[i], "-"@) ==> args[i]
                    == "--porcelain"@
        }),
{
    reveal_strlit("-");
    reveal_strlit("push");
    let args = push_args(oid, d);
    assert(crate::text::is_hex(oid[0]));
    assert(args[3][0] == oid[0]);
    assert forall|i: int| 0 <= i < args.len() && starts_with(
        #[trigger] args[i],
        "-"@,
    ) implies args[i] == "--porcelain"@ by {
        assert(args[i].take(1)[0] == args[i][0]);
        assert("-"@[0] == '-');
        assert("push"@[0] == 'p');
    }
}

pub open spec fn remote_args(branch: Seq<char>, d: DestinationView) -> Seq<Seq<char>> {
    seq!["config"@, "branch."@ + branch + ".remote"@, d.remote]
}

pub open spec fn merge_args(branch: Seq<char>, d: DestinationView) -> Seq<Seq<char>> {
    seq!["config"@, "branch."@ + branch + ".merge"@, "refs/heads/"@ + d.branch]
}

/// The Git settings that make a destination the upstream of the branch.
pub fn upstream_arguments(plan: &Plan, destination: &Destination) -> (r: (Vec<String>, Vec<String>))
    ensures
        views(r.0@) == remote_args(plan.branch@, destination@),
        views(r.1@) == merge_args(plan.branch@, destination@),
{
    let mut remote = "branch.".to_owned();
    remote.append(&plan.branch);
    remote.append(".remote");
    let mut a: Vec<String> = Vec::new();
    a.push("config".to_owned());
    a.push(remote);
    a.push(destination.remote.clone());
    assert(views(a@) =~= seq!["config"@, remote@, destination.remote@]);
    let mut merge = "branch.".to_owned();
    merge.append(&plan.branch);
    merge.append(".merge");
    let mut target = "refs/heads/".to_owned();
    target.append(&destination.branch);
    let mut b: Vec<String> = Vec::new();
    b.push("config".to_owned());
    b.push(merge);
    b.push(target);
    assert(views(b@) =~= seq!["config"@, merge@, target@]);
    (a, b)
}

/// What a push came to: whether the remote was up to date before.
pub fn pushed(out: &Output, destination: &Destination) -> (r: Result<bool, String>)
    ensures
        ({
            let stdout = lossy_text(out.stdout@);
            match r {
                Ok(up_to_date) => out.success && up_to_date == contains(stdout, "[up to date]"@),
                Err(e) => !out.success && e@ == rejected(
                    stdout,
                    message_of(*out),
                    label_of(destination@),
                ),
            }
        }),
{
    let stdout = lossy(&out.stdout);
    if out.success {
        Ok(has(&chars(&stdout), "[up to date]"))
    } else {
        Err(rejection(&stdout, &out.message(), &destination.label()))
    }
}

// ---------------------------------------------------------------------------
// The steps of a push
// ---------------------------------------------------------------------------

/// What a push waits for.
#[derive(Clone, Copy, Debug, PartialEq, Eq, Structural)]
pub enum PushStage {
    /// Where HEAD is now.
    Head,
    /// Git to push.
    Push,
    /// Git to note the remote of the branch; whether the remote was up to date.
    Remote(bool),
    /// Git to note the upstream branch; whether the remote was up to date.
    Merge(bool),
    Done,
}

/// What became of the last step.
#[derive(Debug)]
pub enum PushEvent {
    /// The reference that HEAD stands for, empty where there is none, and its commit.
    Head(String, Result<Option<String>, String>),
    Pushed(Result<Output, String>),
    Configured(Result<(), String>),
}

/// What is done next.
#[derive(Debug)]
pub enum PushAction {
    /// Push, running Git with these arguments.
    Push(Vec<String>),
    /// Run Git with these arguments.
    Configure(Vec<String>),
    /// Whether the remote was up to date before.
    End(Result<bool, String>),
}

pub enum PushActionView {
    Push(Seq<Seq<char>>),
    Configure(Seq<Seq<char>>),
    End(Result<bool, Seq<char>>),
}

impl View for PushAction {
    type V = PushActionView;

    open spec fn view(&self) -> PushActionView {
        match *self {
            PushAction::Push(args) => PushActionView::Push(views(args@)),
            PushAction::Configure(args) => PushActionView::Configure(views(args@)),
            PushAction::End(Ok(up_to_date)) => PushActionView::End(Ok(up_to_date)),
            PushAction::End(Err(e)) => PushActionView::End(Err(e@)),
        }
    }
}

/// The event is one that the push waits for.
pub open spec fn push_awaited(stage: PushStage, event: PushEvent) -> bool {
    match stage {
        PushStage::Head => event is Head,
        PushStage::Push => event is Pushed,
        PushStage::Remote(_) => event is Configured,
        PushStage::Merge(_) => event is Configured,
        PushStage::Done => false,
    }
}

/// The branch still points at the planned commit.
pub open spec fn unmoved(plan: Plan, reference: Seq<char>, head: Option<Seq<char>>) -> bool {
    reference == "refs/heads/"@ + plan.branch@ && head == Some(plan.oid@)
}

pub open spec fn push_failed(e: Seq<char>) -> (PushStage, PushActionView) {
    (PushStage::Done, PushActionView::End(Err(e)))
}

/// What follows an event.
pub open spec fn push_step(
    plan: Plan,
    destination: DestinationView,
    stage: PushStage,
    event: PushEvent,
) -> (PushStage, PushActionView) {
    match (stage, event) {
        (PushStage::Head, PushEvent::Head(reference, head)) => if reference@ != "refs/heads/"@
            + plan.branch@ {
            push_failed("HEAD moved since the push was prepared; run :git-push again"@)
        } else {
            match head {
                Err(e) => push_failed(e@),
                Ok(head) => if unmoved(plan, reference@, crate::status::text_view(head)) {
                    (PushStage::Push, PushActionView::Push(push_args(plan.oid@, destination)))
                } else {
                    push_failed("HEAD moved since the push was prepared; run :git-push again"@)
                },
            }
        },
        (PushStage::Push, PushEvent::Pushed(Ok(out))) => {
            let stdout = lossy_text(out.stdout@);
            let up_to_date = contains(stdout, "[up to date]"@);
            if !out.success {
                push_failed(rejected(stdout, message_of(out), label_of(destination)))
            } else if destination.set_upstream {
                (
                    PushStage::Remote(up_to_date),
                    PushActionView::Configure(remote_args(plan.branch@, destination)),
                )
            } else {
                (PushStage::Done, PushActionView::End(Ok(up_to_date)))
            }
        },
        (PushStage::Push, PushEvent::Pushed(Err(e))) => push_failed(e@),
        (PushStage::Remote(up_to_date), PushEvent::Configured(Ok(_))) => (
            PushStage::Merge(up_to_date),
            PushActionView::Configure(merge_args(plan.branch@, destination)),
        ),
        (PushStage::Remote(_), PushEvent::Configured(Err(e))) => push_failed(e@),
        (PushStage::Merge(up_to_date), PushEvent::Configured(Ok(_))) => (
            PushStage::Done,
            PushActionView::End(Ok(up_to_date)),
        ),
        (PushStage::Merge(_), PushEvent::Configured(Err(e))) => push_failed(e@),
        _ => push_failed(seq![]),
    }
}

fn fail_push(e: String) -> (r: (PushStage, PushAction))
    ensures
        (r.0, r.1@) == push_failed(e@),
{
    (PushStage::Done, PushAction::End(Err(e)))
}

/// Push exactly the planned commit if the branch still points at it, one step after
/// the other. It starts at `PushStage::Head`, with a look at HEAD.
pub fn next_push_step(
    plan: &Plan,
    destination: &Destination,
    stage: PushStage,
    event: PushEvent,
) -> (r: (PushStage, PushAction))
    requires
        push_awaited(stage, event),
    ensures
        (r.0, r.1@) == push_step(*plan, destination@, stage, event),
{
    match (stage, event) {
        (PushStage::Head, PushEvent::Head(reference, head)) => {
            let mut expected = "refs/heads/".to_owned();
            expected.append(&plan.branch);
            let moved = "HEAD moved since the push was prepared; run :git-push again";
            if !same(&reference, &expected) {
                return fail_push(moved.to_owned());
            }
            let head = match head {
                Ok(head) => head,
                Err(e) => return fail_push(e),
            };
            let now = match &head {
                Some(head) => Some(head.as_str()),
                None => None,
            };
            match check_head(plan, &reference, now) {
                Ok(_) => (PushStage::Push, PushAction::Push(push_arguments(plan, destination))),
                Err(e) => fail_push(e.to_owned()),
            }
        },
        (PushStage::Push, PushEvent::Pushed(Ok(out))) => match pushed(&out, destination) {
            Ok(up_to_date) => if destination.set_upstream {
                let (remote, _merge) = upstream_arguments(plan, destination);
                (PushStage::Remote(up_to_date), PushAction::Configure(remote))
            } else {
                (PushStage::Done, PushAction::End(Ok(up_to_date)))
            },
            Err(e) => fail_push(e),
        },
        (PushStage::Push, PushEvent::Pushed(Err(e))) => fail_push(e),
        (PushStage::Remote(up_to_date), PushEvent::Configured(Ok(_done))) => {
            let (_remote, merge) = upstream_arguments(plan, destination);
            (PushStage::Merge(up_to_date), PushAction::Configure(merge))
        },
        (PushStage::Remote(_up_to_date), PushEvent::Configured(Err(e))) => fail_push(e),
        (PushStage::Merge(up_to_date), PushEvent::Configured(Ok(_done))) => (
            PushStage::Done,
            PushAction::End(Ok(up_to_date)),
        ),
        (PushStage::Merge(_up_to_date), PushEvent::Configured(Err(e))) => fail_push(e),
        _ => fail_push(String::new()),
    }
}

/// Where a push is after some events.
pub open spec fn push_course(
    plan: Plan,
    destination: DestinationView,
    events: Seq<PushEvent>,
) -> Option<(PushStage, PushActionView)>
    decreases events.len(),
{
    if events.len() == 1 {
        Some(push_step(plan, destination, PushStage::Head, events[0]))
    } else if events.len() > 1 {
        Some(
            push_step(
                plan,
                destination,
                (push_course(plan, destination, events.drop_last())->0).0,
                events.last(),
            ),
        )
    } else {
        None
    }
}

/// Git is asked to push only right after HEAD was found at the planned commit of the
/// planned branch, and then exactly that commit.
pub proof fn pushes_follow_the_check(
    plan: Plan,
    destination: DestinationView,
    events: Seq<PushEvent>,
)
    requires
        push_course(plan, destination, events) matches Some((_, action)) && action is Push,
    ensures
        events.len() == 1,
        events[0] matches PushEvent::Head(reference, Ok(head)) && unmoved(
            plan,
            reference@,
            crate::status::text_view(head),
        ),
        (push_course(plan, destination, events)->0).1 == PushActionView::Push(
            push_args(plan.oid@, destination),
        ),
{
    if events.len() > 1 {
        lemma_push_course(plan, destination, events.drop_last());
    }
}

/// The upstream of a branch is set only if that is wanted, and only once the push
/// succeeded.
pub proof fn upstreams_are_set_after_the_push(
    plan: Plan,
    destination: DestinationView,
    events: Seq<PushEvent>,
)
    requires
        push_course(plan, destination, events) matches Some((_, action)) && action is Configure,
    ensures
        destination.set_upstream,
        events.len() >= 2,
        events[1] matches PushEvent::Pushed(Ok(out)) && out.success,
{
    lemma_push_course(plan, destination, events);
}

proof fn lemma_push_course(plan: Plan, destination: DestinationView, events: Seq<PushEvent>)
    requires
        events.len() > 0,
    ensures
        ({
            let (stage, action) = push_course(plan, destination, events)->0;
            let accepted = destination.set_upstream && events.len() >= 2 && (events[1] matches
                PushEvent::Pushed(Ok(out)) && out.success);
            &&& !(stage is Head)
            &&& stage is Push ==> events.len() == 1
            &&& stage is Remote ==> accepted
            &&& stage is Merge ==> accepted
            &&& action is Configure ==> stage is Remote || stage is Merge
        }),
    decreases events.len(),
{
    if events.len() > 1 {
        let before = events.drop_last();
        lemma_push_course(plan, destination, before);
        if before.len() > 1 {
            assert(before[1] == events[1]);
        }
    }
}

// ---------------------------------------------------------------------------
// The end of a push
// ---------------------------------------------------------------------------

pub open spec fn finished_text(
    oid: Seq<char>,
    d: DestinationView,
    up_to_date: bool,
) -> Seq<char> {
    (if up_to_date {
        "Already pushed:"@
    } else {
        "Pushed"@
    }) + " "@ + clipped(oid, 10) + " to "@ + label_of(d) + (if d.set_upstream {
        " (upstream set)"@
    } else {
        ""@
    })
}

/// A push ended.
pub fn finish(
    state: &mut State,
    plan: &Plan,
    destination: &Destination,
    result: Result<bool, String>,
) -> (r: Message)
    requires
        old(state).well_formed(),
        clippable(plan.oid@, 10),
    ensures
        final(state).well_formed(),
        final(state).drafts == old(state).drafts,
        final(state).running@ == stopped(old(state).running@, plan.root@, "push"@),
        match (result, r) {
            (Ok(up_to_date), Message::Status(m)) => m@ == finished_text(
                plan.oid@,
                destination@,
                up_to_date,
            ),
            (Err(e), Message::Error(m)) => m@ == safe(e@),
            _ => false,
        },
{
    let _task = state.stop(&plan.root, "push");
    match result {
        Ok(up_to_date) => {
            let mut m = if up_to_date { "Already pushed:" } else { "Pushed" }.to_owned();
            m.append(" ");
            m.append(&clip(&plan.oid, 10));
            m.append(" to ");
            m.append(&destination.label());
            m.append(if destination.set_upstream { " (upstream set)" } else { "" });
            Message::Status(m)
        },
        Err(e) => Message::Error(safe_text(&e)),
    }
}

// ---------------------------------------------------------------------------
// The review of a pushed branch
// ---------------------------------------------------------------------------

/// What GitHub says of the pull request after a push.
#[derive(Clone, Copy, Debug)]
pub enum Reply {
    /// Its head is the pushed commit, or comes after it.
    Contains,
    /// Its head is another one.
    Older,
    Failed,
}

/// What to do next.
#[derive(Clone, Copy, Debug)]
pub enum Following {
    /// Wait, and ask once more.
    Ask,
    /// Stop asking: whether GitHub shows the commit.
    Stop(bool),
}

/// GitHub is asked at most five times.
pub const ATTEMPTS: u32 = 5;

pub fn follow(attempt: u32, reply: Reply) -> (r: Following)
    ensures
        match reply {
            Reply::Contains => r == Following::Stop(true),
            Reply::Failed => r == Following::Stop(false),
            Reply::Older => if attempt + 1 < ATTEMPTS {
                r == Following::Ask
            } else {
                r == Following::Stop(false)
            },
        },
{
    match reply {
        Reply::Contains => Following::Stop(true),
        Reply::Failed => Following::Stop(false),
        Reply::Older => if attempt < ATTEMPTS - 1 {
            Following::Ask
        } else {
            Following::Stop(false)
        },
    }
}

/// What is said once GitHub was asked: `pushed` is what was said of the push,
/// `discussion` the selected discussion.
pub fn followed_text(pushed: &str, pull: &str, contained: bool, discussion: Option<&str>) -> (r:
    String)
    ensures
        r@ == pushed@ + (if contained {
            " · in "@ + pull@ + (match discussion {
                Some(d) => " · :review-fixed replies to "@ + d@,
                None => seq![],
            })
        } else {
            " · GitHub does not show it in "@ + pull@ + " yet; :review-refresh later"@
        }),
{
    let mut rest = String::new();
    assert(rest@ =~= seq![]);
    if contained {
        rest = " · in ".to_owned();
        rest.append(pull);
        let ghost start = rest@;
        match discussion {
            Some(d) => {
                rest.append(" · :review-fixed replies to ");
                rest.append(d);
                assert(rest@ =~= start + (" · :review-fixed replies to "@ + d@));
            },
            None => {
                assert(rest@ =~= start + seq![]);
            },
        }
    } else {
        rest = " · GitHub does not show it in ".to_owned();
        rest.append(pull);
        rest.append(" yet; :review-refresh later");
    }
    let mut r = pushed.to_owned();
    r.append(&rest);
    r
}

/// The focused repository is the one at `root`.
pub open spec fn focused_on(repo: Option<&Repo>, root: Seq<char>) -> bool {
    repo matches Some(repo) && repo.root@ == root
}

/// What is said when another repository has the focus by now.
pub open spec fn refocused(command: Seq<char>) -> Seq<char> {
    "The focused repository changed; run "@ + command + " again"@
}

/// What was prepared for the repository at `root` is shown only while that is still
/// the focused one.
pub fn check_focus(repo: Option<&Repo>, root: &str, command: &str) -> (r: Result<(), String>)
    ensures
        match r {
            Ok(_) => focused_on(repo, root@),
            Err(e) => !focused_on(repo, root@) && e@ == refocused(command@),
        },
{
    match repo {
        Some(repo) => {
            if same(&repo.root, root) {
                return Ok(());
            }
        },
        None => {},
    }
    let mut e = "The focused repository changed; run ".to_owned();
    e.append(command);
    e.append(" again");
    Err(e)
}

/// Whether something may still be said: the branch is still the focused one.
pub fn still_focused(repo: Option<&Repo>, root: &str, branch: &str) -> (r: bool)
    ensures
        r == (match repo {
            Some(repo) => repo.root@ == root@ && crate::status::text_view(repo.branch) == Some(
                branch@,
            ),
            None => false,
        }),
{
    match repo {
        Some(repo) => same(&repo.root, root) && match &repo.branch {
            Some(b) => same(b, branch),
            None => false,
        },
        None => false,
    }
}

/// The loaded review, if it is of this branch.
pub open spec fn review_of(
    state: crate::review::State,
    root: Seq<char>,
    branch: Seq<char>,
) -> Option<Arc<Review>> {
    match state.context {
        Some(c) => if c.root@ == root && c.branch@ == branch {
            state.review
        } else {
            None
        },
        None => None,
    }
}

pub fn reviewed<'a>(state: &'a crate::review::State, root: &str, branch: &str) -> (r: Option<
    &'a Review,
>)
    ensures
        match (r, review_of(*state, root@, branch@)) {
            (Some(a), Some(b)) => *a == *b,
            (None, None) => true,
            _ => false,
        },
{
    match &state.context {
        Some(c) => {
            if same(&c.root, root) && same(&c.branch, branch) {
                match &state.review {
                    Some(review) => Some(&**review),
                    None => None,
                }
            } else {
                None
            }
        },
        None => None,
    }
}

/// The head repository of the branch's pull request, as far as it was discovered.
pub fn head_repo(state: &crate::review::State, root: &str, branch: &str) -> (r: Option<String>)
    ensures
        crate::status::text_view(r) == (match review_of(*state, root@, branch@) {
            Some(review) => crate::status::text_view(review.head_repo),
            None => None,
        }),
{
    match reviewed(state, root, branch) {
        Some(review) => match &review.head_repo {
            Some(repo) => Some(repo.clone()),
            None => None,
        },
        None => None,
    }
}

/// What Git is configured to push to comes first: its push destination where it names
/// one, as the only choice; else the upstream of the branch.
pub proof fn configured_destinations_come_first(
    branch: Seq<char>,
    remotes: Seq<Seq<char>>,
    upstream: Option<(Seq<char>, Seq<char>)>,
    push: Option<(Seq<char>, Seq<char>)>,
    head_remote: Option<Seq<char>>,
    push_default: Option<Seq<char>>,
)
    ensures
        ({
            let offered = choices(branch, remotes, upstream, push, head_remote, push_default);
            &&& push matches Some(p) ==> offered.len() == 1 && offered[0].remote == p.0
                && offered[0].branch == p.1
            &&& push is None && upstream is Some ==> offered[0].remote == (upstream->0).0
                && offered[0].branch == (upstream->0).1 && offered[0].note == "upstream"@ && (
            offered.len() == 2 <==> (upstream->0).1 != branch)
            &&& push is None && upstream is Some && (upstream->0).1 != branch ==> offered[1].remote
                == (upstream->0).0 && offered[1].branch == branch
        }),
{
}

proof fn lemma_remote_order(head_remote: Option<Seq<char>>, push_default: Option<Seq<char>>)
    ensures
        crate::order::is_order(remote_order(head_remote, push_default)),
{
    let le = remote_order(head_remote, push_default);
    assert forall|a: Seq<char>, b: Seq<char>| #[trigger] le(a, b) || le(b, a) by {
        text_le_total(a, b);
    }
    assert forall|a: Seq<char>, b: Seq<char>, c: Seq<char>| #[trigger]
        le(a, b) && #[trigger] le(b, c) implies le(a, c) by {
        if rank_of(a, head_remote, push_default) == rank_of(b, head_remote, push_default)
            && rank_of(b, head_remote, push_default) == rank_of(c, head_remote, push_default) {
            text_le_transitive(a, b, c);
        }
    }
}

/// A new branch is offered to the repository of the pull request's head first; without
/// that to the configured default; without that to `origin`.
pub proof fn the_likely_remote_is_offered_first(
    branch: Seq<char>,
    remotes: Seq<Seq<char>>,
    head_remote: Option<Seq<char>>,
    push_default: Option<Seq<char>>,
    k: int,
)
    requires
        0 <= k < remotes.len(),
    ensures
        ({
            let first = choices(branch, remotes, None, None, head_remote, push_default)[0];
            &&& head_remote == Some(remotes[k]) ==> first.remote == remotes[k]
            &&& push_default == Some(remotes[k]) ==> Some(first.remote) == head_remote
                || first.remote == remotes[k]
            &&& remotes[k] == "origin"@ ==> Some(first.remote) == head_remote || Some(first.remote)
                == push_default || first.remote == "origin"@
        }),
{
    let le = remote_order(head_remote, push_default);
    let all = sorted_by(remotes, le);
    let x = remotes[k];
    lemma_remote_order(head_remote, push_default);
    sorting_orders(remotes, le);
    assert(remotes.contains(x));
    remotes.to_multiset_ensures();
    all.to_multiset_ensures();
    assert(remotes.to_multiset().contains(x));
    assert(all.to_multiset().contains(x));
    assert(all.contains(x));
    let i = all.index_of(x);
    let first = choices(branch, remotes, None, None, head_remote, push_default)[0];
    assert(first.remote == all[0]);
    if i > 0 {
        assert(le(all[0], all[i]));
    }
    assert(rank_of(all[0], head_remote, push_default) <= rank_of(x, head_remote, push_default));
}

/// Git is asked to push the planned commit, and nothing else, to the branch of the
/// destination.
pub proof fn pushes_name_one_commit_and_one_branch(oid: Seq<char>, d: DestinationView)
    ensures
        push_args(oid, d).len() == 4,
        push_args(oid, d)[0] == "push"@,
        push_args(oid, d)[2] == d.remote,
        push_args(oid, d)[3] == oid + ":refs/heads/"@ + d.branch,
{
}

/// A push that meets no problem ends well: the planned commit is pushed, the upstream is
/// noted where that is wanted, and whether the remote had the commit already is told.
pub proof fn pushes_without_problems_end_well(
    plan: Plan,
    destination: DestinationView,
    reference: String,
    head: String,
    out: Output,
)
    requires
        reference@ == "refs/heads/"@ + plan.branch@,
        head@ == plan.oid@,
        out.success,
    ensures
        ({
            let found = PushEvent::Head(reference, Ok(Some(head)));
            let done = PushEvent::Pushed(Ok(out));
            let noted = PushEvent::Configured(Ok(()));
            let known = contains(lossy_text(out.stdout@), "[up to date]"@);
            &&& push_course(plan, destination, seq![found]) matches Some((_, action)) && action
                == PushActionView::Push(
                seq![
                    "push"@,
                    "--porcelain"@,
                    destination.remote,
                    plan.oid@ + ":refs/heads/"@ + destination.branch,
                ],
            )
            &&& !destination.set_upstream ==> (push_course(
                plan,
                destination,
                seq![found, done],
            ) matches Some((_, action)) && action == PushActionView::End(Ok(known)))
            &&& destination.set_upstream ==> {
                &&& push_course(plan, destination, seq![found, done]) matches Some((_, action))
                    && action == PushActionView::Configure(
                    seq!["config"@, "branch."@ + plan.branch@ + ".remote"@, destination.remote],
                )
                &&& push_course(plan, destination, seq![found, done, noted]) matches Some(
                    (_, action),
                ) && action == PushActionView::Configure(
                    seq![
                        "config"@,
                        "branch."@ + plan.branch@ + ".merge"@,
                        "refs/heads/"@ + destination.branch,
                    ],
                )
                &&& push_course(plan, destination, seq![found, done, noted, noted]) matches Some(
                    (_, action),
                ) && action == PushActionView::End(Ok(known))
            }
        }),
{
    let found = PushEvent::Head(reference, Ok(Some(head)));
    let done = PushEvent::Pushed(Ok(out));
    let noted = PushEvent::Configured(Ok(()));
    let a = seq![found];
    let b = seq![found, done];
    let c = seq![found, done, noted];
    let d = seq![found, done, noted, noted];
    assert(b.drop_last() =~= a);
    assert(c.drop_last() =~= b);
    assert(d.drop_last() =~= c);
    assert(push_course(plan, destination, a) == Some(
        push_step(plan, destination, PushStage::Head, found),
    ));
    assert(push_course(plan, destination, b) == Some(
        push_step(plan, destination, PushStage::Push, done),
    ));
    if destination.set_upstream {
        let known = contains(lossy_text(out.stdout@), "[up to date]"@);
        assert(push_course(plan, destination, c) == Some(
            push_step(plan, destination, PushStage::Remote(known), noted),
        ));
        assert(push_course(plan, destination, d) == Some(
            push_step(plan, destination, PushStage::Merge(known), noted),
        ));
    }
}

/// A branch that moved since the push was prepared is not pushed.
pub proof fn moved_branches_are_not_pushed(
    plan: Plan,
    destination: DestinationView,
    reference: String,
    head: Option<String>,
)
    requires
        reference@ != "refs/heads/"@ + plan.branch@ || (head matches Some(h) ==> h@ != plan.oid@),
    ensures
        push_course(plan, destination, seq![PushEvent::Head(reference, Ok(head))]) matches Some(
            (_, action),
        ) && action == PushActionView::End(
            Err("HEAD moved since the push was prepared; run :git-push again"@),
        ),
{
}

proof fn lemma_owner(remotes: Seq<Seq<char>>, reference: Seq<char>, n: int)
    requires
        0 <= n <= remotes.len(),
    ensures
        match owner(remotes, reference, n) {
            Some(b) => 0 <= b < n && starts_with(reference, remotes[b] + "/"@) && forall|k: int|
                0 <= k < n && starts_with(reference, (#[trigger] remotes[k]) + "/"@)
                    ==> remotes[k].len() <= remotes[b].len(),
            None => forall|k: int|
                0 <= k < n ==> !starts_with(reference, (#[trigger] remotes[k]) + "/"@),
        },
    decreases n,
{
    if n > 0 {
        lemma_owner(remotes, reference, n - 1);
    }
}

/// Git's push destination is taken apart into the remote and the branch there, also
/// where the names hold slashes: the longest name of a remote counts.
pub proof fn push_destinations_are_taken_apart(
    printed: Seq<char>,
    remotes: Seq<Seq<char>>,
    k: int,
    there: Seq<char>,
)
    requires
        0 <= k < remotes.len(),
        trimmed(printed) == "refs/remotes/"@ + (remotes[k] + "/"@ + there),
        forall|j: int|
            0 <= j < remotes.len() && starts_with(
                remotes[k] + "/"@ + there,
                (#[trigger] remotes[j]) + "/"@,
            ) ==> remotes[j] == remotes[k] || remotes[j].len() < remotes[k].len(),
    ensures
        push_reference(Some(printed), remotes) == Some((remotes[k], there)),
{
    reveal_strlit("/");
    let prefix = "refs/remotes/"@;
    let reference = remotes[k] + "/"@ + there;
    let full = prefix + reference;
    assert(full.take(prefix.len() as int) =~= prefix);
    assert(full.skip(prefix.len() as int) =~= reference);
    let own = remotes[k] + "/"@;
    assert(reference.take(own.len() as int) =~= own);
    lemma_owner(remotes, reference, remotes.len() as int);
    assert(reference.skip(remotes[k].len() as int + 1) =~= there);
}

/// What a remote rejects is told apart from what the branch lacks.
pub proof fn rejections_are_told_apart(
    stdout: Seq<char>,
    message: Seq<char>,
    destination: Seq<char>,
    k: int,
    before: Seq<char>,
    reason: Seq<char>,
)
    ensures
        contains(stdout, "(non-fast-forward)"@) || contains(stdout, "(fetch first)"@) ==> rejected(
            stdout,
            message,
            destination,
        ) == "Push rejected: "@ + destination
            + " has commits that are not in your branch. Integrate them outside Helix (for example git pull --rebase), then push again; Helix never force-pushes"@,
        !contains(stdout, "(non-fast-forward)"@) && !contains(stdout, "(fetch first)"@) && 0 <= k
            < lines(stdout).len() && split_once(lines(stdout)[k], "[remote rejected]"@) == Some(
            (before, reason),
        ) && (forall|j: int|
            0 <= j < k ==> split_once(
                #[trigger] lines(stdout)[j],
                "[remote rejected]"@,
            ) is None) ==> rejected(stdout, message, destination) == "Push rejected by the remote: "@
            + safe(trimmed(reason)),
{
    if 0 <= k < lines(stdout).len() && split_once(lines(stdout)[k], "[remote rejected]"@) == Some(
        (before, reason),
    ) && (forall|j: int|
        0 <= j < k ==> split_once(#[trigger] lines(stdout)[j], "[remote rejected]"@) is None) {
        lemma_remote_reason(lines(stdout), 0, k, before, reason);
    }
}

proof fn lemma_remote_reason(
    rows: Seq<Seq<char>>,
    i: int,
    k: int,
    before: Seq<char>,
    reason: Seq<char>,
)
    requires
        0 <= i <= k < rows.len(),
        split_once(rows[k], "[remote rejected]"@) == Some((before, reason)),
        forall|j: int| i <= j < k ==> split_once(#[trigger] rows[j], "[remote rejected]"@) is None,
    ensures
        remote_reason(rows, i) == Some(trimmed(reason)),
    decreases k - i,
{
    if i < k {
        assert(split_once(rows[i], "[remote rejected]"@) is None);
        lemma_remote_reason(rows, i + 1, k, before, reason);
    }
}

/// How many commits there are to push is told, and that the remote has others where it
/// does.
pub proof fn counted_commits_are_told(ahead: u32, behind: u32)
    ensures
        ahead == 0 ==> commits_text(Some(ahead), Some(0)) == "up to date"@,
        ahead > 0 ==> commits_text(Some(ahead), Some(0)) == decimal(ahead as nat) + " to push"@,
        behind > 0 ==> commits_text(Some(ahead), Some(behind)) == commits_text(Some(ahead), Some(0))
            + (", remote has "@ + decimal(behind as nat) + " more: will be rejected"@),
        commits_text(None, None) == "?"@,
{
    assert("up to date"@ + Seq::<char>::empty() =~= "up to date"@);
    assert("?"@ + Seq::<char>::empty() =~= "?"@);
    let a = decimal(ahead as nat) + " to push"@;
    assert(a + Seq::<char>::empty() =~= a);
}

proof fn lemma_remote_of(repos: Seq<Option<String>>, repo: Seq<char>, i: int)
    requires
        0 <= i,
    ensures
        match remote_of(repos, repo, i) {
            Some(k) => i <= k < repos.len() && crate::status::text_view(repos[k]) == Some(repo)
                && forall|j: int|
                i <= j < k ==> crate::status::text_view(#[trigger] repos[j]) != Some(repo),
            None => forall|j: int|
                i <= j < repos.len() ==> crate::status::text_view(#[trigger] repos[j]) != Some(
                    repo,
                ),
        },
    decreases repos.len() - i,
{
    if i < repos.len() && crate::status::text_view(repos[i]) != Some(repo) {
        lemma_remote_of(repos, repo, i + 1);
    }
}

/// The remote of a repository is the first one whose address names it; there is none
/// only where no address does.
pub proof fn remotes_are_found_by_their_repository(repos: Seq<Option<String>>, repo: Seq<char>)
    ensures
        remote_of(repos, repo, 0) matches Some(k) ==> 0 <= k < repos.len() && (
        repos[k] matches Some(r) && r@ == repo),
        remote_of(repos, repo, 0) is None ==> forall|j: int|
            0 <= j < repos.len() ==> !((#[trigger] repos[j]) matches Some(r) && r@ == repo),
{
    lemma_remote_of(repos, repo, 0);
    if remote_of(repos, repo, 0) is None {
        assert forall|j: int| 0 <= j < repos.len() implies !((#[trigger] repos[j]) matches Some(r)
            && r@ == repo) by {
            assert(crate::status::text_view(repos[j]) != Some(repo));
        }
    }
}

/// The review that is shown belongs to a push only from the branch that it is of.
pub proof fn reviews_belong_to_their_branch(
    state: crate::review::State,
    root: Seq<char>,
    branch: Seq<char>,
)
    ensures
        review_of(state, root, branch) is Some ==> state.context is Some && (
        state.context->0).root@ == root && (state.context->0).branch@ == branch,
        (state.context matches Some(c) && c.root@ == root && c.branch@ == branch) ==> review_of(
            state,
            root,
            branch,
        ) == state.review,
{
}

/// Whatever goes wrong on the way to a push ends it, and is told as it is.
pub proof fn problems_end_the_push(
    plan: Plan,
    destination: DestinationView,
    reference: String,
    up_to_date: bool,
    e: String,
)
    requires
        reference@ == "refs/heads/"@ + plan.branch@,
    ensures
        push_step(plan, destination, PushStage::Head, PushEvent::Head(reference, Err(e))) == (
            PushStage::Done,
            PushActionView::End(Err(e@)),
        ),
        push_step(plan, destination, PushStage::Push, PushEvent::Pushed(Err(e))) == (
            PushStage::Done,
            PushActionView::End(Err(e@)),
        ),
        push_step(
            plan,
            destination,
            PushStage::Remote(up_to_date),
            PushEvent::Configured(Err(e)),
        ) == (PushStage::Done, PushActionView::End(Err(e@))),
        push_step(
            plan,
            destination,
            PushStage::Merge(up_to_date),
            PushEvent::Configured(Err(e)),
        ) == (PushStage::Done, PushActionView::End(Err(e@))),
{
}

} // verus!
