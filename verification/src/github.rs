//! Repositories, paths and branches as GitHub names them.
use vstd::prelude::*;

use crate::text::{
    after_prefix, all_hex, any, begins, chars, cut, has_any, is_all_hex, is_alphanumeric, lowered,
    same, same_ignoring_case, slices, spells, split, split_at, split_once, starts_with,
    strip_prefix, strip_suffix, text, trim_end, trim_left, trim_right, trim_start, views, Pattern,
};

verus! {

// ---------------------------------------------------------------------------
// Names
// ---------------------------------------------------------------------------

/// A path segment that stays below its directory and outside Git's own.
pub open spec fn good_segment(s: Seq<char>) -> bool {
    s.len() > 0 && s != "."@ && s != ".."@ && lowered(s) != ".git"@
}

/// A relative path without anything that would leave the repository, name
/// another file system or reach the terminal.
pub open spec fn good_path(s: Seq<char>) -> bool {
    &&& s.len() > 0
    &&& !any(s, Pattern::Either('\\', ':'))
    &&& !any(s, Pattern::Control)
    &&& forall|i: int|
        0 <= i < split(s, Pattern::One('/')).len() ==> good_segment(
            #[trigger] split(s, Pattern::One('/'))[i],
        )
}

fn is_good_segment(s: &[char]) -> (r: bool)
    ensures
        r == good_segment(s@),
{
    proof {
        reveal_strlit(".git");
        assert(lowered(".git"@) =~= ".git"@);
    }
    s.len() > 0 && !spells(s, ".") && !spells(s, "..") && !same_ignoring_case(s, &chars(".git"))
}

pub fn valid_path(path: &str) -> (r: bool)
    ensures
        r == good_path(path@),
{
    let all = chars(path);
    if all.len() == 0 || has_any(&all, Pattern::Either('\\', ':')) || has_any(
        &all,
        Pattern::Control,
    ) {
        return false;
    }
    let parts = split_at(&all, Pattern::One('/'));
    let ghost segments = split(path@, Pattern::One('/'));
    let mut i: usize = 0;
    while i < parts.len()
        invariant
            i <= parts@.len(),
            slices(parts@) == segments,
            segments == split(path@, Pattern::One('/')),
            forall|k: int| 0 <= k < i ==> good_segment(#[trigger] segments[k]),
        decreases parts@.len() - i,
    {
        assert(segments[i as int] == parts@[i as int]@);
        if !is_good_segment(parts[i]) {
            return false;
        }
        i += 1;
    }
    true
}

/// A (possibly shortened) object id.
pub open spec fn good_oid(s: Seq<char>) -> bool {
    4 <= s.len() <= 64 && all_hex(s)
}

pub fn valid_oid(oid: &str) -> (r: bool)
    ensures
        r == good_oid(oid@),
{
    let all = chars(oid);
    4 <= all.len() && all.len() <= 64 && is_all_hex(&all)
}

/// A letter, digit or mark of an account or repository name.
pub open spec fn is_name_char(c: char) -> bool {
    is_alphanumeric(c) || c == '-' || c == '_' || c == '.'
}

pub open spec fn good_name(s: Seq<char>) -> bool {
    s.len() > 0 && forall|i: int| 0 <= i < s.len() ==> is_name_char(#[trigger] s[i])
}

fn is_good_name(s: &[char]) -> (r: bool)
    ensures
        r == good_name(s@),
{
    let mut i: usize = 0;
    while i < s.len()
        invariant
            i <= s@.len(),
            forall|k: int| 0 <= k < i ==> is_name_char(#[trigger] s@[k]),
        decreases s@.len() - i,
    {
        let c = s[i];
        if !(crate::text::alphanumeric(c) || c == '-' || c == '_' || c == '.') {
            assert(!is_name_char(s@[i as int]));
            return false;
        }
        i += 1;
    }
    s.len() > 0
}

/// The host and the path of a URL, where the text is one.
pub uninterp spec fn parsed_url(text: Seq<char>) -> Option<(Option<Seq<char>>, Seq<char>)>;

/// `url::Url::parse` with `host_str` and `path` of the result: a function of
/// the text.
#[verifier::external_body]
fn parse_url(text: &str) -> (r: Option<(Option<String>, String)>)
    ensures
        match r {
            Some((Some(host), path)) => parsed_url(text@) == Some((Some(host@), path@)),
            Some((None, path)) => parsed_url(text@) == Some((None::<Seq<char>>, path@)),
            None => parsed_url(text@) is None,
        },
{
    url::Url::parse(text).ok().map(|u| (u.host_str().map(|h| h.to_owned()), u.path().to_owned()))
}

/// `s` without any number of `suffix` at its end.
pub open spec fn without_suffixes(s: Seq<char>, suffix: Seq<char>) -> Seq<char>
    decreases s.len(),
{
    if suffix.len() > 0 {
        match strip_suffix(s, suffix) {
            Some(rest) => without_suffixes(rest, suffix),
            None => s,
        }
    } else {
        s
    }
}

/// `owner/repo` in the path of a remote.
pub open spec fn repository_in(path: Seq<char>) -> Option<Seq<char>> {
    let name = without_suffixes(trim_end(path, Pattern::One('/')), ".git"@);
    let parts = split(name, Pattern::One('/'));
    if parts.len() == 2 && good_name(parts[0]) && good_name(parts[1]) {
        Some(name)
    } else {
        None
    }
}

/// The repository of a URL with the given host and path.
pub open spec fn repository_at(url: Option<(Option<Seq<char>>, Seq<char>)>) -> Option<Seq<char>> {
    match url {
        Some((Some(host), path)) => if host == "github.com"@ {
            repository_in(trim_start(path, Pattern::One('/')))
        } else {
            None
        },
        _ => None,
    }
}

pub open spec fn repository_of(url: Seq<char>) -> Option<Seq<char>> {
    match strip_prefix(url, "git@github.com:"@) {
        Some(path) => repository_in(path),
        None => repository_at(parsed_url(url)),
    }
}

/// `owner/repo` in the path of a remote URL.
pub fn read_repository(path: &str) -> (r: Option<String>)
    ensures
        match r {
            Some(x) => repository_in(path@) == Some(x@),
            None => repository_in(path@) is None,
        },
{
    let all = chars(path);
    let mut name = trim_right(&all, Pattern::One('/'));
    let ghost start = name@;
    proof {
        reveal_strlit(".git");
    }
    loop
        invariant_except_break
            without_suffixes(start, ".git"@) == without_suffixes(name@, ".git"@),
            ".git"@.len() > 0,
        ensures
            name@ == without_suffixes(start, ".git"@),
        decreases name@.len(),
    {
        match crate::text::before_suffix(name, ".git") {
            Some(rest) => {
                name = rest;
            },
            None => {
                break;
            },
        }
    }
    let parts = split_at(name, Pattern::One('/'));
    let ghost segments = split(name@, Pattern::One('/'));
    assert(segments.len() == parts@.len());
    if parts.len() == 2 {
        assert(segments[0] == parts@[0]@);
        assert(segments[1] == parts@[1]@);
        if is_good_name(parts[0]) && is_good_name(parts[1]) {
            return Some(text(name));
        }
    }
    None
}

/// The repository of a parsed URL.
pub fn url_repository(url: Option<(Option<String>, String)>) -> (r: Option<String>)
    ensures
        ({
            let parsed = match url {
                Some((Some(host), path)) => Some((Some(host@), path@)),
                Some((None, path)) => Some((None::<Seq<char>>, path@)),
                None => None,
            };
            match r {
                Some(x) => repository_at(parsed) == Some(x@),
                None => repository_at(parsed) is None,
            }
        }),
{
    match url {
        Some((Some(host), path)) => {
            if same(&host, "github.com") {
                let all = chars(&path);
                let rest = text(trim_left(&all, Pattern::One('/')));
                read_repository(&rest)
            } else {
                None
            }
        },
        _ => None,
    }
}

/// `owner/repo` of a github.com remote URL.
pub fn repository(url: &str) -> (r: Option<String>)
    ensures
        match r {
            Some(x) => repository_of(url@) == Some(x@),
            None => repository_of(url@) is None,
        },
{
    let all = chars(url);
    match after_prefix(&all, "git@github.com:") {
        Some(path) => read_repository(&text(path)),
        None => url_repository(parse_url(url)),
    }
}

/// Whatever a remote's URL is, the repository is an owner and a name.
pub proof fn repositories_have_two_names(url: Seq<char>)
    requires
        repository_of(url) is Some,
    ensures
        ({
            let parts = split(repository_of(url)->0, Pattern::One('/'));
            parts.len() == 2 && good_name(parts[0]) && good_name(parts[1])
        }),
{
}

/// Owner and name of `owner/repo`.
pub fn names(repo: &str) -> (r: Result<(String, String), &'static str>)
    ensures
        match (r, split_once(repo@, "/"@)) {
            (Ok(x), Some(parts)) => x.0@ == parts.0 && x.1@ == parts.1,
            (Err(e), None) => e@ == "Invalid repository identity"@,
            _ => false,
        },
{
    let all = chars(repo);
    match cut(&all, "/") {
        Some((owner, name)) => Ok((text(owner), text(name))),
        None => Err("Invalid repository identity"),
    }
}

// ---------------------------------------------------------------------------
// The head of a branch
// ---------------------------------------------------------------------------

/// A Git remote and the repository that it pushes to. Remotes have different
/// names.
#[derive(Debug)]
pub struct Remote {
    pub name: String,
    pub repo: String,
}

pub open spec fn remotes_view(remotes: Seq<Remote>) -> Seq<(Seq<char>, Seq<char>)> {
    remotes.map_values(|r: Remote| (r.name@, r.repo@))
}

/// The first remote named `name` from index `i` on.
pub open spec fn find_remote(remotes: Seq<(Seq<char>, Seq<char>)>, name: Seq<char>, i: int) -> Option<
    int,
>
    decreases remotes.len() - i,
{
    if i < 0 || i >= remotes.len() {
        None
    } else if remotes[i].0 == name {
        Some(i)
    } else {
        find_remote(remotes, name, i + 1)
    }
}

/// The remote with the longest name whose branches the reference is among;
/// among the first `n`.
pub open spec fn longest_remote(
    remotes: Seq<(Seq<char>, Seq<char>)>,
    reference: Seq<char>,
    n: int,
) -> Option<int>
    decreases n,
{
    if n <= 0 {
        None
    } else {
        let best = longest_remote(remotes, reference, n - 1);
        let name = remotes[n - 1].0;
        if !starts_with(reference, name + "/"@) {
            best
        } else {
            match best {
                Some(b) => if remotes[b].0.len() >= name.len() {
                    best
                } else {
                    Some(n - 1)
                },
                None => Some(n - 1),
            }
        }
    }
}

/// The remote that a branch is pushed to when Git does not say where it goes.
pub open spec fn push_target(
    remotes: Seq<(Seq<char>, Seq<char>)>,
    tracking: Option<Seq<char>>,
    push_remote: Option<Seq<char>>,
) -> Result<int, Seq<char>> {
    match push_remote {
        Some(name) => match find_remote(remotes, name, 0) {
            Some(i) => Ok(i),
            None => Err("Configured push remote is not a supported GitHub repository"@),
        },
        None => match find_remote(remotes, "origin"@, 0) {
            Some(i) => Ok(i),
            None => {
                let tracked_remote = match tracking {
                    Some(name) => find_remote(remotes, name, 0),
                    None => None,
                };
                match tracked_remote {
                    Some(i) => Ok(i),
                    None => if remotes.len() == 1 {
                        Ok(0)
                    } else {
                        Err(
                            "Cannot identify GitHub head repository; use :review-select owner/repo#number"@,
                        )
                    },
                }
            },
        },
    }
}

/// The upstream branch that may be the head under another name.
pub open spec fn upstream_name(merge: Option<Seq<char>>, branch: Seq<char>) -> Option<Seq<char>> {
    match merge {
        Some(m) => match strip_prefix(m, "refs/heads/"@) {
            Some(b) => if b.len() > 0 && b != branch {
                Some(b)
            } else {
                None
            },
            None => None,
        },
        None => None,
    }
}

/// The head repository and the branch names to try, in order.
pub open spec fn head_of(
    remotes: Seq<(Seq<char>, Seq<char>)>,
    branch: Seq<char>,
    tracking: Option<Seq<char>>,
    merge: Option<Seq<char>>,
    push_remote: Option<Seq<char>>,
    push_ref: Option<Seq<char>>,
) -> Result<(Seq<char>, Seq<Seq<char>>), Seq<char>> {
    let reference = match push_ref {
        Some(r) => strip_prefix(r, "refs/remotes/"@),
        None => None,
    };
    let pushed = match reference {
        Some(r) => longest_remote(remotes, r, remotes.len() as int),
        None => None,
    };
    match pushed {
        Some(i) => Ok((remotes[i].1, seq![reference->0.skip((remotes[i].0.len() + 1) as int)])),
        None => match push_target(remotes, tracking, push_remote) {
            Err(e) => Err(e),
            Ok(i) => {
                let upstream = upstream_name(merge, branch);
                if tracking == Some(remotes[i].0) && upstream is Some {
                    Ok((remotes[i].1, seq![branch, upstream->0]))
                } else {
                    Ok((remotes[i].1, seq![branch]))
                }
            },
        },
    }
}

pub open spec fn opt(s: Option<&str>) -> Option<Seq<char>> {
    match s {
        Some(x) => Some(x@),
        None => None,
    }
}

fn remote_index(remotes: &Vec<Remote>, name: &str) -> (r: Option<usize>)
    ensures
        match r {
            Some(i) => i < remotes@.len() && find_remote(remotes_view(remotes@), name@, 0) == Some(
                i as int,
            ),
            None => find_remote(remotes_view(remotes@), name@, 0) is None,
        },
{
    let ghost all = remotes_view(remotes@);
    let mut i: usize = 0;
    while i < remotes.len()
        invariant
            i <= remotes@.len(),
            all == remotes_view(remotes@),
            find_remote(all, name@, 0) == find_remote(all, name@, i as int),
        decreases remotes@.len() - i,
    {
        assert(all[i as int].0 == remotes@[i as int].name@);
        if same(&remotes[i].name, name) {
            return Some(i);
        }
        i += 1;
    }
    None
}

fn pushed_remote(remotes: &Vec<Remote>, reference: &[char]) -> (r: Option<usize>)
    ensures
        match r {
            Some(i) => i < remotes@.len() && longest_remote(
                remotes_view(remotes@),
                reference@,
                remotes@.len() as int,
            ) == Some(i as int) && remotes@[i as int].name@.len() + 1 <= reference@.len(),
            None => longest_remote(
                remotes_view(remotes@),
                reference@,
                remotes@.len() as int,
            ) is None,
        },
{
    let ghost all = remotes_view(remotes@);
    let mut best: Option<usize> = None;
    let mut size: usize = 0;
    let mut i: usize = 0;
    while i < remotes.len()
        invariant
            i <= remotes@.len(),
            all == remotes_view(remotes@),
            match best {
                Some(b) => longest_remote(all, reference@, i as int) == Some(b as int) && b
                    < remotes@.len() && size == remotes@[b as int].name@.len() && size + 1
                    <= reference@.len(),
                None => longest_remote(all, reference@, i as int) is None,
            },
        decreases remotes@.len() - i,
    {
        assert(all[i as int].0 == remotes@[i as int].name@);
        let mut prefix = chars(&remotes[i].name);
        let length: usize = prefix.len();
        prefix.push('/');
        proof {
            reveal_strlit("/");
            assert(prefix@ =~= remotes@[i as int].name@ + "/"@);
        }
        if begins(reference, &prefix) {
            let longer = match best {
                Some(_) => length > size,
                None => true,
            };
            if longer {
                best = Some(i);
                size = length;
            }
        }
        i += 1;
    }
    best
}

/// Push identity matters in triangular forks: a feature may fetch upstream/main
/// while pushing origin/feature. Never substitute its fetch-upstream branch.
///
/// Returns the head repository and the branch names to try, in order. When Git
/// cannot resolve `@{push}` (for example `push.default=simple` with a local name
/// that differs from its upstream), the upstream branch name is tried after the
/// local name, but only if the upstream lives in the head repository itself.
pub fn head_target(
    repos: &Vec<Remote>,
    branch: &str,
    tracking: Option<&str>,
    merge: Option<&str>,
    push_remote: Option<&str>,
    push_ref: Option<&str>,
) -> (r: Result<(String, Vec<String>), &'static str>)
    ensures
        match (
            r,
            head_of(
                remotes_view(repos@),
                branch@,
                opt(tracking),
                opt(merge),
                opt(push_remote),
                opt(push_ref),
            ),
        ) {
            (Ok(x), Ok(target)) => x.0@ == target.0 && views(x.1@) == target.1,
            (Err(e), Err(message)) => e@ == message,
            _ => false,
        },
{
    let ghost all = remotes_view(repos@);
    match push_ref {
        Some(whole) => {
            let whole = chars(whole);
            match after_prefix(&whole, "refs/remotes/") {
                Some(reference) => match pushed_remote(repos, reference) {
                    Some(i) => {
                        let total: usize = reference.len();
                        let skip: usize = chars(&repos[i].name).len() + 1;
                        let name = crate::text::part(reference, skip, total);
                        assert(name@ =~= reference@.skip((all[i as int].0.len() + 1) as int));
                        let mut branches: Vec<String> = Vec::new();
                        branches.push(text(name));
                        assert(views(branches@) =~= seq![name@]);
                        return Ok((repos[i].repo.clone(), branches));
                    },
                    None => {},
                },
                None => {},
            }
        },
        None => {},
    }
    let target: Result<usize, &'static str> = match push_remote {
        Some(name) => match remote_index(repos, name) {
            Some(i) => Ok(i),
            None => Err("Configured push remote is not a supported GitHub repository"),
        },
        None => match remote_index(repos, "origin") {
            Some(i) => Ok(i),
            None => {
                let tracked_remote: Option<usize> = match tracking {
                    Some(name) => remote_index(repos, name),
                    None => None,
                };
                match tracked_remote {
                    Some(i) => Ok(i),
                    None => if repos.len() == 1 {
                        Ok(0)
                    } else {
                        Err(
                            "Cannot identify GitHub head repository; use :review-select owner/repo#number",
                        )
                    },
                }
            },
        },
    };
    let i: usize = match target {
        Ok(i) => i,
        Err(e) => return Err(e),
    };
    let mut branches: Vec<String> = Vec::new();
    branches.push(branch.to_owned());
    assert(views(branches@) =~= seq![branch@]);
    let own = match tracking {
        Some(name) => same(name, &repos[i].name),
        None => false,
    };
    if own {
        match merge {
            Some(m) => {
                let m = chars(m);
                match after_prefix(&m, "refs/heads/") {
                    Some(upstream) => {
                        if upstream.len() > 0 && !spells(upstream, branch) {
                            branches.push(text(upstream));
                            assert(views(branches@) =~= seq![branch@, upstream@]);
                        }
                    },
                    None => {},
                }
            },
            None => {},
        }
    }
    Ok((repos[i].repo.clone(), branches))
}

/// A branch that tracks another remote than the one it is pushed to is looked
/// for under its own name only.
pub proof fn upstream_of_another_remote_is_never_the_head(
    remotes: Seq<(Seq<char>, Seq<char>)>,
    branch: Seq<char>,
    tracking: Option<Seq<char>>,
    merge: Option<Seq<char>>,
    push_remote: Option<Seq<char>>,
)
    requires
        push_target(remotes, tracking, push_remote) is Ok,
        tracking != Some(remotes[push_target(remotes, tracking, push_remote)->Ok_0].0),
    ensures
        head_of(remotes, branch, tracking, merge, push_remote, None) == Ok::<
            (Seq<char>, Seq<Seq<char>>),
            Seq<char>,
        >((remotes[push_target(remotes, tracking, push_remote)->Ok_0].1, seq![branch])),
{
}

proof fn lemma_find_remote(remotes: Seq<(Seq<char>, Seq<char>)>, name: Seq<char>, i: int)
    requires
        0 <= i,
    ensures
        match find_remote(remotes, name, i) {
            Some(k) => i <= k < remotes.len() && remotes[k].0 == name,
            None => forall|k: int| i <= k < remotes.len() ==> (#[trigger] remotes[k]).0 != name,
        },
    decreases remotes.len() - i,
{
    if i < remotes.len() {
        lemma_find_remote(remotes, name, i + 1);
    }
}

/// A branch is pushed to the remote that is configured for it; without one to `origin`;
/// without that to the remote that it tracks; without that to the only one there is.
pub proof fn configured_remotes_come_first(
    remotes: Seq<(Seq<char>, Seq<char>)>,
    tracking: Option<Seq<char>>,
    push_remote: Option<Seq<char>>,
    k: int,
)
    requires
        0 <= k < remotes.len(),
    ensures
        push_remote == Some(remotes[k].0) ==> (push_target(remotes, tracking, push_remote) matches Ok(
            i,
        ) && 0 <= i < remotes.len() && remotes[i].0 == remotes[k].0),
        push_remote is None && remotes[k].0 == "origin"@ ==> (push_target(
            remotes,
            tracking,
            push_remote,
        ) matches Ok(i) && 0 <= i < remotes.len() && remotes[i].0 == "origin"@),
        push_remote is None && tracking == Some(remotes[k].0) && (forall|j: int|
            0 <= j < remotes.len() ==> (#[trigger] remotes[j]).0 != "origin"@) ==> (push_target(
            remotes,
            tracking,
            push_remote,
        ) matches Ok(i) && 0 <= i < remotes.len() && remotes[i].0 == remotes[k].0),
        push_remote is None && remotes.len() == 1 ==> push_target(remotes, tracking, push_remote)
            == Ok::<int, Seq<char>>(0),
        push_target(remotes, tracking, push_remote) matches Ok(i) ==> 0 <= i < remotes.len(),
        push_remote matches Some(name) && (forall|j: int|
            0 <= j < remotes.len() ==> (#[trigger] remotes[j]).0 != name) ==> push_target(
            remotes,
            tracking,
            push_remote,
        ) is Err,
{
    lemma_find_remote(remotes, "origin"@, 0);
    if let Some(name) = push_remote {
        lemma_find_remote(remotes, name, 0);
    }
    if let Some(name) = tracking {
        lemma_find_remote(remotes, name, 0);
    }
}

proof fn lemma_longest_remote(
    remotes: Seq<(Seq<char>, Seq<char>)>,
    reference: Seq<char>,
    n: int,
)
    requires
        0 <= n <= remotes.len(),
    ensures
        match longest_remote(remotes, reference, n) {
            Some(b) => 0 <= b < n && starts_with(reference, remotes[b].0 + "/"@) && forall|k: int|
                0 <= k < n && starts_with(reference, (#[trigger] remotes[k]).0 + "/"@)
                    ==> remotes[k].0.len() <= remotes[b].0.len(),
            None => forall|k: int|
                0 <= k < n ==> !starts_with(reference, (#[trigger] remotes[k]).0 + "/"@),
        },
    decreases n,
{
    if n > 0 {
        lemma_longest_remote(remotes, reference, n - 1);
    }
}

/// Where Git says where a branch is pushed to, that is the head: the repository of the
/// remote, and the branch there, whatever it is called here.
pub proof fn the_push_destination_is_the_head(
    remotes: Seq<(Seq<char>, Seq<char>)>,
    branch: Seq<char>,
    tracking: Option<Seq<char>>,
    merge: Option<Seq<char>>,
    push_remote: Option<Seq<char>>,
    k: int,
    there: Seq<char>,
)
    requires
        0 <= k < remotes.len(),
        forall|j: int|
            0 <= j < remotes.len() && j != k ==> !starts_with(
                remotes[k].0 + "/"@ + there,
                (#[trigger] remotes[j]).0 + "/"@,
            ),
    ensures
        head_of(
            remotes,
            branch,
            tracking,
            merge,
            push_remote,
            Some("refs/remotes/"@ + (remotes[k].0 + "/"@ + there)),
        ) == Ok::<(Seq<char>, Seq<Seq<char>>), Seq<char>>((remotes[k].1, seq![there])),
{
    reveal_strlit("/");
    let prefix = "refs/remotes/"@;
    let reference = remotes[k].0 + "/"@ + there;
    let full = prefix + reference;
    assert(full.take(prefix.len() as int) =~= prefix);
    assert(full.skip(prefix.len() as int) =~= reference);
    let own = remotes[k].0 + "/"@;
    assert(reference.take(own.len() as int) =~= own);
    lemma_longest_remote(remotes, reference, remotes.len() as int);
    assert(reference.skip((remotes[k].0.len() + 1) as int) =~= there);
}

/// Otherwise the head is looked for under the name of the branch, and then under that of
/// its upstream where that is in the same remote and has another name.
pub proof fn upstream_names_are_tried_second(
    remotes: Seq<(Seq<char>, Seq<char>)>,
    branch: Seq<char>,
    tracking: Option<Seq<char>>,
    push_remote: Option<Seq<char>>,
    upstream: Seq<char>,
)
    requires
        push_target(remotes, tracking, push_remote) matches Ok(i) && tracking == Some(remotes[i].0),
        upstream.len() > 0,
    ensures
        ({
            let i = push_target(remotes, tracking, push_remote)->Ok_0;
            head_of(
                remotes,
                branch,
                tracking,
                Some("refs/heads/"@ + upstream),
                push_remote,
                None,
            ) == Ok::<(Seq<char>, Seq<Seq<char>>), Seq<char>>(
                (
                    remotes[i].1,
                    if upstream == branch {
                        seq![branch]
                    } else {
                        seq![branch, upstream]
                    },
                ),
            )
        }),
{
    let prefix = "refs/heads/"@;
    let full = prefix + upstream;
    assert(full.take(prefix.len() as int) =~= prefix);
    assert(full.skip(prefix.len() as int) =~= upstream);
}

proof fn lemma_two_parts(owner: Seq<char>, repo: Seq<char>)
    requires
        good_name(owner),
        good_name(repo),
    ensures
        split(owner + seq!['/'] + repo, Pattern::One('/')) == seq![owner, repo],
{
    let name = owner + seq!['/'] + repo;
    assert forall|i: int| 0 <= i < owner.len() implies #[trigger] owner[i] != '/' by {
        assert(is_name_char(owner[i]));
    }
    assert forall|i: int| 0 <= i < repo.len() implies #[trigger] repo[i] != '/' by {
        assert(is_name_char(repo[i]));
    }
    crate::text::texts_are_cut_at_the_first(owner, '/', repo);
    crate::text::texts_without_a_separator_stay_whole(repo, '/');
    assert(name.take(owner.len() as int) =~= owner);
    assert(name.skip(owner.len() as int + 1) =~= repo);
    assert(split(repo, Pattern::One('/')) == seq![repo]);
    assert(split(name, Pattern::One('/')) =~= seq![owner, repo]);
}

/// An address on GitHub names the repository `owner/name`, with `.git` or without, with
/// a slash at its end or without, for SSH and for HTTPS; an address on another host
/// names none.
pub proof fn addresses_name_their_repository(owner: Seq<char>, repo: Seq<char>, host: Seq<char>)
    requires
        good_name(owner),
        good_name(repo),
        strip_suffix(owner + seq!['/'] + repo, ".git"@) is None,
    ensures
        ({
            let name = owner + seq!['/'] + repo;
            &&& repository_in(name) == Some(name)
            &&& repository_in(name + ".git"@) == Some(name)
            &&& repository_in(name + seq!['/']) == Some(name)
            &&& repository_of("git@github.com:"@ + (name + ".git"@)) == Some(name)
            &&& repository_at(Some((Some("github.com"@), seq!['/'] + name))) == Some(name)
            &&& host != "github.com"@ ==> repository_at(Some((Some(host), name))) is None
        }),
{
    reveal_strlit(".git");
    let slash = Pattern::One('/');
    let name = owner + seq!['/'] + repo;
    lemma_two_parts(owner, repo);
    assert(is_name_char(repo[repo.len() - 1]));
    assert(name.last() == repo[repo.len() - 1]);
    assert(trim_end(name, slash) == name);
    assert(without_suffixes(name, ".git"@) == name);
    let full = name + ".git"@;
    assert(full.last() == 't');
    assert(trim_end(full, slash) == full);
    assert(full.skip(full.len() - 4) =~= ".git"@);
    assert(full.take(full.len() - 4) =~= name);
    assert(strip_suffix(full, ".git"@) == Some(name));
    reveal_with_fuel(without_suffixes, 2);
    assert(without_suffixes(full, ".git"@) == name);
    let closed = name + seq!['/'];
    assert(closed.last() == '/');
    assert(closed.drop_last() =~= name);
    reveal_with_fuel(trim_end, 2);
    assert(trim_end(closed, slash) == name);
    let address = "git@github.com:"@ + full;
    let n = "git@github.com:"@.len() as int;
    assert(address.take(n) =~= "git@github.com:"@);
    assert(address.skip(n) =~= full);
    let path = seq!['/'] + name;
    assert(path[0] == '/');
    assert(path.skip(1) =~= name);
    assert(is_name_char(owner[0]));
    assert(name[0] == owner[0]);
    reveal_with_fuel(trim_start, 2);
    assert(trim_start(path, slash) == name);
}

} // verus!
