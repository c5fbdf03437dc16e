//! Finding a branch's pull request and loading its discussions, one answer at
//! a time.
use std::sync::Arc;

use vstd::prelude::*;

use crate::api::{cursor, missing_field, next_page, nodes, opt_view, string, LIMIT, MAX_PAGES};
use crate::github::{good_oid, good_path, repository, repository_of, valid_oid, valid_path, Remote};
use crate::json::{
    as_bool, as_list, as_number, as_text, at, compact, compact_json, has_member, item,
    json_content, lemma_list_view, list_view, member, parse_value, parsed_json, Json, JsonView,
};
use crate::order::{
    sort, sorted, text_le, text_le_total, text_le_transitive, text_not_after, Keyed,
};
use crate::review::{safe, safe_text, Comment, Original, Review, Source, Thread};
use crate::text::{
    all_hex, byte_len, chars, clip, clipped, cut, decimal, explain_number, is_all_hex, join,
    join_texts, lemma_hex_clip, lines, lowered, number_problem, parse_max, push_decimal,
    read_number, same, same_ignoring_case, size, slices, split_lines, split_once, strip, text,
    trimmed, views,
};

verus! {

// ---------------------------------------------------------------------------
// The pull request
// ---------------------------------------------------------------------------

#[derive(Debug)]
pub struct Pull {
    pub repo: String,
    pub number: u64,
    pub url: String,
    /// Head repository, when discovered from the branch.
    pub head_repo: Option<String>,
}

#[verifier::ext_equal]
pub struct PullView {
    pub repo: Seq<char>,
    pub number: u64,
    pub url: Seq<char>,
    pub head_repo: Option<Seq<char>>,
}

impl View for Pull {
    type V = PullView;

    open spec fn view(&self) -> PullView {
        PullView {
            repo: self.repo@,
            number: self.number,
            url: self.url@,
            head_repo: opt_view(self.head_repo),
        }
    }
}

pub open spec fn pulls_view(pulls: Seq<Pull>) -> Seq<PullView> {
    pulls.map_values(|p: Pull| p@)
}

/// The pull request that a selection `owner/repo#number` names.
pub open spec fn selected(selection: Seq<char>) -> Result<PullView, Seq<char>> {
    match split_once(selection, "#"@) {
        None => Err("Expected owner/repo#number"@),
        Some((repo, number)) => if repository_of("https://github.com/"@ + repo) != Some(repo) {
            Err("Invalid repository"@)
        } else {
            match parse_max(number, u64::MAX as nat) {
                Some(n) => Ok(
                    PullView { repo, number: n as u64, url: seq![], head_repo: None },
                ),
                None => Err(number_problem(number, u64::MAX as nat)),
            }
        },
    }
}

pub fn select_pull(selection: &str) -> (r: Result<Pull, &'static str>)
    ensures
        match (r, selected(selection@)) {
            (Ok(p), Ok(v)) => p@ == v,
            (Err(e), Err(message)) => e@ == message,
            _ => false,
        },
{
    let all = chars(selection);
    let (repo, number) = match cut(&all, "#") {
        Some(parts) => parts,
        None => return Err("Expected owner/repo#number"),
    };
    let repo = text(repo);
    let mut url = "https://github.com/".to_owned();
    url.append(&repo);
    let valid = match repository(&url) {
        Some(found) => same(&found, &repo),
        None => false,
    };
    if !valid {
        return Err("Invalid repository");
    }
    match read_number(number, u64::MAX) {
        Some(n) => {
            let pull = Pull { repo, number: n, url: String::new(), head_repo: None };
            assert(pull@.url =~= seq![]);
            Ok(pull)
        },
        None => Err(explain_number(number, u64::MAX)),
    }
}

pub open spec fn urls(pulls: Seq<PullView>) -> Seq<Seq<char>> {
    pulls.map_values(|p: PullView| p.url)
}

/// At most one pull request is the branch's: never pick the first of several.
pub fn unique_pull(pulls: Vec<Pull>) -> (r: Result<Option<Pull>, String>)
    ensures
        match r {
            Ok(None) => pulls@.len() == 0,
            Ok(Some(p)) => pulls@.len() == 1 && p == pulls@[0],
            Err(e) => pulls@.len() > 1 && e@ == ambiguous(pulls_view(pulls@)),
        },
{
    let mut pulls = pulls;
    if pulls.len() <= 1 {
        return Ok(pulls.pop());
    }
    let mut all: Vec<String> = Vec::new();
    let mut i: usize = 0;
    while i < pulls.len()
        invariant
            i <= pulls@.len(),
            views(all@) =~= urls(pulls_view(pulls@)).take(i as int),
        decreases pulls@.len() - i,
    {
        let ghost before = views(all@);
        all.push(pulls[i].url.clone());
        assert(views(all@) =~= before.push(pulls@[i as int].url@));
        i += 1;
    }
    assert(urls(pulls_view(pulls@)).take(i as int) =~= urls(pulls_view(pulls@)));
    let mut e = "Ambiguous branch association: ".to_owned();
    e.append(&join_texts(&all, ", "));
    e.append(". Use :review-select owner/repo#number to choose for this context.");
    Err(e)
}

/// The pull request's head is the given branch of the given repository.
pub open spec fn is_head(pr: JsonView, head_repo: Seq<char>, branch: Seq<char>) -> bool {
    (match as_text(at(at(pr, "headRepository"@), "nameWithOwner"@)) {
        Some(name) => lowered(name) == lowered(head_repo),
        None => false,
    }) && as_text(at(pr, "headRefName"@)) == Some(branch)
}

/// The pull requests among the nodes of a page whose head is the branch.
pub open spec fn matching(
    nodes: Seq<JsonView>,
    base: Seq<char>,
    head_repo: Seq<char>,
    branch: Seq<char>,
) -> Result<Seq<PullView>, Seq<char>>
    decreases nodes.len(),
{
    if nodes.len() == 0 {
        Ok(seq![])
    } else {
        match matching(nodes.drop_last(), base, head_repo, branch) {
            Err(e) => Err(e),
            Ok(rest) => {
                let pr = nodes.last();
                if !is_head(pr, head_repo, branch) {
                    Ok(rest)
                } else {
                    match (as_number(at(pr, "number"@)), as_text(at(pr, "url"@))) {
                        (None, _) => Err("Missing PR number"@),
                        (_, None) => Err(missing_field("url"@)),
                        (Some(number), Some(url)) => Ok(
                            rest.push(
                                PullView {
                                    repo: base,
                                    number,
                                    url: safe(url),
                                    head_repo: Some(head_repo),
                                },
                            ),
                        ),
                    }
                }
            },
        }
    }
}

proof fn lemma_matching_fails(
    nodes: Seq<JsonView>,
    base: Seq<char>,
    head_repo: Seq<char>,
    branch: Seq<char>,
    n: int,
)
    requires
        0 <= n <= nodes.len(),
        matching(nodes.take(n), base, head_repo, branch) is Err,
    ensures
        matching(nodes, base, head_repo, branch) == matching(
            nodes.take(n),
            base,
            head_repo,
            branch,
        ),
    decreases nodes.len() - n,
{
    if n < nodes.len() {
        assert(nodes.take(n + 1).drop_last() =~= nodes.take(n));
        lemma_matching_fails(nodes, base, head_repo, branch, n + 1);
    } else {
        assert(nodes.take(n) =~= nodes);
    }
}

/// The pull requests on a page of base repository `base` whose head is the
/// branch.
pub fn matching_pulls(items: &Vec<Json>, base: &str, head_repo: &str, branch: &str) -> (r: Result<
    Vec<Pull>,
    String,
>)
    ensures
        match (r, matching(list_view(items@), base@, head_repo@, branch@)) {
            (Ok(pulls), Ok(all)) => pulls_view(pulls@) == all,
            (Err(e), Err(message)) => e@ == message,
            _ => false,
        },
{
    let ghost all = list_view(items@);
    proof {
        lemma_list_view(items@);
    }
    let wanted = chars(head_repo);
    let mut pulls: Vec<Pull> = Vec::new();
    let mut i: usize = 0;
    assert(all.take(0) =~= seq![]);
    assert(pulls_view(pulls@) =~= seq![]);
    while i < items.len()
        invariant
            i <= items@.len(),
            wanted@ == head_repo@,
            all == list_view(items@),
            all.len() == items@.len(),
            forall|k: int| 0 <= k < items@.len() ==> #[trigger] all[k] == items@[k]@,
            matching(all.take(i as int), base@, head_repo@, branch@) == Ok::<
                Seq<PullView>,
                Seq<char>,
            >(pulls_view(pulls@)),
        decreases items@.len() - i,
    {
        let pr = &items[i];
        let ghost next = all.take(i + 1);
        assert(next.drop_last() =~= all.take(i as int));
        assert(next.last() == pr@);
        let repo_matches = match pr.text_in("headRepository", "nameWithOwner") {
            Some(name) => same_ignoring_case(&chars(name), &wanted),
            None => false,
        };
        let branch_matches = match pr.text("headRefName") {
            Some(name) => same(name, branch),
            None => false,
        };
        if repo_matches && branch_matches {
            let number: u64 = match pr.number("number") {
                Some(n) => n,
                None => {
                    proof {
                        lemma_matching_fails(all, base@, head_repo@, branch@, i + 1);
                    }
                    return Err("Missing PR number".to_owned());
                },
            };
            let url = match string(pr, "url") {
                Ok(url) => safe_text(url),
                Err(e) => {
                    proof {
                        lemma_matching_fails(all, base@, head_repo@, branch@, i + 1);
                    }
                    return Err(e);
                },
            };
            let pull = Pull {
                repo: base.to_owned(),
                number,
                url,
                head_repo: Some(head_repo.to_owned()),
            };
            let ghost before = pulls_view(pulls@);
            let ghost this = pull@;
            pulls.push(pull);
            assert(pulls_view(pulls@) =~= before.push(this));
        }
        i += 1;
    }
    assert(all.take(i as int) =~= all);
    Ok(pulls)
}

/// The list with `x` in it.
pub open spec fn with(list: Seq<Seq<char>>, x: Seq<char>) -> Seq<Seq<char>> {
    if list.contains(x) {
        list
    } else {
        list.push(x)
    }
}

/// The list with the repositories of the given URLs.
pub open spec fn with_repositories(list: Seq<Seq<char>>, urls: Seq<Seq<char>>) -> Seq<Seq<char>>
    decreases urls.len(),
{
    if urls.len() == 0 {
        list
    } else {
        let rest = with_repositories(list, urls.drop_last());
        match repository_of(urls.last()) {
            Some(repo) => with(rest, repo),
            None => rest,
        }
    }
}

pub fn has_text(list: &Vec<String>, x: &str) -> (r: bool)
    ensures
        r == views(list@).contains(x@),
{
    let ghost all = views(list@);
    let mut i: usize = 0;
    while i < list.len()
        invariant
            i <= list@.len(),
            all == views(list@),
            forall|k: int| 0 <= k < i ==> #[trigger] all[k] != x@,
        decreases list@.len() - i,
    {
        assert(all[i as int] == list@[i as int]@);
        if same(&list[i], x) {
            return true;
        }
        i += 1;
    }
    false
}

fn put(list: &mut Vec<String>, x: String)
    ensures
        views(final(list)@) == with(views(old(list)@), x@),
{
    if !has_text(list, &x) {
        let ghost before = views(list@);
        let ghost added = x@;
        list.push(x);
        assert(views(list@) =~= before.push(added));
    }
}

fn put_repositories(list: &mut Vec<String>, text: &str)
    ensures
        views(final(list)@) == with_repositories(views(old(list)@), lines(text@)),
{
    let all = chars(text);
    let parts = split_lines(&all);
    let ghost rows = lines(text@);
    let ghost start = views(list@);
    let mut i: usize = 0;
    assert(rows.take(0) =~= seq![]);
    while i < parts.len()
        invariant
            i <= parts@.len(),
            rows == slices(parts@),
            views(list@) == with_repositories(start, rows.take(i as int)),
        decreases parts@.len() - i,
    {
        assert(rows.take(i + 1).drop_last() =~= rows.take(i as int));
        assert(rows.take(i + 1).last() == parts@[i as int]@);
        let url = crate::text::text(parts[i]);
        match repository(&url) {
            Some(repo) => put(list, repo),
            None => {},
        }
        i += 1;
    }
    assert(rows.take(i as int) =~= rows);
}

/// What the remotes of a repository say about its repositories on GitHub.
#[derive(Debug)]
pub struct Discovery {
    /// The remotes that push to GitHub.
    pub remotes: Vec<Remote>,
    /// The repositories that the pull request may be in.
    pub bases: Vec<String>,
}

impl Discovery {
    pub fn new() -> (r: Discovery)
        ensures
            r.remotes@.len() == 0,
            r.bases@.len() == 0,
    {
        Discovery { remotes: Vec::new(), bases: Vec::new() }
    }

    /// Add a remote with its fetch and push URLs, one per line.
    pub fn add_remote(&mut self, remote: &str, fetch_urls: &str, push_urls: &str) -> (r: Result<
        (),
        String,
    >)
        ensures
            ({
                let pushes = with_repositories(seq![], lines(push_urls@));
                let fetched = with_repositories(views(old(self).bases@), lines(fetch_urls@));
                match r {
                    Err(e) => pushes.len() > 1 && *final(self) == *old(self) && e@ == "Remote "@
                        + remote@
                        + " has multiple GitHub push destinations; use :review-select owner/repo#number"@,
                    Ok(_) => if pushes.len() == 0 {
                        views(final(self).bases@) == fetched && final(self).remotes
                            == old(self).remotes
                    } else {
                        &&& pushes.len() == 1
                        &&& views(final(self).bases@) == with(fetched, pushes[0])
                        &&& final(self).remotes@.len() == old(self).remotes@.len() + 1
                        &&& final(self).remotes@.drop_last() == old(self).remotes@
                        &&& final(self).remotes@.last().name@ == remote@
                        &&& final(self).remotes@.last().repo@ == pushes[0]
                    },
                }
            }),
    {
        let mut pushes: Vec<String> = Vec::new();
        assert(views(pushes@) =~= seq![]);
        put_repositories(&mut pushes, push_urls);
        if pushes.len() > 1 {
            let mut e = "Remote ".to_owned();
            e.append(remote);
            e.append(
                " has multiple GitHub push destinations; use :review-select owner/repo#number",
            );
            return Err(e);
        }
        put_repositories(&mut self.bases, fetch_urls);
        let ghost all = views(pushes@);
        match pushes.pop() {
            Some(repo) => {
                assert(all[0] == repo@);
                put(&mut self.bases, repo.clone());
                self.remotes.push(Remote { name: remote.to_owned(), repo });
                assert(self.remotes@.drop_last() =~= old(self).remotes@);
            },
            None => {},
        }
        Ok(())
    }

    /// Whether some remote pushes to GitHub.
    pub fn ready(&self) -> (r: Result<(), &'static str>)
        ensures
            match r {
                Ok(_) => self.remotes@.len() > 0,
                Err(e) => self.remotes@.len() == 0 && e@
                    == "No github.com remote found; use :review-select owner/repo#number"@,
            },
    {
        if self.remotes.len() == 0 {
            Err("No github.com remote found; use :review-select owner/repo#number")
        } else {
            Ok(())
        }
    }

    /// Add the repository that the head repository was forked from.
    pub fn add_parent(&mut self, data: &Json)
        ensures
            final(self).remotes == old(self).remotes,
            views(final(self).bases@) == (match as_text(
                at(at(at(data@, "repository"@), "parent"@), "nameWithOwner"@),
            ) {
                Some(parent) => with(views(old(self).bases@), parent),
                None => views(old(self).bases@),
            }),
    {
        match data.get("repository") {
            Some(repository) => match repository.text_in("parent", "nameWithOwner") {
                Some(parent) => put(&mut self.bases, parent.to_owned()),
                None => {},
            },
            None => {},
        }
    }
}

/// What follows page number `page` of a list: the next page, or the end.
pub open spec fn following(v: JsonView, page: int, problem: Seq<char>) -> Result<
    Option<Seq<char>>,
    Seq<char>,
> {
    match next_page(v) {
        Ok(Some(after)) => if page + 1 < MAX_PAGES {
            Ok(Some(after))
        } else {
            Err(problem)
        },
        other => other,
    }
}

/// Where the page after page number `page` starts; the number of pages is bounded.
pub fn next_cursor(connection: &Json, page: usize, problem: &str) -> (r: Result<
    Option<String>,
    String,
>)
    ensures
        match (r, following(connection@, page as int, problem@)) {
            (Ok(a), Ok(b)) => opt_view(a) == b,
            (Err(e), Err(message)) => e@ == message,
            _ => false,
        },
{
    match cursor(connection) {
        Ok(Some(after)) => if page < MAX_PAGES - 1 {
            Ok(Some(after))
        } else {
            Err(problem.to_owned())
        },
        Ok(None) => Ok(None),
        Err(e) => Err(e),
    }
}

/// The search for the pull request of a branch: every repository in which it may be is
/// asked page by page for each name that the branch may have there, until a name is
/// found.
#[derive(Debug)]
pub struct Search {
    pub head_repo: String,
    /// The names of the branch, in the order in which they are tried.
    pub branches: Vec<String>,
    pub bases: Vec<String>,
    /// The name, the repository and the page that are asked for.
    pub branch: usize,
    pub base: usize,
    pub page: usize,
    /// What was found for the name so far.
    pub found: Vec<Pull>,
}

/// What follows a page of the search.
#[derive(Debug)]
pub enum Searching {
    /// Ask for the page that starts here.
    Page(String),
    /// Ask for the first page of the next repository.
    Base,
    /// Ask for the first page of the first repository, with the next name.
    Branch,
    /// The pull request, if there is one.
    End(Option<Pull>),
}

pub const TOO_MANY_PULLS: &'static str =
    "Too many PR pages; cannot establish unambiguous association";

pub open spec fn ambiguous(pulls: Seq<PullView>) -> Seq<char> {
    "Ambiguous branch association: "@ + join(urls(pulls), ", "@)
        + ". Use :review-select owner/repo#number to choose for this context."@
}

/// The nodes of a page.
pub open spec fn page_nodes(connection: JsonView) -> Result<Seq<JsonView>, Seq<char>> {
    match as_list(at(connection, "nodes"@)) {
        Some(items) => Ok(items),
        None => Err("Missing GitHub connection"@),
    }
}

impl Search {
    /// Something is asked for.
    pub open spec fn wf(&self) -> bool {
        self.branch < self.branches@.len() && self.base < self.bases@.len()
    }

    /// The same is asked for.
    pub open spec fn asks_as(&self, other: Search) -> bool {
        self.branch == other.branch && self.base == other.base && self.page == other.page
    }

    pub fn new(head_repo: String, branches: Vec<String>, bases: Vec<String>) -> (r: Search)
        ensures
            r.head_repo == head_repo,
            r.branches == branches,
            r.bases == bases,
            r.branch == 0,
            r.base == 0,
            r.page == 0,
            r.found@.len() == 0,
            r.wf() == (branches@.len() > 0 && bases@.len() > 0),
    {
        Search { head_repo, branches, bases, branch: 0, base: 0, page: 0, found: Vec::new() }
    }

    /// A page arrived. Own fork and its parent can both have a pull request for the
    /// same branch: the search of a name ends in every repository before one of them
    /// is taken, and the first name for which there is one is the last that is asked
    /// for.
    pub fn take_page(&mut self, connection: &Json) -> (r: Result<Searching, String>)
        requires
            old(self).wf(),
        ensures
            final(self).head_repo == old(self).head_repo,
            final(self).branches == old(self).branches,
            final(self).bases == old(self).bases,
            ({
                let was = *old(self);
                let now = *final(self);
                let pulls = match page_nodes(connection@) {
                    Err(e) => Err(e),
                    Ok(items) => matching(
                        items,
                        was.bases@[was.base as int]@,
                        was.head_repo@,
                        was.branches@[was.branch as int]@,
                    ),
                };
                let next = following(connection@, was.page as int, TOO_MANY_PULLS@);
                let last_base = was.base + 1 == was.bases@.len();
                let last_branch = was.branch + 1 == was.branches@.len();
                match (pulls, next) {
                    (Err(message), _) => now == was && (r matches Err(e) && e@ == message),
                    (_, Err(message)) => now == was && (r matches Err(e) && e@ == message),
                    (Ok(pulls), Ok(next)) => {
                        let found = pulls_view(was.found@) + pulls;
                        match next {
                            Some(after) => {
                                &&& r matches Ok(Searching::Page(p)) && p@ == after
                                &&& now.wf()
                                &&& now.branch == was.branch
                                &&& now.base == was.base
                                &&& now.page == was.page + 1
                                &&& pulls_view(now.found@) == found
                            },
                            None => if !last_base {
                                &&& r matches Ok(Searching::Base)
                                &&& now.wf()
                                &&& now.branch == was.branch
                                &&& now.base == was.base + 1
                                &&& now.page == 0
                                &&& pulls_view(now.found@) == found
                            } else if found.len() > 1 {
                                was.asks_as(now) && (r matches Err(e) && e@ == ambiguous(found))
                            } else if found.len() == 1 {
                                was.asks_as(now) && (r matches Ok(Searching::End(Some(pull)))
                                    && pull@ == found[0])
                            } else if !last_branch {
                                &&& r matches Ok(Searching::Branch)
                                &&& now.wf()
                                &&& now.branch == was.branch + 1
                                &&& now.base == 0
                                &&& now.page == 0
                                &&& now.found@.len() == 0
                            } else {
                                was.asks_as(now) && (r matches Ok(Searching::End(None)))
                            },
                        }
                    },
                }
            }),
    {
        let ghost was = *self;
        let items = match nodes(connection) {
            Ok(items) => items,
            Err(e) => return Err(e.to_owned()),
        };
        let pulls = match matching_pulls(
            items,
            &self.bases[self.base],
            &self.head_repo,
            &self.branches[self.branch],
        ) {
            Ok(pulls) => pulls,
            Err(e) => return Err(e),
        };
        let next = match next_cursor(connection, self.page, TOO_MANY_PULLS) {
            Ok(next) => next,
            Err(e) => return Err(e),
        };
        let mut pulls = pulls;
        let ghost fresh = pulls_view(pulls@);
        self.found.append(&mut pulls);
        let ghost found = pulls_view(was.found@) + fresh;
        assert(pulls_view(self.found@) =~= found);
        match next {
            Some(after) => {
                self.page += 1;
                return Ok(Searching::Page(after));
            },
            None => {},
        }
        if self.base < self.bases.len() - 1 {
            self.base += 1;
            self.page = 0;
            return Ok(Searching::Base);
        }
        let mut all: Vec<Pull> = Vec::new();
        all.append(&mut self.found);
        assert(pulls_view(all@) =~= found);
        match unique_pull(all) {
            Ok(Some(pull)) => {
                assert(found[0] == pull@);
                Ok(Searching::End(Some(pull)))
            },
            Err(e) => Err(e),
            Ok(None) => {
                if self.branch < self.branches.len() - 1 {
                    self.branch += 1;
                    self.base = 0;
                    self.page = 0;
                    Ok(Searching::Branch)
                } else {
                    Ok(Searching::End(None))
                }
            },
        }
    }
}

// ---------------------------------------------------------------------------
// The discussions
// ---------------------------------------------------------------------------

pub open spec fn comments_size(comments: Seq<Comment>) -> nat
    decreases comments.len(),
{
    if comments.len() == 0 {
        0
    } else {
        comments_size(comments.drop_last()) + size(comments.last().body@) + size(
            comments.last().author@,
        )
    }
}

/// The bytes of a discussion that count toward the limit.
pub open spec fn thread_size(t: Thread) -> nat {
    comments_size(t.comments@) + size(t.diff@)
}

/// `total + n`, if that is within the limit.
fn grow(total: usize, n: usize) -> (r: Option<usize>)
    requires
        total <= LIMIT,
    ensures
        match r {
            Some(x) => x == total + n && x <= LIMIT,
            None => total + n > LIMIT,
        },
{
    if n <= LIMIT - total {
        Some(total + n)
    } else {
        None
    }
}

proof fn lemma_comments_size(comments: Seq<Comment>, n: int)
    requires
        0 <= n <= comments.len(),
    ensures
        comments_size(comments.take(n)) <= comments_size(comments),
    decreases comments.len() - n,
{
    if n < comments.len() {
        lemma_comments_size(comments, n + 1);
        assert(comments.take(n + 1).drop_last() =~= comments.take(n));
    } else {
        assert(comments.take(n) =~= comments);
    }
}

fn grow_thread(total: usize, t: &Thread) -> (r: Option<usize>)
    requires
        total <= LIMIT,
    ensures
        match r {
            Some(x) => x == total + thread_size(*t) && x <= LIMIT,
            None => total + thread_size(*t) > LIMIT,
        },
{
    let mut sum: usize = total;
    let mut i: usize = 0;
    while i < t.comments.len()
        invariant
            i <= t.comments@.len(),
            sum <= LIMIT,
            total <= LIMIT,
            sum == total + comments_size(t.comments@.take(i as int)),
        decreases t.comments@.len() - i,
    {
        let ghost next = t.comments@.take(i + 1);
        assert(next.drop_last() =~= t.comments@.take(i as int));
        proof {
            lemma_comments_size(t.comments@, i + 1);
        }
        sum = match grow(sum, byte_len(&t.comments[i].body)) {
            Some(x) => x,
            None => return None,
        };
        sum = match grow(sum, byte_len(&t.comments[i].author)) {
            Some(x) => x,
            None => return None,
        };
        i += 1;
    }
    assert(t.comments@.take(i as int) =~= t.comments@);
    grow(sum, byte_len(&t.diff))
}

/// A revision as the pages report it.
pub open spec fn good_revision(s: Seq<char>) -> bool {
    0 < s.len() <= 64 && all_hex(s)
}

/// Where a discussion starts, for sorting.
pub open spec fn first_line(t: Thread) -> int {
    match t.lines {
        Some(r) => r.start as int,
        None => -1,
    }
}

impl Keyed for Thread {
    /// By path, first line (none first) and id.
    open spec fn le(&self, other: &Thread) -> bool {
        if self.path@ != other.path@ {
            text_le(self.path@, other.path@)
        } else if first_line(*self) != first_line(*other) {
            first_line(*self) < first_line(*other)
        } else {
            text_le(self.id@, other.id@)
        }
    }

    proof fn total(a: &Thread, b: &Thread) {
        text_le_total(a.path@, b.path@);
        text_le_total(a.id@, b.id@);
    }

    proof fn transitive(a: &Thread, b: &Thread, c: &Thread) {
        if a.path@ == b.path@ && b.path@ == c.path@ {
            if first_line(*a) == first_line(*b) && first_line(*b) == first_line(*c) {
                text_le_transitive(a.id@, b.id@, c.id@);
            }
        } else {
            text_le_total(a.path@, b.path@);
            text_le_total(b.path@, c.path@);
            text_le_transitive(a.path@, b.path@, c.path@);
            if a.path@ == c.path@ {
                text_le_total(a.path@, b.path@);
            }
        }
    }

    fn not_after(&self, other: &Thread) -> (r: bool) {
        let a = chars(&self.path);
        let b = chars(&other.path);
        if !crate::text::equal(&a, &b) {
            return text_not_after(&a, &b);
        }
        match (&self.lines, &other.lines) {
            (Some(x), Some(y)) => {
                if x.start != y.start {
                    return x.start < y.start;
                }
            },
            (None, Some(_)) => return true,
            (Some(_), None) => return false,
            (None, None) => {},
        }
        text_not_after(&chars(&self.id), &chars(&other.id))
    }
}

/// The review that is being loaded.
#[derive(Debug)]
pub struct Fetch {
    /// Head revision and time of the last change, once known.
    pub revision: Option<String>,
    pub updated: Option<String>,
    pub threads: Vec<Thread>,
    pub sources: Vec<Source>,
    pub originals: Vec<Original>,
    /// The bytes of all texts.
    pub bytes: usize,
}

/// The paths of discussions with lines, each once, in order.
pub open spec fn source_paths(threads: Seq<Thread>) -> Seq<Seq<char>>
    decreases threads.len(),
{
    if threads.len() == 0 {
        seq![]
    } else {
        let rest = source_paths(threads.drop_last());
        if threads.last().lines is Some {
            with(rest, threads.last().path@)
        } else {
            rest
        }
    }
}

/// The commit and path whose text places an outdated discussion.
pub open spec fn original_key(t: Thread) -> Option<(Seq<char>, Seq<char>)> {
    match (t.lines, t.original_lines, t.commit) {
        (None, Some(_), Some(commit)) => if good_path(t.path@) && good_oid(commit@) {
            Some((commit@, t.path@))
        } else {
            None
        },
        _ => None,
    }
}

/// The commits and paths whose texts place outdated discussions, each once.
pub open spec fn original_keys(threads: Seq<Thread>) -> Seq<(Seq<char>, Seq<char>)>
    decreases threads.len(),
{
    if threads.len() == 0 {
        seq![]
    } else {
        let rest = original_keys(threads.drop_last());
        match original_key(threads.last()) {
            Some(key) => if rest.contains(key) {
                rest
            } else {
                rest.push(key)
            },
            None => rest,
        }
    }
}

/// A file at a commit.
#[derive(Debug)]
pub struct FileAt {
    pub commit: String,
    pub path: String,
}

pub open spec fn files_view(files: Seq<FileAt>) -> Seq<(Seq<char>, Seq<char>)> {
    files.map_values(|f: FileAt| (f.commit@, f.path@))
}

/// The text of a blob that is small enough and no binary.
pub open spec fn blob_text(blob: JsonView) -> Option<Seq<char>> {
    match (as_bool(at(blob, "isBinary"@)), as_number(at(blob, "byteSize"@))) {
        (Some(false), Some(n)) => if n <= 2097152 {
            as_text(at(blob, "text"@))
        } else {
            None
        },
        _ => None,
    }
}

pub open spec fn label(repo: Seq<char>, number: u64, revision: Seq<char>) -> Seq<char> {
    repo + "#"@ + decimal(number as nat) + " @ "@ + clipped(revision, 12)
}

/// The discussions behind their shared pointers.
pub open spec fn shared(threads: Seq<Arc<Thread>>) -> Seq<Thread> {
    threads.map_values(|t: Arc<Thread>| *t)
}

impl Fetch {
    pub open spec fn wf(self) -> bool {
        &&& self.bytes <= LIMIT
        &&& self.revision is Some == self.updated is Some
        &&& self.revision matches Some(r) ==> good_revision(r@)
    }

    pub fn new() -> (r: Fetch)
        ensures
            r.wf(),
            r.revision is None,
            r.threads@.len() == 0,
            r.sources@.len() == 0,
            r.originals@.len() == 0,
            r.bytes == 0,
    {
        Fetch {
            revision: None,
            updated: None,
            threads: Vec::new(),
            sources: Vec::new(),
            originals: Vec::new(),
            bytes: 0,
        }
    }

    /// Begin a page of the pull request `pr`. All pages have to be of the same
    /// revision.
    pub fn begin_page(&mut self, pr: &Json) -> (r: Result<(), String>)
        requires
            old(self).wf(),
        ensures
            final(self).wf(),
            final(self).threads == old(self).threads,
            final(self).sources == old(self).sources,
            final(self).originals == old(self).originals,
            final(self).bytes == old(self).bytes,
            match (as_text(at(pr@, "headRefOid"@)), as_text(at(pr@, "updatedAt"@))) {
                (None, _) => r matches Err(e) && e@ == missing_field("headRefOid"@),
                (Some(head), stamp) => if !good_revision(head) {
                    r matches Err(e) && e@ == "Invalid PR revision"@
                } else {
                    match stamp {
                        None => r matches Err(e) && e@ == missing_field("updatedAt"@),
                        Some(stamp) => if old(self).revision is Some && (opt_view(
                            old(self).revision,
                        ) != Some(head) || opt_view(old(self).updated) != Some(stamp)) {
                            r matches Err(e) && e@ == "PR changed during fetch; refresh reviews"@
                        } else {
                            r is Ok && opt_view(final(self).revision) == Some(head) && opt_view(
                                final(self).updated,
                            ) == Some(stamp)
                        },
                    }
                },
            },
            r is Err ==> *final(self) == *old(self),
    {
        let head = match string(pr, "headRefOid") {
            Ok(head) => head,
            Err(e) => return Err(e),
        };
        let digits = chars(head);
        if !(digits.len() > 0 && digits.len() <= 64 && is_all_hex(&digits)) {
            return Err("Invalid PR revision".to_owned());
        }
        let stamp = match string(pr, "updatedAt") {
            Ok(stamp) => stamp,
            Err(e) => return Err(e),
        };
        match (&self.revision, &self.updated) {
            (Some(revision), Some(updated)) => {
                if !same(revision, head) || !same(updated, stamp) {
                    return Err("PR changed during fetch; refresh reviews".to_owned());
                }
            },
            _ => {},
        }
        self.revision = Some(head.to_owned());
        self.updated = Some(stamp.to_owned());
        Ok(())
    }

    /// Add a discussion; their number and size are bounded.
    pub fn add_thread(&mut self, thread: Thread) -> (r: Result<(), &'static str>)
        requires
            old(self).wf(),
        ensures
            final(self).wf(),
            match r {
                Ok(_) => {
                    &&& old(self).bytes + thread_size(thread) <= LIMIT
                    &&& old(self).threads@.len() < 2000
                    &&& final(self).threads@ == old(self).threads@.push(thread)
                    &&& final(self).bytes == old(self).bytes + thread_size(thread)
                    &&& final(self).revision == old(self).revision
                    &&& final(self).updated == old(self).updated
                    &&& final(self).sources == old(self).sources
                    &&& final(self).originals == old(self).originals
                },
                Err(e) => {
                    &&& old(self).bytes + thread_size(thread) > LIMIT || old(self).threads@.len()
                        >= 2000
                    &&& e@ == "Review exceeds display size limit"@
                    &&& *final(self) == *old(self)
                },
            },
    {
        let bytes: usize = match grow_thread(self.bytes, &thread) {
            Some(bytes) => bytes,
            None => return Err("Review exceeds display size limit"),
        };
        if self.threads.len() >= 2000 {
            return Err("Review exceeds display size limit");
        }
        self.bytes = bytes;
        self.threads.push(thread);
        Ok(())
    }

    /// The paths whose texts at the head are needed.
    pub fn wanted_sources(&self) -> (r: Vec<String>)
        ensures
            views(r@) == source_paths(self.threads@),
    {
        let mut r: Vec<String> = Vec::new();
        let mut i: usize = 0;
        assert(views(r@) =~= seq![]);
        assert(self.threads@.take(0) =~= seq![]);
        while i < self.threads.len()
            invariant
                i <= self.threads@.len(),
                views(r@) == source_paths(self.threads@.take(i as int)),
            decreases self.threads@.len() - i,
        {
            assert(self.threads@.take(i + 1).drop_last() =~= self.threads@.take(i as int));
            if self.threads[i].lines.is_some() {
                put(&mut r, self.threads[i].path.clone());
            }
            i += 1;
        }
        assert(self.threads@.take(i as int) =~= self.threads@);
        r
    }

    /// Add a file's text at the head, if there is one that is small enough.
    pub fn add_source(&mut self, path: &str, blob: &Json) -> (r: Result<(), &'static str>)
        requires
            old(self).wf(),
        ensures
            final(self).wf(),
            final(self).revision == old(self).revision,
            final(self).updated == old(self).updated,
            final(self).threads == old(self).threads,
            final(self).originals == old(self).originals,
            match blob_text(blob@) {
                None => r is Ok && *final(self) == *old(self),
                Some(t) => if old(self).bytes + size(t) > LIMIT {
                    *final(self) == *old(self) && (r matches Err(e) && e@
                        == "Review source snapshots exceed size limit"@)
                } else {
                    &&& r is Ok
                    &&& final(self).bytes == old(self).bytes + size(t)
                    &&& final(self).sources@.len() == old(self).sources@.len() + 1
                    &&& final(self).sources@.drop_last() == old(self).sources@
                    &&& final(self).sources@.last().path@ == path@
                    &&& final(self).sources@.last().text@ == t
                },
            },
    {
        let small = match (blob.bool("isBinary"), blob.number("byteSize")) {
            (Some(false), Some(n)) => n <= 2097152,
            _ => false,
        };
        if !small {
            return Ok(());
        }
        match blob.text("text") {
            Some(t) => match grow(self.bytes, byte_len(t)) {
                Some(bytes) => {
                    self.bytes = bytes;
                    self.sources.push(Source { path: path.to_owned(), text: t.to_owned() });
                    assert(self.sources@.drop_last() =~= old(self).sources@);
                    Ok(())
                },
                None => Err("Review source snapshots exceed size limit"),
            },
            None => Ok(()),
        }
    }

    /// The files whose texts place outdated discussions.
    pub fn wanted_originals(&self) -> (r: Vec<FileAt>)
        ensures
            files_view(r@) == original_keys(self.threads@),
    {
        let mut r: Vec<FileAt> = Vec::new();
        let mut i: usize = 0;
        assert(files_view(r@) =~= seq![]);
        assert(self.threads@.take(0) =~= seq![]);
        while i < self.threads.len()
            invariant
                i <= self.threads@.len(),
                files_view(r@) == original_keys(self.threads@.take(i as int)),
            decreases self.threads@.len() - i,
        {
            assert(self.threads@.take(i + 1).drop_last() =~= self.threads@.take(i as int));
            let t = &self.threads[i];
            match (&t.lines, &t.original_lines, &t.commit) {
                (None, Some(_), Some(commit)) => {
                    if valid_path(&t.path) && valid_oid(commit) {
                        put_file(&mut r, FileAt { commit: commit.clone(), path: t.path.clone() });
                    }
                },
                _ => {},
            }
            i += 1;
        }
        assert(self.threads@.take(i as int) =~= self.threads@);
        r
    }

    /// Add a file's text at the commit of an outdated discussion.
    pub fn add_original(&mut self, file: FileAt, text: String) -> (r: Result<(), &'static str>)
        requires
            old(self).wf(),
        ensures
            final(self).wf(),
            final(self).revision == old(self).revision,
            final(self).updated == old(self).updated,
            final(self).threads == old(self).threads,
            final(self).sources == old(self).sources,
            if old(self).bytes + size(text@) > LIMIT {
                *final(self) == *old(self) && (r matches Err(e) && e@
                    == "Review source snapshots exceed size limit"@)
            } else {
                &&& r is Ok
                &&& final(self).bytes == old(self).bytes + size(text@)
                &&& final(self).originals@.len() == old(self).originals@.len() + 1
                &&& final(self).originals@.drop_last() == old(self).originals@
                &&& final(self).originals@.last().commit == file.commit
                &&& final(self).originals@.last().path == file.path
                &&& final(self).originals@.last().text == text
            },
    {
        match grow(self.bytes, byte_len(&text)) {
            Some(bytes) => {
                self.bytes = bytes;
                self.originals.push(
                    Original { commit: file.commit, path: file.path, text },
                );
                assert(self.originals@.drop_last() =~= old(self).originals@);
                Ok(())
            },
            None => Err("Review source snapshots exceed size limit"),
        }
    }

    /// The review, if the pull request `pr` has not changed since.
    pub fn finish(self, pr: &Json, pull: Pull) -> (r: Result<Review, &'static str>)
        requires
            self.wf(),
            self.revision is Some,
        ensures
            ({
                let unchanged = as_text(at(pr@, "headRefOid"@)) == opt_view(self.revision)
                    && as_text(at(pr@, "updatedAt"@)) == opt_view(self.updated);
                match r {
                    Err(e) => !unchanged && e@ == "PR changed during fetch; refresh reviews"@,
                    Ok(review) => {
                        &&& unchanged
                        &&& review.label@ == label(
                            pull.repo@,
                            pull.number,
                            opt_view(self.revision)->0,
                        )
                        &&& review.repo == pull.repo
                        &&& review.number == pull.number
                        &&& Some(review.head) == self.revision
                        &&& shared(review.threads@) == sorted(self.threads@)
                        &&& review.sources == self.sources
                        &&& review.originals == self.originals
                        &&& review.head_repo == pull.head_repo
                    },
                }
            }),
    {
        let unchanged = match (
            &self.revision,
            &self.updated,
            pr.text("headRefOid"),
            pr.text("updatedAt"),
        ) {
            (Some(revision), Some(updated), Some(head), Some(stamp)) => same(revision, head)
                && same(updated, stamp),
            _ => false,
        };
        if !unchanged {
            return Err("PR changed during fetch; refresh reviews");
        }
        let revision = match self.revision {
            Some(revision) => revision,
            None => return Err("PR changed during fetch; refresh reviews"),
        };
        proof {
            lemma_hex_clip(revision@, 12);
        }
        let mut label = pull.repo.clone();
        label.append("#");
        push_decimal(&mut label, pull.number);
        label.append(" @ ");
        label.append(&clip(&revision, 12));
        let ordered = sort(self.threads);
        Ok(
            Review {
                label,
                repo: pull.repo,
                number: pull.number,
                head: revision,
                threads: share_all(ordered),
                sources: self.sources,
                originals: self.originals,
                head_repo: pull.head_repo,
            },
        )
    }
}

fn share_all(threads: Vec<Thread>) -> (r: Vec<Arc<Thread>>)
    ensures
        shared(r@) == threads@,
{
    let ghost all = threads@;
    let mut rest = threads;
    let mut r: Vec<Arc<Thread>> = Vec::new();
    assert(all.take(all.len() as int) =~= all);
    assert(shared(r@) =~= all.skip(all.len() as int));
    loop
        invariant
            rest@.len() <= all.len(),
            rest@ == all.take(rest@.len() as int),
            shared(r@) == all.skip(rest@.len() as int),
        ensures
            shared(r@) == all,
        decreases rest@.len(),
    {
        let ghost n = rest@.len() as int;
        match rest.pop() {
            None => {
                assert(all.skip(0) =~= all);
                break;
            },
            Some(t) => {
                let ghost before = shared(r@);
                assert(rest@ =~= all.take(n - 1));
                assert(t == all[n - 1]);
                r.insert(0, Arc::new(t));
                assert(shared(r@) =~= before.insert(0, t));
                assert(before.insert(0, t) =~= all.skip(n - 1));
            },
        }
    }
    r
}

fn put_file(list: &mut Vec<FileAt>, file: FileAt)
    ensures
        files_view(final(list)@) == (if files_view(old(list)@).contains(
            (file.commit@, file.path@),
        ) {
            files_view(old(list)@)
        } else {
            files_view(old(list)@).push((file.commit@, file.path@))
        }),
{
    let ghost all = files_view(list@);
    let ghost key = (file.commit@, file.path@);
    let mut i: usize = 0;
    while i < list.len()
        invariant
            i <= list@.len(),
            all == files_view(list@),
            *list == *old(list),
            key == (file.commit@, file.path@),
            forall|k: int| 0 <= k < i ==> #[trigger] all[k] != key,
        decreases list@.len() - i,
    {
        assert(all[i as int] == (list@[i as int].commit@, list@[i as int].path@));
        if same(&list[i].commit, &file.commit) && same(&list[i].path, &file.path) {
            return;
        }
        i += 1;
    }
    list.push(file);
    assert(files_view(list@) =~= all.push(key));
}

/// Whether a file of the size that Git prints is small enough to be loaded.
pub fn small_file(printed: &str) -> (r: bool)
    ensures
        r == (match parse_max(trimmed(printed@), usize::MAX as nat) {
            Some(n) => n <= 2097152,
            None => false,
        }),
{
    let all = chars(printed);
    match crate::text::read_usize(strip(&all)) {
        Some(n) => n <= 2097152,
        None => false,
    }
}

// ---------------------------------------------------------------------------
// The replies
// ---------------------------------------------------------------------------

/// The bytes of a value's JSON text.
pub open spec fn json_size(v: JsonView) -> int {
    match compact_json(v) {
        Some(s) => size(s) as int,
        None => 0,
    }
}

fn measure(value: Option<&serde_json::Value>) -> (r: usize)
    ensures
        r == (match value {
            Some(v) => json_size(json_content(*v)),
            None => 0,
        }),
{
    match value {
        Some(v) => match compact(v) {
            Some(s) => byte_len(&s),
            None => 0,
        },
        None => 0,
    }
}

fn descend<'a>(value: Option<&'a serde_json::Value>, key: &str) -> (r: Option<
    &'a serde_json::Value,
>)
    ensures
        ({
            let from = match value {
                Some(v) => json_content(*v),
                None => JsonView::Null,
            };
            match r {
                Some(v) => json_content(*v) == at(from, key@) && has_member(from, key@),
                None => !has_member(from, key@),
            }
        }),
{
    match value {
        Some(v) => member(v, key),
        None => None,
    }
}

/// The comments in a discussion node.
pub open spec fn node_comments(v: JsonView) -> JsonView {
    at(at(v, "comments"@), "nodes"@)
}

/// The size of the comments in a node, where there are some.
pub open spec fn node_size(v: JsonView) -> int {
    if has_member(at(v, "comments"@), "nodes"@) {
        json_size(node_comments(v))
    } else {
        0
    }
}

/// The size of the comments in an answer about one discussion, in bytes of JSON.
pub fn comment_size(out: &str) -> (r: usize)
    ensures
        r == (match parsed_json(out@) {
            Ok(v) => node_size(at(at(v, "data"@), "node"@)),
            Err(_) => 0,
        }),
{
    let value = match parse_value(out) {
        Ok(value) => value,
        Err(_) => return 0,
    };
    proof {
        lemma_null();
    }
    let node = descend(descend(Some(&value), "data"), "node");
    measure(descend(descend(node, "comments"), "nodes"))
}

proof fn lemma_null()
    ensures
        forall|v: JsonView, key: Seq<char>|
            !has_member(v, key) ==> #[trigger] at(v, key) == JsonView::Null,
{
    assert forall|v: JsonView, key: Seq<char>| !has_member(v, key) implies #[trigger] at(v, key)
        == JsonView::Null by {
        match v {
            JsonView::Object(members) => {
                lemma_absent(members, key, 0);
            },
            _ => {},
        }
    }
}

proof fn lemma_absent(members: Seq<(Seq<char>, JsonView)>, key: Seq<char>, i: int)
    requires
        forall|k: int| 0 <= k < members.len() ==> (#[trigger] members[k]).0 != key,
    ensures
        crate::json::find_member(members, key, i) == JsonView::Null,
    decreases members.len() - i,
{
    if 0 <= i < members.len() {
        lemma_absent(members, key, i + 1);
    }
}

/// The discussions in an answer about a pull request's.
pub open spec fn discussions(v: JsonView) -> JsonView {
    at(
        at(at(at(at(v, "data"@), "repository"@), "pullRequest"@), "reviewThreads"@),
        "nodes"@,
    )
}

/// The sizes of the comments in an answer about a pull request's discussions,
/// in bytes of JSON, one for each discussion.
pub fn comment_sizes(out: &str) -> (r: Vec<usize>)
    ensures
        ({
            let all = match parsed_json(out@) {
                Ok(v) => match as_list(discussions(v)) {
                    Some(items) => items,
                    None => seq![],
                },
                Err(_) => seq![],
            };
            &&& r@.len() == all.len()
            &&& forall|i: int| 0 <= i < all.len() ==> #[trigger] r@[i] == node_size(all[i])
        }),
{
    let mut r: Vec<usize> = Vec::new();
    let value = match parse_value(out) {
        Ok(value) => value,
        Err(_) => return r,
    };
    proof {
        lemma_null();
    }
    let repository = descend(descend(Some(&value), "data"), "repository");
    let threads = descend(descend(repository, "pullRequest"), "reviewThreads");
    let list = match descend(threads, "nodes") {
        Some(list) => list,
        None => return r,
    };
    let ghost all = match as_list(json_content(*list)) {
        Some(items) => items,
        None => seq![],
    };
    loop
        invariant
            r@.len() <= all.len(),
            all == (match as_list(json_content(*list)) {
                Some(items) => items,
                None => seq![],
            }),
            forall|k: int| 0 <= k < r@.len() ==> #[trigger] r@[k] == node_size(all[k]),
            forall|v: JsonView, key: Seq<char>|
                !has_member(v, key) ==> #[trigger] at(v, key) == JsonView::Null,
        ensures
            r@.len() == all.len(),
        decreases all.len() - r@.len(),
    {
        let node = match item(list, r.len()) {
            Some(node) => node,
            None => {
                break;
            },
        };
        r.push(measure(descend(descend(Some(node), "comments"), "nodes")));
    }
    r
}

/// The comments of a discussion that are being loaded, page by page.
#[derive(Debug)]
pub struct Replies {
    pub comments: Vec<Json>,
    /// The bytes of JSON of all pages.
    pub bytes: usize,
}

impl Replies {
    /// The first page, `size` bytes long.
    pub fn new(comments: Vec<Json>, size: usize) -> (r: Replies)
        ensures
            r.comments == comments,
            r.bytes == size,
    {
        Replies { comments, bytes: size }
    }

    /// Add another page.
    pub fn add_page(&mut self, page: Vec<Json>, size: usize) -> (r: Result<(), &'static str>)
        ensures
            match r {
                Ok(_) => {
                    &&& old(self).bytes + size <= LIMIT
                    &&& final(self).comments@ == old(self).comments@ + page@
                    &&& final(self).bytes == old(self).bytes + size
                },
                Err(e) => {
                    &&& old(self).bytes + size > LIMIT
                    &&& e@ == "Discussion exceeds reply size limit"@
                    &&& *final(self) == *old(self)
                },
            },
    {
        if self.bytes > LIMIT || size > LIMIT - self.bytes {
            return Err("Discussion exceeds reply size limit");
        }
        let mut page = page;
        self.bytes = self.bytes + size;
        self.comments.append(&mut page);
        Ok(())
    }
}

/// A pull request is found exactly if its head is the branch in the head repository,
/// whose name may differ in the case of its letters: under the repository that was asked,
/// with its number and address.
pub proof fn pull_requests_of_the_branch_are_found(
    nodes: Seq<JsonView>,
    base: Seq<char>,
    head_repo: Seq<char>,
    branch: Seq<char>,
    pull: PullView,
)
    requires
        matching(nodes, base, head_repo, branch) is Ok,
    ensures
        matching(nodes, base, head_repo, branch)->Ok_0.contains(pull) <==> exists|i: int|
            0 <= i < nodes.len() && ({
                let pr = #[trigger] nodes[i];
                &&& at(at(pr, "headRepository"@), "nameWithOwner"@) matches JsonView::Text(name)
                    && lowered(name) == lowered(head_repo)
                &&& at(pr, "headRefName"@) == JsonView::Text(branch)
                &&& at(pr, "number"@) matches JsonView::Number(_, Some(n)) && pull.number == n
                &&& at(pr, "url"@) matches JsonView::Text(url) && pull.url == safe(url)
                &&& pull.repo == base
                &&& pull.head_repo == Some(head_repo)
            }),
    decreases nodes.len(),
{
    if nodes.len() > 0 {
        let rest = nodes.drop_last();
        pull_requests_of_the_branch_are_found(rest, base, head_repo, branch, pull);
        let before = matching(rest, base, head_repo, branch)->Ok_0;
        let all = matching(nodes, base, head_repo, branch)->Ok_0;
        let pr = nodes.last();
        assert(nodes[nodes.len() - 1] == pr);
        if before.contains(pull) {
            let k = before.index_of(pull);
            assert(all[k] == pull);
            let i = choose|i: int|
                0 <= i < rest.len() && ({
                    let pr = #[trigger] rest[i];
                    &&& at(at(pr, "headRepository"@), "nameWithOwner"@) matches JsonView::Text(name)
                        && lowered(name) == lowered(head_repo)
                    &&& at(pr, "headRefName"@) == JsonView::Text(branch)
                    &&& at(pr, "number"@) matches JsonView::Number(_, Some(n)) && pull.number == n
                    &&& at(pr, "url"@) matches JsonView::Text(url) && pull.url == safe(url)
                    &&& pull.repo == base
                    &&& pull.head_repo == Some(head_repo)
                });
            assert(nodes[i] == rest[i]);
        }
        if is_head(pr, head_repo, branch) {
            let found = PullView {
                repo: base,
                number: as_number(at(pr, "number"@))->0,
                url: safe(as_text(at(pr, "url"@))->0),
                head_repo: Some(head_repo),
            };
            assert(all == before.push(found));
            assert(all[before.len() as int] == found);
            if all.contains(pull) && !before.contains(pull) {
                let k = all.index_of(pull);
                if k < before.len() {
                    assert(before[k] == pull);
                }
                assert(pull == found);
            }
        }
        assert forall|i: int|
            0 <= i < nodes.len() - 1 implies (#[trigger] nodes[i]) == rest[i] by {}
    }
}

/// The text of a file at the head is asked for exactly if a discussion is on lines of
/// it, and once.
pub proof fn files_of_placed_discussions_are_wanted(threads: Seq<Thread>, path: Seq<char>)
    ensures
        source_paths(threads).contains(path) <==> exists|i: int|
            0 <= i < threads.len() && (#[trigger] threads[i]).lines is Some && threads[i].path@
                == path,
        source_paths(threads).no_duplicates(),
    decreases threads.len(),
{
    if threads.len() > 0 {
        let rest = threads.drop_last();
        let last = threads.last();
        files_of_placed_discussions_are_wanted(rest, path);
        let before = source_paths(rest);
        let all = source_paths(threads);
        assert(threads[threads.len() - 1] == last);
        lemma_with(before, last.path@, path);
        if before.contains(path) {
            let i = choose|i: int|
                0 <= i < rest.len() && (#[trigger] rest[i]).lines is Some && rest[i].path@ == path;
            assert(threads[i] == rest[i]);
        }
        assert forall|i: int| 0 <= i < threads.len() - 1 implies (#[trigger] threads[i])
            == rest[i] by {}
    }
}

proof fn lemma_with(list: Seq<Seq<char>>, x: Seq<char>, y: Seq<char>)
    requires
        list.no_duplicates(),
    ensures
        with(list, x).contains(y) <==> list.contains(y) || y == x,
        with(list, x).no_duplicates(),
{
    let all = with(list, x);
    if !list.contains(x) {
        assert(all[list.len() as int] == x);
        if list.contains(y) {
            let k = list.index_of(y);
            assert(all[k] == y);
        }
        if all.contains(y) {
            let k = all.index_of(y);
            if k < list.len() {
                assert(list[k] == y);
            }
        }
        assert forall|i: int, j: int| 0 <= i < j < all.len() implies all[i] != all[j] by {
            if j == list.len() {
                assert(list[i] == all[i]);
                assert(list.contains(list[i]));
            }
        }
    }
}

/// The text of a file at an older commit is asked for exactly if it places a discussion
/// that has no lines at the head but had some at that commit, and once.
pub proof fn files_of_outdated_discussions_are_wanted(
    threads: Seq<Thread>,
    commit: Seq<char>,
    path: Seq<char>,
)
    ensures
        original_keys(threads).contains((commit, path)) <==> exists|i: int|
            0 <= i < threads.len() && (#[trigger] threads[i]).lines is None
                && threads[i].original_lines is Some && (threads[i].commit matches Some(c) && c@
                == commit) && threads[i].path@ == path && good_path(path) && good_oid(commit),
        original_keys(threads).no_duplicates(),
    decreases threads.len(),
{
    if threads.len() > 0 {
        let rest = threads.drop_last();
        let last = threads.last();
        files_of_outdated_discussions_are_wanted(rest, commit, path);
        let before = original_keys(rest);
        let all = original_keys(threads);
        assert(threads[threads.len() - 1] == last);
        if before.contains((commit, path)) {
            let k = before.index_of((commit, path));
            assert(all[k] == before[k]);
            let i = choose|i: int|
                0 <= i < rest.len() && (#[trigger] rest[i]).lines is None
                    && rest[i].original_lines is Some && (rest[i].commit matches Some(c) && c@
                    == commit) && rest[i].path@ == path && good_path(path) && good_oid(commit);
            assert(threads[i] == rest[i]);
        }
        if let Some(key) = original_key(last) {
            if !before.contains(key) {
                assert(all[before.len() as int] == key);
                assert forall|i: int, j: int| 0 <= i < j < all.len() implies all[i] != all[j] by {
                    if j == before.len() {
                        assert(before[i] == all[i]);
                        assert(before.contains(before[i]));
                    }
                }
            }
            if all.contains((commit, path)) && !before.contains((commit, path)) {
                let k = all.index_of((commit, path));
                if k < before.len() {
                    assert(before[k] == all[k]);
                }
                assert(key == (commit, path));
            }
        }
        assert forall|i: int| 0 <= i < threads.len() - 1 implies (#[trigger] threads[i])
            == rest[i] by {}
    }
}

/// The text of a file is taken exactly if it is no binary and not too large.
pub proof fn small_texts_are_taken(blob: JsonView, n: u64, digits: Seq<char>, text: Seq<char>)
    requires
        at(blob, "byteSize"@) == JsonView::Number(digits, Some(n)),
        at(blob, "text"@) == JsonView::Text(text),
    ensures
        at(blob, "isBinary"@) == JsonView::Bool(false) && n <= 2 * 1024 * 1024 ==> blob_text(blob)
            == Some(text),
        at(blob, "isBinary"@) != JsonView::Bool(false) || n > 2 * 1024 * 1024 ==> blob_text(
            blob,
        ) is None,
{
}

/// A selection `owner/repo#number` names that pull request.
pub proof fn selections_name_their_pull_request(repo: Seq<char>, n: u64)
    requires
        repository_of("https://github.com/"@ + repo) == Some(repo),
        forall|i: int| 0 <= i < repo.len() ==> #[trigger] repo[i] != '#',
    ensures
        selected(repo + "#"@ + decimal(n as nat)) matches Ok(pull) && pull.repo == repo
            && pull.number == n && pull.head_repo is None,
{
    reveal_strlit("#");
    assert("#"@ =~= seq!['#']);
    crate::text::texts_are_cut_at_the_first(repo, '#', decimal(n as nat));
    crate::text::numbers_are_read_back(n as nat, u64::MAX as nat);
}

/// A list is read on as long as GitHub says that there is more, up to the limit; and it
/// is read to its end wherever it is within that.
pub proof fn lists_are_read_to_their_end(v: JsonView, page: int, problem: Seq<char>, after: Seq<char>)
    requires
        at(at(v, "pageInfo"@), "hasNextPage"@) is Bool,
        at(at(v, "pageInfo"@), "endCursor"@) == JsonView::Text(after),
    ensures
        at(at(v, "pageInfo"@), "hasNextPage"@) == JsonView::Bool(false) ==> following(
            v,
            page,
            problem,
        ) == Ok::<Option<Seq<char>>, Seq<char>>(None),
        at(at(v, "pageInfo"@), "hasNextPage"@) == JsonView::Bool(true) && page + 1 < 100
            ==> following(v, page, problem) == Ok::<Option<Seq<char>>, Seq<char>>(Some(after)),
        at(at(v, "pageInfo"@), "hasNextPage"@) == JsonView::Bool(true) && page + 1 >= 100
            ==> following(v, page, problem) == Err::<Option<Seq<char>>, Seq<char>>(problem),
{
}

/// Discussions are kept in order: by path, then by where they start, those without lines
/// first.
pub proof fn discussions_are_in_order(threads: Seq<Thread>, i: int, j: int)
    requires
        0 <= i < j < threads.len(),
    ensures
        sorted(threads).len() == threads.len(),
        sorted(threads).to_multiset() == threads.to_multiset(),
        ({
            let a = sorted(threads)[i];
            let b = sorted(threads)[j];
            &&& text_le(a.path@, b.path@)
            &&& a.path@ == b.path@ ==> {
                &&& b.lines is None ==> a.lines is None
                &&& a.lines is Some && b.lines is Some ==> a.lines->0.start <= b.lines->0.start
            }
        }),
{
    crate::order::sorted_is_an_ordered_permutation(threads);
    let all = sorted(threads);
    assert(all[i].le(&all[j]));
    text_le_total(all[i].path@, all[j].path@);
}

proof fn lemma_repositories(list: Seq<Seq<char>>, urls: Seq<Seq<char>>, r: Seq<char>)
    ensures
        with_repositories(list, urls).contains(r) <==> (list.contains(r) || exists|i: int|
            0 <= i < urls.len() && repository_of(#[trigger] urls[i]) == Some(r)),
        list.no_duplicates() ==> with_repositories(list, urls).no_duplicates(),
    decreases urls.len(),
{
    if urls.len() > 0 {
        let t = urls.drop_last();
        let rest = with_repositories(list, t);
        let all = with_repositories(list, urls);
        let n = urls.len() - 1;
        lemma_repositories(list, t, r);
        assert(urls[n] == urls.last());
        if rest.contains(r) {
            let k = choose|k: int| 0 <= k < rest.len() && rest[k] == r;
            assert(all[k] == r);
            if !list.contains(r) {
                let i = choose|i: int|
                    0 <= i < t.len() && repository_of(#[trigger] t[i]) == Some(r);
                assert(urls[i] == t[i]);
            }
        }
        if repository_of(urls[n]) == Some(r) && !rest.contains(r) {
            assert(all[rest.len() as int] == r);
        }
        if all.contains(r) && !rest.contains(r) {
            let k = choose|k: int| 0 <= k < all.len() && all[k] == r;
            if k < rest.len() {
                assert(rest[k] == r);
            }
            assert(repository_of(urls[n]) == Some(r));
        }
        if exists|i: int| 0 <= i < urls.len() && repository_of(#[trigger] urls[i]) == Some(r) {
            let i = choose|i: int|
                0 <= i < urls.len() && repository_of(#[trigger] urls[i]) == Some(r);
            if i < n {
                assert(t[i] == urls[i]);
            }
        }
    }
}

/// The repositories of all addresses are asked, each once.
pub proof fn repositories_of_all_addresses_are_asked(
    list: Seq<Seq<char>>,
    urls: Seq<Seq<char>>,
    r: Seq<char>,
)
    requires
        list.no_duplicates(),
    ensures
        with_repositories(list, urls).contains(r) <==> (list.contains(r) || exists|i: int|
            0 <= i < urls.len() && repository_of(#[trigger] urls[i]) == Some(r)),
        with_repositories(list, urls).no_duplicates(),
{
    lemma_repositories(list, urls, r);
}

} // verus!
