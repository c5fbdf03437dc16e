//! Requests to GitHub and what its answers say.
//!
//! Writes are limited to replying to and (un)resolving an existing discussion,
//! addressed by its node id. All user and remote text travels as JSON
//! variables, never in the query, a shell or command options.
use vstd::prelude::*;

use crate::github::{good_oid, valid_oid};
use crate::json::{
    as_bool, as_list, as_text, at, compact, compact_json, has_member, json_of, lemma_list_view,
    list_view, member, parse_value, parsed_json, Json, JsonView,
};
use crate::review::{safe, safe_text};
use crate::text::{
    byte_len, chars, contains, has, join, join_texts, lowered, size, strip, text, to_lower, trimmed,
    views,
};

verus! {

/// The most pages that are loaded of one list.
pub const MAX_PAGES: usize = 100;

/// The most bytes that are loaded of one kind of text.
pub const LIMIT: usize = 16777216;

/// The longest comment that GitHub takes, in bytes.
pub const COMMENT_LIMIT: usize = 65536;

pub const DISCOVER: &'static str =
    "query($owner:String!,$repo:String!,$branch:String!,$after:String) {\n repository(owner:$owner,name:$repo) { pullRequests(headRefName:$branch,states:OPEN,first:100,after:$after) {\n nodes { number url headRefName headRepository { nameWithOwner } } pageInfo { hasNextPage endCursor }\n } } }";

pub const PARENT: &'static str =
    "query($owner:String!,$repo:String!) { repository(owner:$owner,name:$repo) { parent { nameWithOwner } } }";

pub const THREADS: &'static str =
    "query($owner:String!,$repo:String!,$number:Int!,$after:String) {\n repository(owner:$owner,name:$repo) { pullRequest(number:$number) { headRefOid updatedAt url\n reviewThreads(first:100,after:$after) { nodes { id path line startLine diffSide startDiffSide originalLine originalStartLine isOutdated isResolved\n viewerCanReply viewerCanResolve viewerCanUnresolve\n comments(first:100) { nodes { author { login } body diffHunk url originalCommit { oid } } pageInfo { hasNextPage endCursor } } } pageInfo { hasNextPage endCursor } } } } }";

pub const THREAD: &'static str =
    "query($id:ID!) { node(id:$id) { ... on PullRequestReviewThread { pullRequest { headRefOid } id path line startLine diffSide startDiffSide originalLine originalStartLine isOutdated isResolved\n viewerCanReply viewerCanResolve viewerCanUnresolve\n comments(first:100) { nodes { author { login } body diffHunk url originalCommit { oid } } pageInfo { hasNextPage endCursor } } } } }";

pub const PULL_HEAD: &'static str =
    "query($owner:String!,$repo:String!,$number:Int!) { repository(owner:$owner,name:$repo) {\n pullRequest(number:$number) { headRefOid headRefName baseRefOid headRepository { nameWithOwner } } } }";

pub const REPLY: &'static str =
    "mutation($id:ID!,$body:String!) { addPullRequestReviewThreadReply(input:{pullRequestReviewThreadId:$id,body:$body}) { comment { url } } }";

pub const RESOLVE: &'static str =
    "mutation($id:ID!) { resolveReviewThread(input:{threadId:$id}) { thread { isResolved } } }";

pub const UNRESOLVE: &'static str =
    "mutation($id:ID!) { unresolveReviewThread(input:{threadId:$id}) { thread { isResolved } } }";

pub const COMMENTS: &'static str =
    "query($id:ID!,$after:String) { node(id:$id) { ... on PullRequestReviewThread {\n comments(first:100,after:$after) { nodes { author { login } body diffHunk url originalCommit { oid } } pageInfo { hasNextPage endCursor } }\n } } }";

pub const BLOB: &'static str =
    "query($owner:String!,$repo:String!,$expression:String!) { repository(owner:$owner,name:$repo) { object(expression:$expression) { ... on Blob { text isBinary byteSize } } } }";

pub const STAMP: &'static str =
    "query($owner:String!,$repo:String!,$number:Int!) { repository(owner:$owner,name:$repo) { pullRequest(number:$number) { headRefOid updatedAt } } }";

// ---------------------------------------------------------------------------
// Requests
// ---------------------------------------------------------------------------

/// The value of a query's variable.
#[derive(Debug)]
pub enum Variable {
    Text(String),
    Number(u64),
    Missing,
}

#[derive(Debug)]
pub struct Binding {
    pub name: &'static str,
    pub value: Variable,
}

#[verifier::ext_equal]
pub enum VariableView {
    Text(Seq<char>),
    Number(u64),
    Missing,
}

pub open spec fn variable_view(v: Variable) -> VariableView {
    match v {
        Variable::Text(s) => VariableView::Text(s@),
        Variable::Number(n) => VariableView::Number(n),
        Variable::Missing => VariableView::Missing,
    }
}

pub open spec fn bindings_view(b: Seq<Binding>) -> Seq<(Seq<char>, VariableView)> {
    b.map_values(|x: Binding| (x.name@, variable_view(x.value)))
}

/// The bytes of the JSON object that has the text `text` under `key` and the
/// object `members` under `name`.
pub uninterp spec fn object_bytes(
    key: Seq<char>,
    text: Seq<char>,
    name: Seq<char>,
    members: Seq<(Seq<char>, VariableView)>,
) -> Option<Seq<u8>>;

/// `serde_json::to_vec` of the object with the text `text` under `key` and the
/// object `members` under `name`: a function of the four.
#[verifier::external_body]
pub(crate) fn encode_object(key: &str, text: &str, name: &str, members: &Vec<Binding>) -> (r: Option<
    Vec<u8>,
>)
    ensures
        match r {
            Some(bytes) => object_bytes(key@, text@, name@, bindings_view(members@)) == Some(
                bytes@,
            ),
            None => object_bytes(key@, text@, name@, bindings_view(members@)) is None,
        },
{
    let inner = members.iter().map(|b| (b.name.to_owned(), match &b.value {
        Variable::Text(s) => serde_json::Value::from(s.as_str()),
        Variable::Number(n) => serde_json::Value::from(*n),
        Variable::Missing => serde_json::Value::Null,
    }));
    let mut object = serde_json::Map::new();
    object.insert(key.to_owned(), serde_json::Value::from(text));
    object.insert(name.to_owned(), serde_json::Value::Object(inner.collect()));
    serde_json::to_vec(&serde_json::Value::Object(object)).ok()
}

/// The bytes of a request: the object with the members `query` and `variables`.
pub open spec fn request_bytes(
    query: Seq<char>,
    variables: Seq<(Seq<char>, VariableView)>,
) -> Option<Seq<u8>> {
    object_bytes("query"@, query, "variables"@, variables)
}

/// A question to GitHub: one of the fixed queries, and its variables.
#[derive(Debug)]
pub struct Request {
    pub query: &'static str,
    pub variables: Vec<Binding>,
}

impl Request {
    /// The bytes to send; the query is sent as it is.
    pub fn encode(&self) -> (r: Option<Vec<u8>>)
        ensures
            match r {
                Some(bytes) => request_bytes(self.query@, bindings_view(self.variables@)) == Some(
                    bytes@,
                ),
                None => request_bytes(self.query@, bindings_view(self.variables@)) is None,
            },
    {
        encode_object("query", self.query, "variables", &self.variables)
    }
}

/// The reply is empty but for white space.
pub open spec fn blank(body: Seq<char>) -> bool {
    trimmed(body).len() == 0
}

/// The request that posts `body` as a reply in discussion `id`. The body is a
/// variable; the query is the same for every reply.
pub fn reply_request(id: &str, body: &str) -> (r: Result<Request, &'static str>)
    ensures
        match r {
            Ok(request) => {
                &&& !blank(body@)
                &&& size(body@) <= COMMENT_LIMIT
                &&& request.query@ == REPLY@
                &&& bindings_view(request.variables@) == seq![
                    ("id"@, VariableView::Text(id@)),
                    ("body"@, VariableView::Text(body@)),
                ]
            },
            Err(e) => if blank(body@) {
                e@ == "Reply is empty"@
            } else {
                size(body@) > COMMENT_LIMIT && e@ == "Reply exceeds GitHub's comment size limit"@
            },
        },
{
    if strip(&chars(body)).len() == 0 {
        return Err("Reply is empty");
    }
    if byte_len(body) > COMMENT_LIMIT {
        return Err("Reply exceeds GitHub's comment size limit");
    }
    let mut variables: Vec<Binding> = Vec::new();
    variables.push(Binding { name: "id", value: Variable::Text(id.to_owned()) });
    variables.push(Binding { name: "body", value: Variable::Text(body.to_owned()) });
    assert(bindings_view(variables@) =~= seq![
        ("id"@, VariableView::Text(id@)),
        ("body"@, VariableView::Text(body@)),
    ]);
    Ok(Request { query: REPLY, variables })
}

/// The request that resolves or unresolves discussion `id`.
pub fn resolve_request(id: &str, resolved: bool) -> (r: Request)
    ensures
        r.query@ == if resolved {
            RESOLVE@
        } else {
            UNRESOLVE@
        },
        bindings_view(r.variables@) == seq![("id"@, VariableView::Text(id@))],
{
    let mut variables: Vec<Binding> = Vec::new();
    variables.push(Binding { name: "id", value: Variable::Text(id.to_owned()) });
    assert(bindings_view(variables@) =~= seq![("id"@, VariableView::Text(id@))]);
    Request { query: if resolved { RESOLVE } else { UNRESOLVE }, variables }
}

/// The request for one discussion.
pub fn thread_request(id: &str) -> (r: Request)
    ensures
        r.query@ == THREAD@,
        bindings_view(r.variables@) == seq![("id"@, VariableView::Text(id@))],
{
    let mut variables: Vec<Binding> = Vec::new();
    variables.push(Binding { name: "id", value: Variable::Text(id.to_owned()) });
    assert(bindings_view(variables@) =~= seq![("id"@, VariableView::Text(id@))]);
    Request { query: THREAD, variables }
}

pub open spec fn page_view(after: Option<String>) -> VariableView {
    match after {
        Some(s) => VariableView::Text(s@),
        None => VariableView::Missing,
    }
}

fn page(after: &Option<String>) -> (r: Variable)
    ensures
        variable_view(r) == page_view(*after),
{
    match after {
        Some(s) => Variable::Text(s.clone()),
        None => Variable::Missing,
    }
}

/// The request for more comments of a discussion.
pub fn comments_request(id: &str, after: &Option<String>) -> (r: Request)
    ensures
        r.query@ == COMMENTS@,
        bindings_view(r.variables@) == seq![
            ("id"@, VariableView::Text(id@)),
            ("after"@, page_view(*after)),
        ],
{
    let mut variables: Vec<Binding> = Vec::new();
    variables.push(Binding { name: "id", value: Variable::Text(id.to_owned()) });
    variables.push(Binding { name: "after", value: page(after) });
    assert(bindings_view(variables@) =~= seq![
        ("id"@, VariableView::Text(id@)),
        ("after"@, page_view(*after)),
    ]);
    Request { query: COMMENTS, variables }
}

/// The request for open pull requests of a branch.
pub fn discover_request(owner: &str, repo: &str, branch: &str, after: &Option<String>) -> (r:
    Request)
    ensures
        r.query@ == DISCOVER@,
        bindings_view(r.variables@) == seq![
            ("owner"@, VariableView::Text(owner@)),
            ("repo"@, VariableView::Text(repo@)),
            ("branch"@, VariableView::Text(branch@)),
            ("after"@, page_view(*after)),
        ],
{
    let mut variables: Vec<Binding> = Vec::new();
    variables.push(Binding { name: "owner", value: Variable::Text(owner.to_owned()) });
    variables.push(Binding { name: "repo", value: Variable::Text(repo.to_owned()) });
    variables.push(Binding { name: "branch", value: Variable::Text(branch.to_owned()) });
    variables.push(Binding { name: "after", value: page(after) });
    assert(bindings_view(variables@) =~= seq![
        ("owner"@, VariableView::Text(owner@)),
        ("repo"@, VariableView::Text(repo@)),
        ("branch"@, VariableView::Text(branch@)),
        ("after"@, page_view(*after)),
    ]);
    Request { query: DISCOVER, variables }
}

/// The request for the repository that a fork was made from.
pub fn parent_request(owner: &str, repo: &str) -> (r: Request)
    ensures
        r.query@ == PARENT@,
        bindings_view(r.variables@) == seq![
            ("owner"@, VariableView::Text(owner@)),
            ("repo"@, VariableView::Text(repo@)),
        ],
{
    let mut variables: Vec<Binding> = Vec::new();
    variables.push(Binding { name: "owner", value: Variable::Text(owner.to_owned()) });
    variables.push(Binding { name: "repo", value: Variable::Text(repo.to_owned()) });
    assert(bindings_view(variables@) =~= seq![
        ("owner"@, VariableView::Text(owner@)),
        ("repo"@, VariableView::Text(repo@)),
    ]);
    Request { query: PARENT, variables }
}

/// The request for a file's text at a revision, `revision:path`.
pub fn blob_request(owner: &str, repo: &str, revision: &str, path: &str) -> (r: Request)
    ensures
        r.query@ == BLOB@,
        bindings_view(r.variables@) == seq![
            ("owner"@, VariableView::Text(owner@)),
            ("repo"@, VariableView::Text(repo@)),
            ("expression"@, VariableView::Text(revision@ + ":"@ + path@)),
        ],
{
    let mut expression = revision.to_owned();
    expression.append(":");
    expression.append(path);
    let mut variables: Vec<Binding> = Vec::new();
    variables.push(Binding { name: "owner", value: Variable::Text(owner.to_owned()) });
    variables.push(Binding { name: "repo", value: Variable::Text(repo.to_owned()) });
    variables.push(Binding { name: "expression", value: Variable::Text(expression) });
    assert(bindings_view(variables@) =~= seq![
        ("owner"@, VariableView::Text(owner@)),
        ("repo"@, VariableView::Text(repo@)),
        ("expression"@, VariableView::Text(revision@ + ":"@ + path@)),
    ]);
    Request { query: BLOB, variables }
}

/// What is asked about a pull request.
#[derive(Clone, Copy, Debug, PartialEq, Eq, Structural)]
pub enum About {
    /// Its head and base.
    Head,
    /// When it changed last.
    Stamp,
}

/// A request about a pull request as a whole.
pub fn pull_request(about: About, owner: &str, repo: &str, number: u64) -> (r: Request)
    ensures
        r.query@ == match about {
            About::Head => PULL_HEAD@,
            About::Stamp => STAMP@,
        },
        bindings_view(r.variables@) == seq![
            ("owner"@, VariableView::Text(owner@)),
            ("repo"@, VariableView::Text(repo@)),
            ("number"@, VariableView::Number(number)),
        ],
{
    let mut variables: Vec<Binding> = Vec::new();
    variables.push(Binding { name: "owner", value: Variable::Text(owner.to_owned()) });
    variables.push(Binding { name: "repo", value: Variable::Text(repo.to_owned()) });
    variables.push(Binding { name: "number", value: Variable::Number(number) });
    assert(bindings_view(variables@) =~= seq![
        ("owner"@, VariableView::Text(owner@)),
        ("repo"@, VariableView::Text(repo@)),
        ("number"@, VariableView::Number(number)),
    ]);
    let query = match about {
        About::Head => PULL_HEAD,
        About::Stamp => STAMP,
    };
    Request { query, variables }
}

/// The request for a page of a pull request's discussions.
pub fn threads_request(owner: &str, repo: &str, number: u64, after: &Option<String>) -> (r:
    Request)
    ensures
        r.query@ == THREADS@,
        bindings_view(r.variables@) == seq![
            ("owner"@, VariableView::Text(owner@)),
            ("repo"@, VariableView::Text(repo@)),
            ("number"@, VariableView::Number(number)),
            ("after"@, page_view(*after)),
        ],
{
    let mut variables: Vec<Binding> = Vec::new();
    variables.push(Binding { name: "owner", value: Variable::Text(owner.to_owned()) });
    variables.push(Binding { name: "repo", value: Variable::Text(repo.to_owned()) });
    variables.push(Binding { name: "number", value: Variable::Number(number) });
    variables.push(Binding { name: "after", value: page(after) });
    assert(bindings_view(variables@) =~= seq![
        ("owner"@, VariableView::Text(owner@)),
        ("repo"@, VariableView::Text(repo@)),
        ("number"@, VariableView::Number(number)),
        ("after"@, page_view(*after)),
    ]);
    Request { query: THREADS, variables }
}

// ---------------------------------------------------------------------------
// Answers
// ---------------------------------------------------------------------------

/// The messages of a list of errors.
pub open spec fn messages(errors: Seq<JsonView>) -> Seq<Seq<char>>
    decreases errors.len(),
{
    if errors.len() == 0 {
        seq![]
    } else {
        let rest = messages(errors.drop_last());
        match as_text(at(errors.last(), "message"@)) {
            Some(m) => rest.push(m),
            None => rest,
        }
    }
}

/// The first `n` characters.
pub open spec fn shortened(s: Seq<char>, n: int) -> Seq<char> {
    if s.len() <= n {
        s
    } else {
        s.take(n)
    }
}

/// What is shown of an answer's errors, `raw` being their JSON text.
pub open spec fn errors_text(errors: JsonView, raw: Seq<char>) -> Seq<char> {
    let found = match as_list(errors) {
        Some(items) => messages(items),
        None => seq![],
    };
    shortened(safe(if found.len() == 0 {
        raw
    } else {
        join(found, "; "@)
    }), 500)
}

/// The first `n` characters of a text.
pub fn shorten(s: &str, n: usize) -> (r: String)
    ensures
        r@ == shortened(s@, n as int),
{
    let all = chars(s);
    if all.len() <= n {
        return s.to_owned();
    }
    let head = crate::text::part(&all, 0, n);
    assert(head@ =~= s@.take(n as int));
    text(head)
}

/// Messages only (not the whole error JSON), bounded and terminal-safe. `raw` is
/// the JSON text of the errors.
pub fn graphql_errors(errors: &Json, raw: &str) -> (r: String)
    ensures
        r@ == errors_text(errors@, raw@),
{
    let mut found: Vec<String> = Vec::new();
    assert(views(found@) =~= seq![]);
    match errors {
        Json::List(items) => {
            let ghost all = list_view(items@);
            proof {
                lemma_list_view(items@);
            }
            let mut i: usize = 0;
            assert(all.take(0) =~= seq![]);
            while i < items.len()
                invariant
                    i <= items@.len(),
                    all == list_view(items@),
                    all.len() == items@.len(),
                    forall|k: int| 0 <= k < items@.len() ==> #[trigger] all[k] == items@[k]@,
                    views(found@) == messages(all.take(i as int)),
                decreases items@.len() - i,
            {
                assert(all.take(i + 1).drop_last() =~= all.take(i as int));
                assert(all.take(i + 1).last() == items@[i as int]@);
                let ghost before = views(found@);
                match items[i].text("message") {
                    Some(m) => {
                        found.push(m.to_owned());
                        assert(views(found@) =~= before.push(m@));
                    },
                    None => {},
                }
                i += 1;
            }
            assert(all.take(i as int) =~= all);
        },
        _ => {},
    }
    let joined = join_texts(&found, "; ");
    let shown = if found.len() == 0 { safe_text(raw) } else { safe_text(&joined) };
    shorten(&shown, 500)
}

/// What an answer says: its data, or why there is none.
pub open spec fn answer(parsed: Result<JsonView, Seq<char>>) -> Result<JsonView, Seq<char>> {
    match parsed {
        Err(e) => Err(e),
        Ok(v) => if has_member(v, "errors"@) {
            let errors = at(v, "errors"@);
            Err(
                "GitHub query failed: "@ + errors_text(
                    errors,
                    match compact_json(errors) {
                        Some(raw) => raw,
                        None => seq![],
                    },
                ),
            )
        } else if has_member(v, "data"@) {
            Ok(at(v, "data"@))
        } else {
            Err("GitHub returned no data"@)
        },
    }
}

/// The data of an answer.
pub fn read_answer(out: &str) -> (r: Result<Json, String>)
    ensures
        match (r, answer(parsed_json(out@))) {
            (Ok(j), Ok(data)) => j@ == data,
            (Err(e), Err(message)) => e@ == message,
            _ => false,
        },
{
    let value = match parse_value(out) {
        Ok(value) => value,
        Err(e) => return Err(e),
    };
    match member(&value, "errors") {
        Some(errors) => {
            let raw = match compact(errors) {
                Some(raw) => raw,
                None => String::new(),
            };
            assert(raw@ =~= (match compact_json(crate::json::json_content(*errors)) {
                Some(raw) => raw,
                None => seq![],
            }));
            let mut message = "GitHub query failed: ".to_owned();
            message.append(&graphql_errors(&json_of(errors), &raw));
            return Err(message);
        },
        None => {},
    }
    match member(&value, "data") {
        Some(data) => Ok(json_of(data)),
        None => Err("GitHub returned no data".to_owned()),
    }
}

/// An access problem is named in an error.
pub open spec fn access_problem(error: Seq<char>) -> bool {
    let s = lowered(error);
    contains(s, "not accessible"@) || contains(s, "forbidden"@) || contains(s, "permission"@)
        || contains(s, "scope"@) || contains(s, "must have"@) || contains(s, "http 403"@)
}

/// Mutations fail most often for access reasons; say what to check.
pub fn write_error(action: &str, error: &str) -> (r: String)
    ensures
        r@ == action@ + " failed: "@ + error@ + (if access_problem(error@) {
            " (needs write access to the repository and a gh token with the repo scope; check `gh auth status`)"@
        } else {
            ""@
        }),
{
    let s = to_lower(&chars(error));
    let hint = if has(&s, "not accessible") || has(&s, "forbidden") || has(&s, "permission") || has(
        &s,
        "scope",
    ) || has(&s, "must have") || has(&s, "http 403") {
        " (needs write access to the repository and a gh token with the repo scope; check `gh auth status`)"
    } else {
        ""
    };
    let mut r = action.to_owned();
    r.append(" failed: ");
    r.append(error);
    r.append(hint);
    r
}

pub open spec fn missing_field(key: Seq<char>) -> Seq<char> {
    "Missing GitHub field "@ + key
}

/// A text member that has to be there.
pub fn string<'a>(value: &'a Json, key: &str) -> (r: Result<&'a str, String>)
    ensures
        match (r, as_text(at(value@, key@))) {
            (Ok(s), Some(t)) => s@ == t,
            (Err(e), None) => e@ == missing_field(key@),
            _ => false,
        },
{
    match value.text(key) {
        Some(s) => Ok(s),
        None => {
            let mut e = "Missing GitHub field ".to_owned();
            e.append(key);
            Err(e)
        },
    }
}

/// The nodes of a connection.
pub fn nodes(value: &Json) -> (r: Result<&Vec<Json>, &'static str>)
    ensures
        match (r, as_list(at(value@, "nodes"@))) {
            (Ok(items), Some(all)) => list_view(items@) == all,
            (Err(e), None) => e@ == "Missing GitHub connection"@,
            _ => false,
        },
{
    match value.list("nodes") {
        Some(items) => Ok(items),
        None => Err("Missing GitHub connection"),
    }
}

/// Where the next page of a connection starts; `None` after the last one.
pub open spec fn next_page(v: JsonView) -> Result<Option<Seq<char>>, Seq<char>> {
    let info = at(v, "pageInfo"@);
    match as_bool(at(info, "hasNextPage"@)) {
        Some(false) => Ok(None),
        Some(true) => match as_text(at(info, "endCursor"@)) {
            Some(s) => Ok(Some(s)),
            None => Err(missing_field("endCursor"@)),
        },
        None => Err("Missing GitHub pagination state"@),
    }
}

pub fn cursor(value: &Json) -> (r: Result<Option<String>, String>)
    ensures
        match (r, next_page(value@)) {
            (Ok(Some(s)), Ok(Some(t))) => s@ == t,
            (Ok(None), Ok(None)) => true,
            (Err(e), Err(message)) => e@ == message,
            _ => false,
        },
{
    match value.get("pageInfo") {
        Some(info) => match info.bool("hasNextPage") {
            Some(false) => Ok(None),
            Some(true) => match string(info, "endCursor") {
                Ok(s) => Ok(Some(s.to_owned())),
                Err(e) => Err(e),
            },
            None => Err("Missing GitHub pagination state".to_owned()),
        },
        None => Err("Missing GitHub pagination state".to_owned()),
    }
}

/// The current head of a pull request, fetched fresh for every write-side
/// check: a push after the review loaded must count.
#[derive(Debug)]
pub struct PullHead {
    pub oid: String,
    /// `owner/repo:branch`, for messages.
    pub name: String,
    pub base: Option<String>,
}

pub open spec fn text_or(v: JsonView, default: Seq<char>) -> Seq<char> {
    match as_text(v) {
        Some(s) => s,
        None => default,
    }
}

/// A valid object id, or none.
pub open spec fn oid_or_none(v: JsonView) -> Option<Seq<char>> {
    match as_text(v) {
        Some(s) => if good_oid(s) {
            Some(s)
        } else {
            None
        },
        None => None,
    }
}

pub open spec fn opt_view(s: Option<String>) -> Option<Seq<char>> {
    match s {
        Some(x) => Some(x@),
        None => None,
    }
}

pub fn valid_oid_in(s: Option<&str>) -> (r: Option<String>)
    ensures
        opt_view(r) == (match s {
            Some(x) => if good_oid(x@) {
                Some(x@)
            } else {
                None
            },
            None => None,
        }),
{
    match s {
        Some(x) => if valid_oid(x) {
            Some(x.to_owned())
        } else {
            None
        },
        None => None,
    }
}

/// The head in the answer to a request about one.
pub fn read_pull_head(data: &Json) -> (r: Result<PullHead, String>)
    ensures
        ({
            let pr = at(at(data@, "repository"@), "pullRequest"@);
            match (r, as_text(at(pr, "headRefOid"@))) {
                (Err(e), None) => e@ == missing_field("headRefOid"@),
                (Err(e), Some(oid)) => !good_oid(oid) && e@ == "Invalid PR revision"@,
                (Ok(head), Some(oid)) => {
                    &&& good_oid(oid)
                    &&& head.oid@ == oid
                    &&& head.name@ == safe(
                        text_or(
                            at(at(pr, "headRepository"@), "nameWithOwner"@),
                            "[deleted]"@,
                        ) + ":"@ + text_or(at(pr, "headRefName"@), "?"@),
                    )
                    &&& opt_view(head.base) == oid_or_none(at(pr, "baseRefOid"@))
                },
                _ => false,
            }
        }),
{
    let null = Json::Null;
    let repository = match data.get("repository") {
        Some(j) => j,
        None => &null,
    };
    let pr = match repository.get("pullRequest") {
        Some(j) => j,
        None => &null,
    };
    let oid = match string(pr, "headRefOid") {
        Ok(oid) => oid,
        Err(e) => return Err(e),
    };
    if !valid_oid(oid) {
        return Err("Invalid PR revision".to_owned());
    }
    let mut name = match pr.text_in("headRepository", "nameWithOwner") {
        Some(s) => s,
        None => "[deleted]",
    }.to_owned();
    name.append(":");
    name.append(
        match pr.text("headRefName") {
            Some(s) => s,
            None => "?",
        },
    );
    Ok(
        PullHead {
            oid: oid.to_owned(),
            name: safe_text(&name),
            base: valid_oid_in(pr.text("baseRefOid")),
        },
    )
}

/// The URL of a posted reply.
pub fn read_reply(data: &Json) -> (r: Result<String, &'static str>)
    ensures
        match (
            r,
            as_text(at(at(at(data@, "addPullRequestReviewThreadReply"@), "comment"@), "url"@)),
        ) {
            (Ok(s), Some(url)) => s@ == safe(url),
            (Err(e), None) => e@ == "Reply failed: GitHub returned no comment"@,
            _ => false,
        },
{
    let null = Json::Null;
    let reply = match data.get("addPullRequestReviewThreadReply") {
        Some(j) => j,
        None => &null,
    };
    match reply.text_in("comment", "url") {
        Some(url) => Ok(safe_text(url)),
        None => Err("Reply failed: GitHub returned no comment"),
    }
}

/// The field of an answer that holds the discussion's state, and the action.
pub open spec fn resolve_field(resolved: bool) -> Seq<char> {
    if resolved {
        "resolveReviewThread"@
    } else {
        "unresolveReviewThread"@
    }
}

/// The new state of a discussion after resolving or unresolving it.
pub fn read_resolved(data: &Json, resolved: bool) -> (r: Result<bool, String>)
    ensures
        match (r, as_bool(at(at(at(data@, resolve_field(resolved)), "thread"@), "isResolved"@))) {
            (Ok(b), Some(state)) => b == state,
            (Err(e), None) => e@ == (if resolved {
                "Resolve"@
            } else {
                "Unresolve"@
            }) + " failed: GitHub returned no thread state"@,
            _ => false,
        },
{
    let field = if resolved { "resolveReviewThread" } else { "unresolveReviewThread" };
    let state = match data.get(field) {
        Some(j) => match j.get("thread") {
            Some(t) => t.bool("isResolved"),
            None => None,
        },
        None => None,
    };
    match state {
        Some(b) => Ok(b),
        None => {
            let mut e = if resolved { "Resolve" } else { "Unresolve" }.to_owned();
            e.append(" failed: GitHub returned no thread state");
            Err(e)
        },
    }
}

/// An answer with errors is no answer; without them its data is.
pub proof fn errors_come_before_data(v: JsonView)
    ensures
        has_member(v, "errors"@) ==> answer(Ok(v)) is Err,
        !has_member(v, "errors"@) && has_member(v, "data"@) ==> answer(Ok(v)) == Ok::<
            JsonView,
            Seq<char>,
        >(at(v, "data"@)),
        !has_member(v, "errors"@) && !has_member(v, "data"@) ==> answer(Ok(v)) is Err,
        forall|e: Seq<char>| #[trigger]
            answer(Err(e)) == Err::<JsonView, Seq<char>>(e),
{
}

/// All messages of the errors are told.
pub proof fn messages_of_errors_are_told(errors: Seq<JsonView>, i: int)
    requires
        0 <= i < errors.len(),
        as_text(at(errors[i], "message"@)) is Some,
    ensures
        messages(errors).contains(as_text(at(errors[i], "message"@))->0),
    decreases errors.len(),
{
    let t = errors.drop_last();
    let rest = messages(t);
    let all = messages(errors);
    let m = as_text(at(errors[i], "message"@))->0;
    if i < errors.len() - 1 {
        assert(t[i] == errors[i]);
        messages_of_errors_are_told(t, i);
        let k = choose|k: int| 0 <= k < rest.len() && rest[k] == m;
        assert(all[k] == m);
    } else {
        assert(all[rest.len() as int] == m);
    }
}

proof fn lemma_mentions(a: Seq<char>, p: Seq<char>, b: Seq<char>, q: Seq<char>)
    requires
        lowered(p) == q,
    ensures
        contains(lowered(a + p + b), q),
{
    let s = lowered(a + p + b);
    let n = a.len() as int;
    assert(p.len() == q.len());
    assert forall|i: int| 0 <= i < p.len() implies s[n + i] == q[i] by {
        assert((a + p + b)[n + i] == p[i]);
        assert(lowered(p)[i] == q[i]);
    }
    assert(s.subrange(n, n + q.len()) =~= q);
    assert(crate::text::occurs(s, q, n));
    crate::text::lemma_find(s, q);
}

/// An error that speaks of access, in whatever case, is an access problem.
pub proof fn errors_about_access_are_recognised(a: Seq<char>, p: Seq<char>, b: Seq<char>)
    requires
        lowered(p) == "not accessible"@ || lowered(p) == "forbidden"@ || lowered(p)
            == "permission"@ || lowered(p) == "scope"@ || lowered(p) == "must have"@ || lowered(p)
            == "http 403"@,
    ensures
        access_problem(a + p + b),
{
    lemma_mentions(a, p, b, lowered(p));
}

/// A list goes on exactly where GitHub says so, from the place that it names.
pub proof fn lists_go_on_where_they_say(v: JsonView)
    ensures
        ({
            let info = at(v, "pageInfo"@);
            &&& as_bool(at(info, "hasNextPage"@)) == Some(false) ==> next_page(v) == Ok::<
                Option<Seq<char>>,
                Seq<char>,
            >(None)
            &&& as_bool(at(info, "hasNextPage"@)) == Some(true) ==> match as_text(
                at(info, "endCursor"@),
            ) {
                Some(s) => next_page(v) == Ok::<Option<Seq<char>>, Seq<char>>(Some(s)),
                None => next_page(v) is Err,
            }
            &&& as_bool(at(info, "hasNextPage"@)) is None ==> next_page(v) is Err
        }),
{
}

} // verus!
