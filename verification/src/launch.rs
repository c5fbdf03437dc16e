//! Starting a debug session from a template: its arguments, the questions that it
//! asks, and the output that the program is told to write elsewhere.
use crate::bytes::{lossy, lossy_text};
use crate::discovery::{go_test_run_regex, run_pattern, GoTestEntry};
use crate::json::{
    lemma_list_view, lemma_members_view, list_view, members_view, Json, JsonView, Member,
};
use crate::seed::str_view;
use crate::text::{
    chars, cut, decimal, lemma_find, number, parse_max, read_usize, same, split_once, text, views,
};
use vstd::prelude::*;

verus! {

// ---------------------------------------------------------------------------
// Templates
// ---------------------------------------------------------------------------

/// What a template says of a parameter that it asks for.
#[derive(Debug)]
pub struct AdvancedCompletion {
    pub name: Option<String>,
    pub completion: Option<String>,
    pub default: Option<String>,
}

/// A parameter that a template asks for.
#[derive(Debug)]
pub enum DebugConfigCompletion {
    Named(String),
    Advanced(AdvancedCompletion),
}

/// A way to start a debug session.
#[derive(Debug)]
pub struct DebugTemplate {
    pub name: String,
    /// `launch` or `attach`.
    pub request: String,
    pub completion: Vec<DebugConfigCompletion>,
    /// The arguments of the request, with places such as `{0}` for parameters.
    pub args: Vec<Member>,
}

/// What an adapter does in a way of its own.
#[derive(Debug)]
pub struct DebuggerQuirks {
    pub absolute_paths: bool,
}

/// A language's debug adapter: how it is started, and the sessions that it offers.
#[derive(Debug)]
pub struct DebugAdapterConfig {
    pub name: String,
    pub transport: String,
    pub command: String,
    pub args: Vec<String>,
    pub port_arg: Option<String>,
    pub templates: Vec<DebugTemplate>,
    pub quirks: DebuggerQuirks,
}

/// The first template from index `i` on with the name.
pub open spec fn template_from(templates: Seq<DebugTemplate>, name: Seq<char>, i: int) -> int
    decreases templates.len() - i,
{
    if i < 0 || i >= templates.len() {
        templates.len() as int
    } else if templates[i].name@ == name {
        i
    } else {
        template_from(templates, name, i + 1)
    }
}

/// The index of the template with the name, or of the first one if none is named;
/// the number of templates if there is none.
pub open spec fn chosen_template(templates: Seq<DebugTemplate>, name: Option<Seq<char>>) -> int {
    match name {
        Some(name) => template_from(templates, name, 0),
        None => 0,
    }
}

fn find_template(templates: &Vec<DebugTemplate>, name: Option<&str>) -> (r: usize)
    ensures
        r == chosen_template(templates@, str_view(name)),
{
    let wanted = match name {
        Some(wanted) => wanted,
        None => return 0,
    };
    let mut i: usize = 0;
    while i < templates.len()
        invariant
            i <= templates@.len(),
            str_view(name) == Some(wanted@),
            template_from(templates@, wanted@, 0) == template_from(templates@, wanted@, i as int),
        decreases templates@.len() - i,
    {
        if same(&templates[i].name, wanted) {
            return i;
        }
        i += 1;
    }
    i
}

// ---------------------------------------------------------------------------
// Parameters
// ---------------------------------------------------------------------------

/// `s` with every occurrence of `p` replaced.
pub open spec fn replaced(s: Seq<char>, p: Seq<char>, with: Seq<char>) -> Seq<char>
    decreases s.len(),
    via replaced_decreases
{
    if p.len() == 0 {
        s
    } else {
        match split_once(s, p) {
            Some((before, after)) => before + with + replaced(after, p, with),
            None => s,
        }
    }
}

#[via_fn]
proof fn replaced_decreases(s: Seq<char>, p: Seq<char>, with: Seq<char>) {
    lemma_find(s, p);
}

/// Every occurrence of a text that is not empty is replaced.
fn replace(s: &str, p: &str, with: &str) -> (r: String)
    requires
        p@.len() > 0,
    ensures
        r@ == replaced(s@, p@, with@),
{
    let all = chars(s);
    let mut r = String::new();
    let mut rest: &[char] = &all;
    assert(r@ + replaced(s@, p@, with@) =~= replaced(s@, p@, with@));
    loop
        invariant
            p@.len() > 0,
            r@ + replaced(rest@, p@, with@) == replaced(s@, p@, with@),
        decreases rest@.len(),
    {
        match cut(rest, p) {
            Some((before, after)) => {
                let ghost held = r@;
                proof {
                    lemma_find(rest@, p@);
                }
                r.append(&text(before));
                r.append(with);
                assert(r@ + replaced(after@, p@, with@) =~= held + (before@ + with@ + replaced(
                    after@,
                    p@,
                    with@,
                )));
                rest = after;
            },
            None => {
                r.append(&text(rest));
                return r;
            },
        }
    }
}

/// The place of parameter `i`.
pub open spec fn placeholder(i: nat) -> Seq<char> {
    "{"@ + decimal(i) + "}"@
}

/// `s` with the first `n` parameters in their places, one after another.
pub open spec fn filled_in(s: Seq<char>, params: Seq<Seq<char>>, n: nat) -> Seq<char>
    decreases n,
{
    if n == 0 || n > params.len() {
        s
    } else {
        replaced(
            filled_in(s, params, (n - 1) as nat),
            placeholder((n - 1) as nat),
            params[n - 1],
        )
    }
}

/// A text of the arguments with the parameters in their places; a number if that
/// is what it says.
pub open spec fn mapped_text(s: Seq<char>, params: Seq<Seq<char>>) -> JsonView {
    let filled = filled_in(s, params, params.len());
    match parse_max(filled, usize::MAX as nat) {
        Some(n) => JsonView::Number(decimal(n), Some(n as u64)),
        None => JsonView::Text(filled),
    }
}

/// A value of the arguments with the parameters in their places.
pub open spec fn mapped(v: JsonView, params: Seq<Seq<char>>) -> JsonView
    decreases v, 0nat,
{
    match v {
        JsonView::Text(s) => mapped_text(s, params),
        JsonView::List(items) => JsonView::List(mapped_list(items, items.len(), params)),
        JsonView::Object(members) => JsonView::Object(
            mapped_members(members, members.len(), params),
        ),
        _ => v,
    }
}

pub open spec fn mapped_list(items: Seq<JsonView>, n: nat, params: Seq<Seq<char>>) -> Seq<JsonView>
    decreases items, n,
{
    if n == 0 || n > items.len() {
        seq![]
    } else {
        mapped_list(items, (n - 1) as nat, params).push(mapped(items[n - 1], params))
    }
}

pub open spec fn mapped_members(
    members: Seq<(Seq<char>, JsonView)>,
    n: nat,
    params: Seq<Seq<char>>,
) -> Seq<(Seq<char>, JsonView)>
    decreases members, n,
{
    if n == 0 || n > members.len() {
        seq![]
    } else {
        mapped_members(members, (n - 1) as nat, params).push(
            (members[n - 1].0, mapped(members[n - 1].1, params)),
        )
    }
}

fn map_text(s: &str, params: &Vec<String>) -> (r: Json)
    ensures
        r@ == mapped_text(s@, views(params@)),
{
    let mut filled = s.to_owned();
    let mut i: usize = 0;
    while i < params.len()
        invariant
            i <= params@.len(),
            filled@ == filled_in(s@, views(params@), i as nat),
        decreases params@.len() - i,
    {
        let mut place = "{".to_owned();
        place.append(&number(i));
        place.append("}");
        proof {
            reveal_strlit("{");
            assert(views(params@)[i as int] == params@[i as int]@);
        }
        filled = replace(&filled, &place, &params[i]);
        i += 1;
    }
    match read_usize(&chars(&filled)) {
        Some(n) => Json::Number(number(n), Some(n as u64)),
        None => Json::Text(filled),
    }
}

pub fn map_value(value: &Json, params: &Vec<String>) -> (r: Json)
    ensures
        r@ == mapped(value@, views(params@)),
    decreases value,
{
    match value {
        Json::Null => Json::Null,
        Json::Bool(b) => Json::Bool(*b),
        Json::Number(digits, n) => Json::Number(digits.clone(), *n),
        Json::Text(s) => map_text(s, params),
        Json::List(items) => {
            let ghost all = list_view(items@);
            proof {
                lemma_list_view(items@);
            }
            let mut r: Vec<Json> = Vec::new();
            let mut i: usize = 0;
            assert(list_view(r@) =~= seq![]);
            while i < items.len()
                invariant
                    i <= items@.len(),
                    value@ == JsonView::List(all),
                    *value == Json::List(*items),
                    all == list_view(items@),
                    all.len() == items@.len(),
                    forall|k: int| 0 <= k < items@.len() ==> #[trigger] all[k] == items@[k]@,
                    list_view(r@) == mapped_list(all, i as nat, views(params@)),
                decreases items@.len() - i,
            {
                proof {
                    assert(decreases_to!(*value => *items));
                    assert(decreases_to!(*items => items@));
                    assert(decreases_to!(items@ => items@[i as int]));
                    assert(all[i as int] == items@[i as int]@);
                }
                let ghost before = r@;
                r.push(map_value(&items[i], params));
                assert(r@.drop_last() =~= before);
                i += 1;
            }
            Json::List(r)
        },
        Json::Object(members) => {
            proof {
                lemma_members_view(members@);
            }
            Json::Object(map_members(members, params))
        },
    }
}

pub fn map_members(members: &Vec<Member>, params: &Vec<String>) -> (r: Vec<Member>)
    ensures
        members_view(r@) == mapped_members(
            members_view(members@),
            members@.len(),
            views(params@),
        ),
    decreases members,
{
    let ghost all = members_view(members@);
    proof {
        lemma_members_view(members@);
    }
    let mut r: Vec<Member> = Vec::new();
    let mut i: usize = 0;
    assert(members_view(r@) =~= seq![]);
    while i < members.len()
        invariant
            i <= members@.len(),
            all == members_view(members@),
            all.len() == members@.len(),
            forall|k: int|
                0 <= k < members@.len() ==> #[trigger] all[k] == (
                    members@[k].key@,
                    members@[k].value@,
                ),
            members_view(r@) == mapped_members(all, i as nat, views(params@)),
        decreases members@.len() - i,
    {
        proof {
            assert(decreases_to!(*members => members@));
            assert(decreases_to!(members@ => members@[i as int]));
            assert(decreases_to!(members@[i as int] => members@[i as int].value));
            assert(all[i as int] == (members@[i as int].key@, members@[i as int].value@));
        }
        let ghost before = r@;
        let value = map_value(&members[i].value, params);
        r.push(Member { key: members[i].key.clone(), value });
        assert(r@.drop_last() =~= before);
        i += 1;
    }
    r
}

/// The parameter names a file or a directory.
pub open spec fn names_path(c: DebugConfigCompletion) -> bool {
    match c {
        DebugConfigCompletion::Advanced(a) => match a.completion {
            Some(kind) => kind@ == "filename"@ || kind@ == "directory"@,
            None => false,
        },
        DebugConfigCompletion::Named(_) => false,
    }
}

/// Parameter `i` as it goes into the arguments: its real path if it names a file or
/// a directory that has one.
pub open spec fn prepared(
    template: DebugTemplate,
    params: Seq<Seq<char>>,
    canonical: Seq<Option<String>>,
    i: int,
) -> Seq<char> {
    if i < template.completion@.len() && names_path(template.completion@[i]) && i < canonical.len()
        && canonical[i] is Some {
        canonical[i]->0@
    } else {
        params[i]
    }
}

pub open spec fn all_prepared(
    template: DebugTemplate,
    params: Seq<Seq<char>>,
    canonical: Seq<Option<String>>,
) -> Seq<Seq<char>> {
    Seq::new(params.len(), |i: int| prepared(template, params, canonical, i))
}

/// The parameters as they go into the arguments, `canonical` holding their real paths.
pub fn prepare_dap_params(
    template: &DebugTemplate,
    params: &Vec<String>,
    canonical: &Vec<Option<String>>,
) -> (r: Vec<String>)
    ensures
        views(r@) == all_prepared(*template, views(params@), canonical@),
{
    let ghost given = views(params@);
    let mut r: Vec<String> = Vec::new();
    let mut i: usize = 0;
    while i < params.len()
        invariant
            i <= params@.len(),
            given == views(params@),
            r@.len() == i,
            forall|k: int|
                0 <= k < i ==> (#[trigger] r@[k])@ == prepared(*template, given, canonical@, k),
        decreases params@.len() - i,
    {
        let is_path = i < template.completion.len() && match &template.completion[i] {
            DebugConfigCompletion::Advanced(a) => match &a.completion {
                Some(kind) => same(kind, "filename") || same(kind, "directory"),
                None => false,
            },
            DebugConfigCompletion::Named(_n) => false,
        };
        assert(given[i as int] == params@[i as int]@);
        let param = if is_path && i < canonical.len() {
            match &canonical[i] {
                Some(path) => path.clone(),
                None => params[i].clone(),
            }
        } else {
            params[i].clone()
        };
        r.push(param);
        i += 1;
    }
    assert(views(r@) =~= all_prepared(*template, given, canonical@));
    r
}

// ---------------------------------------------------------------------------
// Arguments
// ---------------------------------------------------------------------------

pub const NO_CONFIG: &'static str = "No debug config with given name";

pub const NO_ADAPTER: &'static str = "No debug adapter available for language";

/// A template with its parameters.
#[derive(Debug)]
pub struct ResolvedDebugLaunch {
    pub template_name: String,
    pub request_type: String,
    pub args: Json,
}

/// The list has a member of this name.
pub open spec fn has_key(members: Seq<(Seq<char>, JsonView)>, key: Seq<char>) -> bool {
    exists|i: int| 0 <= i < members.len() && (#[trigger] members[i]).0 == key
}

fn holds_key(members: &Vec<Member>, key: &str) -> (r: bool)
    ensures
        r == has_key(members_view(members@), key@),
{
    let ghost all = members_view(members@);
    proof {
        lemma_members_view(members@);
    }
    let mut i: usize = 0;
    while i < members.len()
        invariant
            i <= members@.len(),
            all == members_view(members@),
            all.len() == members@.len(),
            forall|k: int|
                0 <= k < members@.len() ==> #[trigger] all[k] == (
                    members@[k].key@,
                    members@[k].value@,
                ),
            forall|k: int| 0 <= k < i ==> (#[trigger] all[k]).0 != key@,
        decreases members@.len() - i,
    {
        assert(all[i as int].0 == members@[i as int].key@);
        if same(&members[i].key, key) {
            return true;
        }
        i += 1;
    }
    false
}

/// The arguments of a template with its parameters in their places; as they are
/// where none were asked for.
pub open spec fn template_args(
    template: DebugTemplate,
    params: Option<Seq<Seq<char>>>,
    canonical: Seq<Option<String>>,
) -> Seq<(Seq<char>, JsonView)> {
    let args = members_view(template.args@);
    match params {
        Some(params) => mapped_members(args, args.len(), all_prepared(template, params, canonical)),
        None => args,
    }
}

/// The arguments with the working directory, unless they name one.
pub open spec fn with_directory(args: Seq<(Seq<char>, JsonView)>, cwd: Seq<char>) -> Seq<
    (Seq<char>, JsonView),
> {
    if has_key(args, "cwd"@) {
        args
    } else {
        args.push(("cwd"@, JsonView::Text(cwd)))
    }
}

pub open spec fn opt_views(params: Option<&Vec<String>>) -> Option<Seq<Seq<char>>> {
    match params {
        Some(params) => Some(views(params@)),
        None => None,
    }
}

fn copy_json(value: &Json) -> (r: Json)
    ensures
        r@ == value@,
    decreases value,
{
    match value {
        Json::Null => Json::Null,
        Json::Bool(b) => Json::Bool(*b),
        Json::Number(digits, n) => Json::Number(digits.clone(), *n),
        Json::Text(s) => Json::Text(s.clone()),
        Json::List(items) => {
            let mut r: Vec<Json> = Vec::new();
            let mut i: usize = 0;
            assert(list_view(r@) =~= list_view(items@.take(0)));
            while i < items.len()
                invariant
                    i <= items@.len(),
                    *value == Json::List(*items),
                    value@ == JsonView::List(list_view(items@)),
                    list_view(r@) == list_view(items@.take(i as int)),
                decreases items@.len() - i,
            {
                proof {
                    assert(decreases_to!(*value => *items));
                    assert(decreases_to!(*items => items@));
                    assert(decreases_to!(items@ => items@[i as int]));
                    assert(items@.take(i as int + 1).drop_last() =~= items@.take(i as int));
                }
                let ghost before = r@;
                r.push(copy_json(&items[i]));
                assert(r@.drop_last() =~= before);
                i += 1;
            }
            assert(items@.take(i as int) =~= items@);
            Json::List(r)
        },
        Json::Object(members) => Json::Object(copy_members(members)),
    }
}

fn copy_members(members: &Vec<Member>) -> (r: Vec<Member>)
    ensures
        members_view(r@) == members_view(members@),
    decreases members,
{
    let mut r: Vec<Member> = Vec::new();
    let mut i: usize = 0;
    assert(members_view(r@) =~= members_view(members@.take(0)));
    while i < members.len()
        invariant
            i <= members@.len(),
            members_view(r@) == members_view(members@.take(i as int)),
        decreases members@.len() - i,
    {
        proof {
            assert(decreases_to!(*members => members@));
            assert(decreases_to!(members@ => members@[i as int]));
            assert(decreases_to!(members@[i as int] => members@[i as int].value));
            assert(members@.take(i as int + 1).drop_last() =~= members@.take(i as int));
        }
        let ghost before = r@;
        let value = copy_json(&members[i].value);
        r.push(Member { key: members[i].key.clone(), value });
        assert(r@.drop_last() =~= before);
        i += 1;
    }
    assert(members@.take(i as int) =~= members@);
    r
}

/// The request that a template makes with its parameters, `canonical` holding the real
/// paths of those that name files. `cwd` is the working directory, or why it cannot
/// be told; it is needed only where the arguments name none.
pub fn resolve_debug_launch(
    config: &DebugAdapterConfig,
    name: Option<&str>,
    params: Option<&Vec<String>>,
    canonical: &Vec<Option<String>>,
    cwd: Result<String, String>,
) -> (r: Result<ResolvedDebugLaunch, String>)
    ensures
        ({
            let templates = config.templates@;
            let i = chosen_template(templates, str_view(name));
            let template = templates[i];
            let args = template_args(template, opt_views(params), canonical@);
            if i >= templates.len() {
                r matches Err(e) && e@ == NO_CONFIG@
            } else if !has_key(args, "cwd"@) && cwd is Err {
                r matches Err(e) && e@ == cwd->Err_0@
            } else {
                r matches Ok(launch) && launch.template_name@ == template.name@
                    && launch.request_type@ == template.request@ && launch.args@
                    == JsonView::Object(
                    if has_key(args, "cwd"@) {
                        args
                    } else {
                        with_directory(args, cwd->Ok_0@)
                    },
                )
            }
        }),
{
    let templates = &config.templates;
    let at: usize = find_template(templates, name);
    if at >= templates.len() {
        return Err(NO_CONFIG.to_owned());
    }
    let template = &templates[at];
    proof {
        lemma_members_view(template.args@);
    }
    let mut args = match params {
        Some(params) => map_members(&template.args, &prepare_dap_params(template, params, canonical)),
        None => copy_members(&template.args),
    };
    let ghost before = members_view(args@);
    assert(before == template_args(*template, opt_views(params), canonical@));
    if !holds_key(&args, "cwd") {
        match cwd {
            Ok(cwd) => {
                let ghost held = args@;
                args.push(Member { key: "cwd".to_owned(), value: Json::Text(cwd) });
                assert(args@.drop_last() =~= held);
                assert(crate::json::json_view(args@.last().value) == JsonView::Text(cwd@));
                assert(members_view(args@) == with_directory(before, cwd@));
            },
            Err(e) => return Err(e),
        }
    }
    Ok(
        ResolvedDebugLaunch {
            template_name: template.name.clone(),
            request_type: template.request.clone(),
            args: Json::Object(args),
        },
    )
}

/// A debug session always knows its working directory.
pub proof fn sessions_have_a_directory(args: Seq<(Seq<char>, JsonView)>, cwd: Seq<char>)
    ensures
        has_key(with_directory(args, cwd), "cwd"@),
{
    if !has_key(args, "cwd"@) {
        assert(with_directory(args, cwd)[args.len() as int].0 == "cwd"@);
    }
}

// ---------------------------------------------------------------------------
// Starting
// ---------------------------------------------------------------------------

/// What the last session was started with: all that it takes to start it again.
#[derive(Debug)]
pub struct LastDebugLaunch {
    pub config: DebugAdapterConfig,
    pub template_name: String,
    pub request_type: String,
    pub socket: Option<String>,
    pub args: Json,
}

/// The kinds of requests that start a session.
#[derive(Debug, Clone, Copy, PartialEq, Eq, Structural)]
pub enum StartRequest {
    Launch,
    Attach,
}

/// How a session is started, or why it is not.
pub fn start_request(request_type: &str) -> (r: Result<StartRequest, String>)
    ensures
        match r {
            Ok(StartRequest::Launch) => request_type@ == "launch"@,
            Ok(StartRequest::Attach) => request_type@ == "attach"@,
            Err(e) => request_type@ != "launch"@ && request_type@ != "attach"@ && e@
                == "Unsupported request '"@ + request_type@ + "'"@,
        },
{
    if same(request_type, "launch") {
        return Ok(StartRequest::Launch);
    }
    if same(request_type, "attach") {
        return Ok(StartRequest::Attach);
    }
    let mut e = "Unsupported request '".to_owned();
    e.append(request_type);
    e.append("'");
    Err(e)
}

/// The session of a document whose language has this adapter.
pub fn dap_start_impl(
    config: Option<DebugAdapterConfig>,
    name: Option<&str>,
    socket: Option<String>,
    params: Option<&Vec<String>>,
    canonical: &Vec<Option<String>>,
    cwd: Result<String, String>,
) -> (r: Result<(LastDebugLaunch, StartRequest), String>)
    ensures
        match config {
            None => r matches Err(e) && e@ == NO_ADAPTER@,
            Some(config) => {
                let templates = config.templates@;
                let i = chosen_template(templates, str_view(name));
                let template = templates[i];
                let args = template_args(template, opt_views(params), canonical@);
                if i >= templates.len() {
                    r matches Err(e) && e@ == NO_CONFIG@
                } else if !has_key(args, "cwd"@) && cwd is Err {
                    r matches Err(e) && e@ == cwd->Err_0@
                } else if template.request@ != "launch"@ && template.request@ != "attach"@ {
                    r matches Err(e) && e@ == "Unsupported request '"@ + template.request@ + "'"@
                } else {
                    r matches Ok((launch, start)) && launch.config == config
                        && launch.template_name@ == template.name@
                        && launch.request_type@ == template.request@ && launch.socket == socket
                        && launch.args@ == JsonView::Object(
                        if has_key(args, "cwd"@) {
                            args
                        } else {
                            with_directory(args, cwd->Ok_0@)
                        },
                    ) && start == (if template.request@ == "launch"@ {
                        StartRequest::Launch
                    } else {
                        StartRequest::Attach
                    })
                }
            },
        },
{
    let config = match config {
        Some(config) => config,
        None => return Err(NO_ADAPTER.to_owned()),
    };
    let resolved = match resolve_debug_launch(&config, name, params, canonical, cwd) {
        Ok(resolved) => resolved,
        Err(e) => return Err(e),
    };
    let start = match start_request(&resolved.request_type) {
        Ok(start) => start,
        Err(e) => return Err(e),
    };
    proof {
        reveal_strlit("launch");
        reveal_strlit("attach");
        assert("launch"@[0] != "attach"@[0]);
    }
    Ok(
        (
            LastDebugLaunch {
                config,
                template_name: resolved.template_name,
                request_type: resolved.request_type,
                socket,
                args: resolved.args,
            },
            start,
        ),
    )
}

pub const STARTING: &'static str = "Starting debug adapter...";

/// The adapter of a session was started, or why it was not; `known` tells whether it
/// is among the adapters then.
pub fn client_started(id: Result<usize, String>, known: bool) -> (r: Result<usize, String>)
    ensures
        match (id, r) {
            (Ok(id), Ok(started)) => known && started == id,
            (Ok(_), Err(e)) => !known && e@ == "Failed to get child debugger."@,
            (Err(problem), Err(e)) => e@ == "Failed to start debug client: "@ + problem@,
            _ => false,
        },
{
    match id {
        Ok(id) => if known {
            Ok(id)
        } else {
            Err("Failed to get child debugger.".to_owned())
        },
        Err(problem) => {
            let mut e = "Failed to start debug client: ".to_owned();
            e.append(&problem);
            Err(e)
        },
    }
}

/// What comes of a request to start a session.
#[derive(Debug)]
pub enum Started {
    Accepted(String),
    /// The adapter is removed and its output is no longer followed.
    Failed { message: String, was_active: bool },
}

/// What comes of a request to start the session of adapter `id`.
pub fn dap_started(
    request_type: &str,
    id: usize,
    active: Option<usize>,
    result: Result<(), String>,
) -> (r: Started)
    ensures
        match result {
            Ok(_) => r matches Started::Accepted(status) && status@ == "Debug "@ + request_type@
                + " request accepted"@,
            Err(e) => r matches Started::Failed { message, was_active } && message@
                == "Failed to start debug session: "@ + e@ && was_active == (active == Some(id)),
        },
{
    match result {
        Ok(_done) => {
            let mut status = "Debug ".to_owned();
            status.append(request_type);
            status.append(" request accepted");
            Started::Accepted(status)
        },
        Err(e) => {
            let mut message = "Failed to start debug session: ".to_owned();
            message.append(&e);
            let was_active = match active {
                Some(a) => a == id,
                None => false,
            };
            Started::Failed { message, was_active }
        },
    }
}

pub const RUNNING: &'static str = "Debugger is already running";

/// What the command to start a session offers.
pub fn dap_launch<'a>(running: bool, config: Option<&'a DebugAdapterConfig>) -> (r: Result<
    &'a Vec<DebugTemplate>,
    &'static str,
>)
    ensures
        match r {
            Ok(offered) => !running && (config matches Some(config) && *offered
                == config.templates),
            Err(e) => if running {
                e@ == RUNNING@
            } else {
                config is None && e@ == NO_ADAPTER@
            },
        },
{
    if running {
        return Err(RUNNING);
    }
    match config {
        Some(config) => Ok(&config.templates),
        None => Err(NO_ADAPTER),
    }
}

/// The session is restarted, or why it is not: `restart` tells whether the running
/// debugger says that it can, `has_args` whether it knows how it was started.
pub fn dap_restart(running: bool, restart: Option<bool>, has_args: bool) -> (r: Result<
    &'static str,
    &'static str,
>)
    ensures
        match r {
            Ok(status) => running && restart == Some(true) && has_args && status@
                == "Debugging session restarted"@,
            Err(e) => if !running {
                e@ == "Debugger is not running"@
            } else if restart != Some(true) {
                e@ == "Debugger does not support session restarts"@
            } else {
                !has_args && e@ == "No arguments found with which to restart the sessions"@
            },
        },
{
    if !running {
        return Err("Debugger is not running");
    }
    let supported = match restart {
        Some(supported) => supported,
        None => false,
    };
    if !supported {
        return Err("Debugger does not support session restarts");
    }
    if !has_args {
        return Err("No arguments found with which to restart the sessions");
    }
    Ok("Debugging session restarted")
}

/// The last session, to be started again, or why it is not.
pub fn dap_rerun_last(running: bool, last: Option<LastDebugLaunch>) -> (r: Result<
    (LastDebugLaunch, StartRequest),
    String,
>)
    ensures
        match r {
            Ok((launch, start)) => !running && last == Some(launch) && (match start {
                StartRequest::Launch => launch.request_type@ == "launch"@,
                StartRequest::Attach => launch.request_type@ == "attach"@,
            }),
            Err(e) => if running {
                e@ == RUNNING@
            } else {
                match last {
                    None => e@ == "No previous debug launch to rerun"@,
                    Some(launch) => launch.request_type@ != "launch"@ && launch.request_type@
                        != "attach"@ && e@ == "Unsupported request '"@ + launch.request_type@
                        + "'"@,
                }
            },
        },
{
    if running {
        return Err(RUNNING.to_owned());
    }
    let launch = match last {
        Some(launch) => launch,
        None => return Err("No previous debug launch to rerun".to_owned()),
    };
    match start_request(&launch.request_type) {
        Ok(start) => Ok((launch, start)),
        Err(e) => Err(e),
    }
}

// ---------------------------------------------------------------------------
// Questions
// ---------------------------------------------------------------------------

/// What follows the choice of a template.
#[derive(Debug, Clone, Copy, PartialEq, Eq, Structural)]
pub enum Chosen {
    /// A test is chosen first.
    PickTest,
    Start,
    /// The first parameter is asked for.
    Ask,
}

pub open spec fn picks_test(c: DebugConfigCompletion) -> bool {
    c matches DebugConfigCompletion::Advanced(a) && (a.completion matches Some(kind) && kind@
        == "go-test-function"@)
}

pub fn template_chosen(template: &DebugTemplate) -> (r: Chosen)
    ensures
        r == (if template.completion@.len() == 0 {
            Chosen::Start
        } else if picks_test(template.completion@[0]) {
            Chosen::PickTest
        } else {
            Chosen::Ask
        }),
{
    if template.completion.len() == 0 {
        return Chosen::Start;
    }
    match &template.completion[0] {
        DebugConfigCompletion::Advanced(a) => match &a.completion {
            Some(kind) => {
                if same(kind, "go-test-function") {
                    return Chosen::PickTest;
                }
            },
            None => {},
        },
        DebugConfigCompletion::Named(_n) => {},
    }
    Chosen::Ask
}

/// The tests to choose from, or that there are none.
pub fn offer_tests(directory: &str, tests: Vec<GoTestEntry>) -> (r: Result<
    Vec<GoTestEntry>,
    String,
>)
    ensures
        match r {
            Ok(offered) => tests@.len() > 0 && offered == tests,
            Err(e) => tests@.len() == 0 && e@ == "No Go tests found in "@ + directory@,
        },
{
    if tests.len() == 0 {
        let mut e = "No Go tests found in ".to_owned();
        e.append(directory);
        return Err(e);
    }
    Ok(tests)
}

/// The parameters so far, and whether more are asked for.
#[derive(Debug)]
pub enum Asking {
    Ask(Vec<String>),
    Start(Vec<String>),
}

/// What follows the choice of a test: its package directory and the pattern that
/// runs it are the first two parameters, and what is left is asked for. A template
/// with two parameters has them all, so its session starts.
pub fn test_chosen(directory: &str, entry: &GoTestEntry, asked: usize) -> (r: Asking)
    ensures
        ({
            let params = seq![directory@, run_pattern(entry@)];
            if asked > 2 {
                r matches Asking::Ask(p) && views(p@) == params
            } else {
                r matches Asking::Start(p) && views(p@) == params
            }
        }),
{
    let mut params: Vec<String> = Vec::new();
    params.push(directory.to_owned());
    params.push(go_test_run_regex(entry));
    assert(views(params@) =~= seq![directory@, run_pattern(entry@)]);
    if asked > 2 {
        Asking::Ask(params)
    } else {
        Asking::Start(params)
    }
}

/// What can be completed in the answer to a question.
#[derive(Debug, Clone, Copy, PartialEq, Eq, Structural)]
pub enum Field {
    Filename,
    Directory,
    Plain,
}

/// A question for a parameter.
#[derive(Debug)]
pub struct Question {
    pub prompt: String,
    pub field: Field,
    /// What an empty answer means.
    pub default: String,
}

pub open spec fn opt_text(s: Option<String>, other: Seq<char>) -> Seq<char> {
    match s {
        Some(s) => s@,
        None => other,
    }
}

pub open spec fn field_kind(kind: Seq<char>) -> Field {
    if kind == "filename"@ {
        Field::Filename
    } else if kind == "directory"@ {
        Field::Directory
    } else {
        Field::Plain
    }
}

/// The question for parameter `given` of a template.
pub fn debug_parameter_prompt(completions: &Vec<DebugConfigCompletion>, given: usize) -> (r:
    Question)
    requires
        given < completions@.len(),
    ensures
        match completions@[given as int] {
            DebugConfigCompletion::Named(name) => r.prompt@ == name@ + ": "@ && r.field
                == Field::Plain && r.default@ == Seq::<char>::empty(),
            DebugConfigCompletion::Advanced(a) => r.prompt@ == opt_text(
                a.name,
                opt_text(a.completion, seq![]),
            ) + ": "@ && r.field == field_kind(opt_text(a.completion, seq![])) && r.default@
                == opt_text(a.default, seq![]),
        },
{
    let empty = String::new();
    proof {
        assert(empty@ =~= seq![]);
        reveal_strlit("filename");
        reveal_strlit("directory");
    }
    match &completions[given] {
        DebugConfigCompletion::Named(name) => {
            let mut prompt = name.clone();
            prompt.append(": ");
            Question { prompt, field: Field::Plain, default: empty }
        },
        DebugConfigCompletion::Advanced(a) => {
            let kind = match &a.completion {
                Some(kind) => kind.clone(),
                None => empty.clone(),
            };
            let field = if same(&kind, "filename") {
                Field::Filename
            } else if same(&kind, "directory") {
                Field::Directory
            } else {
                Field::Plain
            };
            let mut prompt = match &a.name {
                Some(name) => name.clone(),
                None => kind,
            };
            prompt.append(": ");
            let default = match &a.default {
                Some(default) => default.clone(),
                None => empty,
            };
            Question { prompt, field, default }
        },
    }
}

/// What follows the answer to a question: an empty one means the default.
pub fn parameter_given(params: Vec<String>, input: &str, default: &str, asked: usize) -> (r: Asking)
    ensures
        ({
            let all = views(params@).push(
                if input@.len() == 0 {
                    default@
                } else {
                    input@
                },
            );
            if all.len() < asked {
                r matches Asking::Ask(p) && views(p@) == all
            } else {
                r matches Asking::Start(p) && views(p@) == all
            }
        }),
{
    let ghost before = views(params@);
    let mut params = params;
    let value = if chars(input).len() == 0 { default.to_owned() } else { input.to_owned() };
    params.push(value);
    assert(views(params@) =~= before.push(value@));
    if params.len() < asked {
        Asking::Ask(params)
    } else {
        Asking::Start(params)
    }
}

// ---------------------------------------------------------------------------
// Redirected output
// ---------------------------------------------------------------------------

/// A file to which the program writes its output.
#[derive(Debug)]
pub struct Redirected {
    pub path: String,
    pub prefix: &'static str,
    pub is_stderr: bool,
}

pub struct RedirectedView {
    pub path: Seq<char>,
    pub prefix: Seq<char>,
    pub is_stderr: bool,
}

impl View for Redirected {
    type V = RedirectedView;

    open spec fn view(&self) -> RedirectedView {
        RedirectedView { path: self.path@, prefix: self.prefix@, is_stderr: self.is_stderr }
    }
}

pub open spec fn redirected_views(v: Seq<Redirected>) -> Seq<RedirectedView> {
    v.map_values(|r: Redirected| r@)
}

/// A file that an argument names.
pub open spec fn redirected(
    args: JsonView,
    field: Seq<char>,
    prefix: Seq<char>,
    is_stderr: bool,
) -> Seq<RedirectedView> {
    match crate::json::as_text(crate::json::at(args, field)) {
        Some(path) => seq![RedirectedView { path, prefix, is_stderr }],
        None => seq![],
    }
}

fn push_redirected(
    paths: &mut Vec<Redirected>,
    args: &Json,
    field: &str,
    prefix: &'static str,
    is_stderr: bool,
)
    ensures
        redirected_views(final(paths)@) == redirected_views(old(paths)@) + redirected(
            args@,
            field@,
            prefix@,
            is_stderr,
        ),
{
    let ghost before = redirected_views(paths@);
    match args.text(field) {
        Some(path) => {
            paths.push(Redirected { path: path.to_owned(), prefix, is_stderr });
            assert(redirected_views(paths@) =~= before + redirected(
                args@,
                field@,
                prefix@,
                is_stderr,
            ));
        },
        None => {
            assert(before + Seq::<RedirectedView>::empty() =~= before);
        },
    }
}

/// The files to which the arguments send the output of the program.
pub fn redirected_output_paths(args: &Json) -> (r: Vec<Redirected>)
    ensures
        redirected_views(r@) == redirected(args@, "stdoutTo"@, "[stdout] [debuggee]"@, false)
            + redirected(args@, "stderrTo"@, "[stderr] [debuggee]"@, true),
{
    let mut paths: Vec<Redirected> = Vec::new();
    assert(redirected_views(paths@) =~= seq![]);
    push_redirected(&mut paths, args, "stdoutTo", "[stdout] [debuggee]", false);
    assert(redirected_views(paths@) =~= redirected(
        args@,
        "stdoutTo"@,
        "[stdout] [debuggee]"@,
        false,
    ));
    push_redirected(&mut paths, args, "stderrTo", "[stderr] [debuggee]", true);
    paths
}

/// How far a file is read that is written at the same time.
#[derive(Debug)]
pub struct Tail {
    pub offset: u64,
}

/// From where the file is read on: a file that is gone or has become shorter is
/// read from its start.
pub open spec fn read_start(offset: u64, len: Option<u64>) -> u64 {
    match len {
        Some(len) => if len < offset {
            0
        } else {
            offset
        },
        None => 0,
    }
}

/// From where there is something to read, given the length of the file.
pub open spec fn unread(offset: u64, len: Option<u64>) -> Option<u64> {
    match len {
        Some(len) => if len == read_start(offset, Some(len)) {
            None
        } else {
            Some(read_start(offset, Some(len)))
        },
        None => None,
    }
}

impl Tail {
    /// From where to read, given the length of the file; nothing if there is
    /// nothing new.
    pub fn next(&mut self, len: Option<u64>) -> (r: Option<u64>)
        ensures
            final(self).offset == read_start(old(self).offset, len),
            r == unread(old(self).offset, len),
    {
        match len {
            Some(len) => {
                if len < self.offset {
                    self.offset = 0;
                }
                if len == self.offset {
                    None
                } else {
                    Some(self.offset)
                }
            },
            None => {
                self.offset = 0;
                None
            },
        }
    }

    /// Takes in what was read.
    pub fn read(&mut self, bytes: &Vec<u8>) -> (r: String)
        requires
            old(self).offset + bytes@.len() <= u64::MAX,
        ensures
            final(self).offset == old(self).offset + bytes@.len(),
            r@ == lossy_text(bytes@),
    {
        self.offset += bytes.len() as u64;
        lossy(bytes)
    }
}

/// What was read up to the end of a file is not read again while the file stays as
/// it is.
pub proof fn output_is_read_once(offset: u64, len: u64)
    ensures
        unread(offset, Some(len)) matches Some(from) ==> from < len,
        unread(len, Some(len)) is None,
{
}

/// The template that is named is chosen, and the first one where none is named.
pub proof fn named_templates_are_chosen(templates: Seq<DebugTemplate>, name: Seq<char>)
    ensures
        ({
            let i = chosen_template(templates, Some(name));
            &&& 0 <= i <= templates.len()
            &&& i < templates.len() ==> templates[i].name@ == name
            &&& i == templates.len() ==> forall|k: int|
                0 <= k < templates.len() ==> (#[trigger] templates[k]).name@ != name
        }),
        chosen_template(templates, None) == 0,
{
    lemma_template_from(templates, name, 0);
}

proof fn lemma_template_from(templates: Seq<DebugTemplate>, name: Seq<char>, from: int)
    requires
        0 <= from <= templates.len(),
    ensures
        ({
            let i = template_from(templates, name, from);
            &&& from <= i <= templates.len()
            &&& i < templates.len() ==> templates[i].name@ == name
            &&& i == templates.len() ==> forall|k: int|
                from <= k < templates.len() ==> (#[trigger] templates[k]).name@ != name
        }),
    decreases templates.len() - from,
{
    if from < templates.len() {
        lemma_template_from(templates, name, from + 1);
    }
}

/// A parameter goes into its place, wherever that stands in the text; a text without
/// places stays as it is.
pub proof fn parameters_go_into_their_places(
    before: Seq<char>,
    after: Seq<char>,
    s: Seq<char>,
    param: Seq<char>,
)
    ensures
        split_once(before + "{0}"@ + after, "{0}"@) == Some((before, after)) && split_once(
            after,
            "{0}"@,
        ) is None ==> filled_in(before + "{0}"@ + after, seq![param], 1) == before + param + after,
        split_once(s, "{0}"@) is None ==> filled_in(s, seq![param], 1) == s,
{
    reveal_strlit("{0}");
    reveal_strlit("{");
    reveal_strlit("}");
    reveal_with_fuel(filled_in, 3);
    reveal_with_fuel(replaced, 3);
    assert(decimal(0) =~= seq!['0']);
    assert(placeholder(0) =~= "{0}"@);
}

/// Filling in keeps the shape of the arguments: their names and their number stay, and
/// only texts change.
pub proof fn filling_in_keeps_the_shape(v: JsonView, params: Seq<Seq<char>>)
    ensures
        v is Null || v is Bool || v is Number ==> mapped(v, params) == v,
        v matches JsonView::List(items) ==> (mapped(v, params) matches JsonView::List(all)
            && all.len() == items.len() && forall|i: int|
            0 <= i < items.len() ==> #[trigger] all[i] == mapped(items[i], params)),
        v matches JsonView::Object(members) ==> (mapped(v, params) matches JsonView::Object(all)
            && all.len() == members.len() && forall|i: int|
            0 <= i < members.len() ==> (#[trigger] all[i]).0 == members[i].0 && all[i].1 == mapped(
                members[i].1,
                params,
            )),
{
    match v {
        JsonView::List(items) => lemma_mapped_list(items, items.len(), params),
        JsonView::Object(members) => lemma_mapped_members(members, members.len(), params),
        _ => {},
    }
}

proof fn lemma_mapped_list(items: Seq<JsonView>, n: nat, params: Seq<Seq<char>>)
    requires
        n <= items.len(),
    ensures
        mapped_list(items, n, params).len() == n,
        forall|i: int|
            0 <= i < n ==> #[trigger] mapped_list(items, n, params)[i] == mapped(items[i], params),
    decreases n,
{
    if n > 0 {
        lemma_mapped_list(items, (n - 1) as nat, params);
    }
}

proof fn lemma_mapped_members(
    members: Seq<(Seq<char>, JsonView)>,
    n: nat,
    params: Seq<Seq<char>>,
)
    requires
        n <= members.len(),
    ensures
        mapped_members(members, n, params).len() == n,
        forall|i: int|
            0 <= i < n ==> (#[trigger] mapped_members(members, n, params)[i]).0 == members[i].0
                && mapped_members(members, n, params)[i].1 == mapped(members[i].1, params),
    decreases n,
{
    if n > 0 {
        lemma_mapped_members(members, (n - 1) as nat, params);
    }
}

/// A text that says a number becomes one.
pub proof fn numbers_become_numbers(n: nat)
    requires
        n <= usize::MAX,
        n <= u64::MAX,
    ensures
        mapped(JsonView::Text(decimal(n)), seq![]) == JsonView::Number(
            decimal(n),
            Some(n as u64),
        ),
{
    crate::text::numbers_are_read_back(n, usize::MAX as nat);
}

/// Files and directories go into the arguments by their real paths where they have one;
/// everything else as it was given.
pub proof fn only_paths_are_resolved(
    template: DebugTemplate,
    params: Seq<Seq<char>>,
    canonical: Seq<Option<String>>,
    i: int,
)
    requires
        0 <= i < params.len(),
    ensures
        all_prepared(template, params, canonical).len() == params.len(),
        i < template.completion@.len() && i < canonical.len() && (
        template.completion@[i] matches DebugConfigCompletion::Advanced(a) && (
        a.completion matches Some(kind) && (kind@ == "filename"@ || kind@ == "directory"@))) && (
        canonical[i] is Some) ==> all_prepared(template, params, canonical)[i] == canonical[i]->0@,
        i >= template.completion@.len() || !(
        template.completion@[i] matches DebugConfigCompletion::Advanced(a) && (
        a.completion matches Some(kind) && (kind@ == "filename"@ || kind@ == "directory"@)))
            ==> all_prepared(template, params, canonical)[i] == params[i],
        i >= canonical.len() || canonical[i] is None ==> all_prepared(
            template,
            params,
            canonical,
        )[i] == params[i],
{
}

/// The working directory is added only where the arguments name none; what they say
/// stays.
pub proof fn named_directories_are_kept(args: Seq<(Seq<char>, JsonView)>, cwd: Seq<char>, i: int)
    ensures
        0 <= i < args.len() ==> with_directory(args, cwd)[i] == args[i],
        0 <= i < args.len() && args[i].0 == "cwd"@ ==> with_directory(args, cwd) == args,
        (forall|k: int| 0 <= k < args.len() ==> (#[trigger] args[k]).0 != "cwd"@)
            ==> with_directory(args, cwd) == args.push(("cwd"@, JsonView::Text(cwd))),
{
}

/// Output is read on from where it was read to; from the start where the file became
/// shorter or is gone.
pub proof fn output_is_read_on(offset: u64, len: u64)
    ensures
        offset < len ==> unread(offset, Some(len)) == Some(offset),
        offset == len ==> unread(offset, Some(len)) is None,
        0 < len < offset ==> unread(offset, Some(len)) == Some(0u64),
        unread(offset, None) is None,
        read_start(offset, None) == 0,
{
}

/// Output that a program writes to a file is read from there, and told from what it
/// prints as errors.
pub proof fn redirected_output_is_read(
    args: JsonView,
    field: Seq<char>,
    prefix: Seq<char>,
    is_stderr: bool,
)
    ensures
        crate::json::as_text(crate::json::at(args, field)) matches Some(path) ==> redirected(
            args,
            field,
            prefix,
            is_stderr,
        ).len() == 1 && redirected(args, field, prefix, is_stderr)[0] == (RedirectedView {
            path,
            prefix,
            is_stderr,
        }),
        crate::json::as_text(crate::json::at(args, field)) is None ==> redirected(
            args,
            field,
            prefix,
            is_stderr,
        ).len() == 0,
{
}

} // verus!
