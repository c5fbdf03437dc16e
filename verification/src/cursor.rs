//! The Go test at a cursor. Selection is conservative: a case is chosen only if its
//! name is plain to see and no sibling can have the same one; else the whole test.
use crate::discovery::{
    case_name, escaped, normalize, patterns_tell_names_apart, run_pattern, EntryView, GoTestEntry,
};
use crate::status::text_view;
use crate::text::{
    after_prefix, before_suffix, chars, control, is_control, is_space, part, same, spells,
    strip_prefix, strip_suffix, text, whitespace,
};
use vstd::prelude::*;

verus! {

// ---------------------------------------------------------------------------
// Syntax trees
// ---------------------------------------------------------------------------

/// A node of a syntax tree. Positions are counted in characters of the source.
#[derive(Debug)]
pub struct Node {
    pub kind: String,
    /// The name by which the parent refers to the node.
    pub field: Option<String>,
    pub named: bool,
    pub extra: bool,
    /// The parser inserted the node to go on after an error.
    pub missing: bool,
    pub start: usize,
    pub end: usize,
    pub children: Vec<Node>,
}

#[verifier::ext_equal]
pub struct NodeView {
    pub kind: Seq<char>,
    pub field: Option<Seq<char>>,
    pub named: bool,
    pub extra: bool,
    pub missing: bool,
    pub start: int,
    pub end: int,
    pub children: Seq<NodeView>,
}

pub open spec fn node_view(n: Node) -> NodeView
    decreases n,
{
    NodeView {
        kind: n.kind@,
        field: text_view(n.field),
        named: n.named,
        extra: n.extra,
        missing: n.missing,
        start: n.start as int,
        end: n.end as int,
        children: nodes_view(n.children@),
    }
}

pub open spec fn nodes_view(nodes: Seq<Node>) -> Seq<NodeView>
    decreases nodes,
{
    if nodes.len() == 0 {
        seq![]
    } else {
        nodes_view(nodes.drop_last()).push(node_view(nodes.last()))
    }
}

impl View for Node {
    type V = NodeView;

    open spec fn view(&self) -> NodeView {
        node_view(*self)
    }
}

proof fn lemma_nodes_view(nodes: Seq<Node>)
    ensures
        nodes_view(nodes).len() == nodes.len(),
        forall|i: int| 0 <= i < nodes.len() ==> #[trigger] nodes_view(nodes)[i] == nodes[i]@,
    decreases nodes.len(),
{
    if nodes.len() > 0 {
        lemma_nodes_view(nodes.drop_last());
    }
}

/// The nodes of the tree are parts of a source of `len` characters.
pub open spec fn fits(n: NodeView, len: int) -> bool
    decreases n, 0nat,
{
    0 <= n.start <= n.end <= len && all_fit(n.children, n.children.len(), len)
}

pub open spec fn all_fit(nodes: Seq<NodeView>, n: nat, len: int) -> bool
    decreases nodes, n,
{
    n == 0 || n > nodes.len() || (all_fit(nodes, (n - 1) as nat, len) && fits(nodes[n - 1], len))
}

proof fn lemma_all_fit(nodes: Seq<NodeView>, n: nat, len: int)
    requires
        all_fit(nodes, n, len),
        n <= nodes.len(),
    ensures
        forall|i: int| 0 <= i < n ==> fits(#[trigger] nodes[i], len),
    decreases n,
{
    if n > 0 {
        lemma_all_fit(nodes, (n - 1) as nat, len);
    }
}

/// The text of a node.
pub open spec fn node_text(n: NodeView, source: Seq<char>) -> Seq<char> {
    source.subrange(n.start, n.end)
}

fn slice<'a>(node: &Node, source: &'a [char]) -> (r: &'a [char])
    requires
        fits(node@, source@.len() as int),
    ensures
        r@ == node_text(node@, source@),
{
    part(source, node.start, node.end)
}

/// The first child from index `i` on that the parent refers to by `name`.
pub open spec fn field_from(nodes: Seq<NodeView>, name: Seq<char>, i: int) -> Option<NodeView>
    decreases nodes.len() - i,
{
    if i < 0 || i >= nodes.len() {
        None
    } else if nodes[i].field == Some(name) {
        Some(nodes[i])
    } else {
        field_from(nodes, name, i + 1)
    }
}

pub open spec fn field_of(n: NodeView, name: Seq<char>) -> Option<NodeView> {
    field_from(n.children, name, 0)
}

fn field<'a>(node: &'a Node, name: &str, Ghost(len): Ghost<int>) -> (r: Option<&'a Node>)
    requires
        fits(node@, len),
    ensures
        match r {
            Some(n) => field_of(node@, name@) == Some(n@) && fits(n@, len),
            None => field_of(node@, name@) is None,
        },
{
    let ghost all = nodes_view(node.children@);
    proof {
        lemma_nodes_view(node.children@);
        lemma_all_fit(all, all.len(), len);
    }
    let mut i: usize = 0;
    while i < node.children.len()
        invariant
            i <= node.children@.len(),
            all == nodes_view(node.children@),
            all == node@.children,
            all.len() == node.children@.len(),
            forall|k: int| 0 <= k < all.len() ==> #[trigger] all[k] == node.children@[k]@,
            forall|k: int| 0 <= k < all.len() ==> fits(#[trigger] all[k], len),
            field_from(all, name@, 0) == field_from(all, name@, i as int),
        decreases node.children@.len() - i,
    {
        let child = &node.children[i];
        assert(all[i as int] == child@);
        let hit = match &child.field {
            Some(f) => same(f, name),
            None => false,
        };
        if hit {
            return Some(child);
        }
        i += 1;
    }
    None
}

/// A child that is part of the syntax, not a token or a comment.
pub open spec fn is_proper(n: NodeView) -> bool {
    n.named && !n.extra
}

/// The proper children among the first `n` nodes.
pub open spec fn proper(nodes: Seq<NodeView>, n: nat) -> Seq<NodeView>
    decreases n,
{
    if n == 0 || n > nodes.len() {
        seq![]
    } else {
        let before = proper(nodes, (n - 1) as nat);
        if is_proper(nodes[n - 1]) {
            before.push(nodes[n - 1])
        } else {
            before
        }
    }
}

pub open spec fn children_of(n: NodeView) -> Seq<NodeView> {
    proper(n.children, n.children.len())
}

fn children<'a>(node: &'a Node, Ghost(len): Ghost<int>) -> (r: Vec<&'a Node>)
    requires
        fits(node@, len),
    ensures
        r@.len() == children_of(node@).len(),
        forall|i: int|
            0 <= i < r@.len() ==> (#[trigger] r@[i])@ == children_of(node@)[i] && fits(r@[i]@, len),
        forall|i: int| 0 <= i < r@.len() ==> node.children@.contains(*#[trigger] r@[i]),
{
    let ghost all = nodes_view(node.children@);
    proof {
        lemma_nodes_view(node.children@);
        lemma_all_fit(all, all.len(), len);
    }
    let mut r: Vec<&'a Node> = Vec::new();
    let mut i: usize = 0;
    while i < node.children.len()
        invariant
            i <= node.children@.len(),
            all == nodes_view(node.children@),
            all.len() == node.children@.len(),
            forall|k: int| 0 <= k < all.len() ==> #[trigger] all[k] == node.children@[k]@,
            forall|k: int| 0 <= k < all.len() ==> fits(#[trigger] all[k], len),
            r@.len() == proper(all, i as nat).len(),
            forall|k: int|
                0 <= k < r@.len() ==> (#[trigger] r@[k])@ == proper(all, i as nat)[k] && fits(
                    r@[k]@,
                    len,
                ),
            forall|k: int| 0 <= k < r@.len() ==> node.children@.contains(*#[trigger] r@[k]),
        decreases node.children@.len() - i,
    {
        let child = &node.children[i];
        assert(all[i as int] == child@);
        assert(node.children@[i as int] == *child);
        if child.named && !child.extra {
            r.push(child);
        }
        i += 1;
    }
    r
}

/// The cursor is in the node.
pub open spec fn holds(n: NodeView, cursor: int) -> bool {
    n.start <= cursor < n.end
}

// ---------------------------------------------------------------------------
// Names
// ---------------------------------------------------------------------------

/// A character that a name cannot hold if it is to be found again as written.
pub open spec fn is_awkward(c: char) -> bool {
    c == '\\' || c == '/' || c == '#' || is_control(c) || (is_space(c) && c != ' ')
}

pub open spec fn plain(s: Seq<char>) -> bool {
    s.len() > 0 && forall|i: int| 0 <= i < s.len() ==> !is_awkward(#[trigger] s[i])
}

fn is_plain(s: &[char]) -> (r: bool)
    ensures
        r == plain(s@),
{
    let mut i: usize = 0;
    while i < s.len()
        invariant
            i <= s@.len(),
            forall|k: int| 0 <= k < i ==> !is_awkward(#[trigger] s@[k]),
        decreases s@.len() - i,
    {
        let c = s[i];
        if c == '\\' || c == '/' || c == '#' || control(c) || (whitespace(c) && c != ' ') {
            assert(is_awkward(s@[i as int]));
            return false;
        }
        i += 1;
    }
    s.len() > 0
}

/// The text between the quotes of a literal.
pub open spec fn quoted(s: Seq<char>, quote: Seq<char>) -> Option<Seq<char>> {
    match strip_prefix(s, quote) {
        Some(rest) => strip_suffix(rest, quote),
        None => None,
    }
}

/// The string that a literal denotes, where that can be found again as written:
/// escapes, paths and generated suffixes need what only a run knows.
pub open spec fn literal_of(n: NodeView, source: Seq<char>) -> Option<Seq<char>> {
    let raw = n.kind == "raw_string_literal"@;
    if n.kind != "interpreted_string_literal"@ && !raw {
        None
    } else {
        match quoted(node_text(n, source), if raw { "`"@ } else { "\""@ }) {
            Some(value) => if plain(value) {
                Some(value)
            } else {
                None
            },
            None => None,
        }
    }
}

fn literal<'a>(node: &Node, source: &'a [char]) -> (r: Option<&'a [char]>)
    requires
        fits(node@, source@.len() as int),
    ensures
        match r {
            Some(s) => literal_of(node@, source@) == Some(s@),
            None => literal_of(node@, source@) is None,
        },
{
    let raw = same(&node.kind, "raw_string_literal");
    if !raw && !same(&node.kind, "interpreted_string_literal") {
        return None;
    }
    let quote = if raw { "`" } else { "\"" };
    match after_prefix(slice(node, source), quote) {
        Some(rest) => match before_suffix(rest, quote) {
            Some(value) => if is_plain(value) {
                Some(value)
            } else {
                None
            },
            None => None,
        },
        None => None,
    }
}

/// The name under which an import specification brings in the testing package.
pub open spec fn import_name(n: NodeView, source: Seq<char>) -> Option<Seq<char>> {
    if n.kind != "import_spec"@ {
        None
    } else {
        match field_of(n, "path"@) {
            Some(path) => if literal_of(path, source) == Some("testing"@) {
                match field_of(n, "name"@) {
                    Some(name) => Some(node_text(name, source)),
                    None => Some("testing"@),
                }
            } else {
                None
            },
            None => None,
        }
    }
}

/// The name of the testing package in a tree: the last import counts.
pub open spec fn testing_in(n: NodeView, source: Seq<char>) -> Option<Seq<char>>
    decreases n, 0nat,
{
    match import_name(n, source) {
        Some(name) => Some(name),
        None => testing_among(n.children, source, n.children.len()),
    }
}

pub open spec fn testing_among(nodes: Seq<NodeView>, source: Seq<char>, n: nat) -> Option<Seq<char>>
    decreases nodes, n,
{
    if n == 0 || n > nodes.len() {
        None
    } else {
        match testing_in(nodes[n - 1], source) {
            Some(name) => Some(name),
            None => testing_among(nodes, source, (n - 1) as nat),
        }
    }
}

fn testing_import(node: &Node, source: &[char]) -> (r: Option<String>)
    requires
        fits(node@, source@.len() as int),
    ensures
        text_view(r) == testing_in(node@, source@),
    decreases node,
{
    let ghost len = source@.len() as int;
    if same(&node.kind, "import_spec") {
        match field(node, "path", Ghost(len)) {
            Some(path) => match literal(path, source) {
                Some(value) => {
                    if spells(value, "testing") {
                        return match field(node, "name", Ghost(len)) {
                            Some(name) => Some(text(slice(name, source))),
                            None => Some("testing".to_owned()),
                        };
                    }
                },
                None => {},
            },
            None => {},
        }
    }
    assert(import_name(node@, source@) is None);
    let ghost all = nodes_view(node.children@);
    proof {
        lemma_nodes_view(node.children@);
        lemma_all_fit(all, all.len(), len);
    }
    let mut i: usize = node.children.len();
    while i > 0
        invariant
            i <= node.children@.len(),
            len == source@.len(),
            all == nodes_view(node.children@),
            all == node@.children,
            all.len() == node.children@.len(),
            forall|k: int| 0 <= k < all.len() ==> #[trigger] all[k] == node.children@[k]@,
            forall|k: int| 0 <= k < all.len() ==> fits(#[trigger] all[k], len),
            testing_in(node@, source@) == testing_among(all, source@, i as nat),
        decreases i,
    {
        i -= 1;
        let child = &node.children[i];
        proof {
            assert(all[i as int] == child@);
            assert(decreases_to!(*node => node.children));
            assert(decreases_to!(node.children => node.children@));
            assert(decreases_to!(node.children@ => node.children@[i as int]));
        }
        match testing_import(child, source) {
            Some(name) => return Some(name),
            None => {},
        }
    }
    None
}

/// How many of the nodes are identifiers.
pub open spec fn identifiers(nodes: Seq<NodeView>) -> nat
    decreases nodes.len(),
{
    if nodes.len() == 0 {
        0
    } else {
        identifiers(nodes.drop_last()) + (if nodes.last().kind == "identifier"@ {
            1nat
        } else {
            0
        })
    }
}

/// A type is the testing package's `T`.
pub open spec fn is_testing_type(ty: NodeView, source: Seq<char>, import: Seq<char>) -> bool {
    if import == "."@ {
        ty.kind == "type_identifier"@ && node_text(ty, source) == "T"@
    } else {
        &&& ty.kind == "qualified_type"@
        &&& field_of(ty, "package"@) matches Some(p) && node_text(p, source) == import
        &&& field_of(ty, "name"@) matches Some(n) && node_text(n, source) == "T"@
    }
}

/// The name of the only parameter of a test function; empty if it has no name.
/// Grouped parameters, results and type parameters make it no test.
pub open spec fn receiver_of(
    function: NodeView,
    source: Seq<char>,
    import: Seq<char>,
) -> Option<Seq<char>> {
    if field_of(function, "result"@) is Some || field_of(function, "type_parameters"@) is Some {
        None
    } else {
        match field_of(function, "parameters"@) {
            None => None,
            Some(list) => {
                let params = children_of(list);
                if params.len() != 1 || params[0].kind != "parameter_declaration"@ || identifiers(
                    children_of(params[0]),
                ) > 1 {
                    None
                } else {
                    match field_of(params[0], "type"@) {
                        None => None,
                        Some(ty) => {
                            let pointed = children_of(ty);
                            if ty.kind != "pointer_type"@ || pointed.len() == 0
                                || !is_testing_type(pointed[0], source, import) {
                                None
                            } else {
                                match field_of(params[0], "name"@) {
                                    Some(name) => Some(node_text(name, source)),
                                    None => Some(seq![]),
                                }
                            }
                        },
                    }
                }
            },
        }
    }
}

fn testing_type(ty: &Node, source: &[char], import: &str) -> (r: bool)
    requires
        fits(ty@, source@.len() as int),
    ensures
        r == is_testing_type(ty@, source@, import@),
{
    let ghost len = source@.len() as int;
    if same(import, ".") {
        return same(&ty.kind, "type_identifier") && spells(slice(ty, source), "T");
    }
    if !same(&ty.kind, "qualified_type") {
        return false;
    }
    let package = match field(ty, "package", Ghost(len)) {
        Some(p) => spells(slice(p, source), import),
        None => false,
    };
    let name = match field(ty, "name", Ghost(len)) {
        Some(n) => spells(slice(n, source), "T"),
        None => false,
    };
    package && name
}

fn receiver(function: &Node, source: &[char], import: &str) -> (r: Option<String>)
    requires
        fits(function@, source@.len() as int),
    ensures
        text_view(r) == receiver_of(function@, source@, import@),
{
    let ghost len = source@.len() as int;
    if field(function, "result", Ghost(len)).is_some() || field(
        function,
        "type_parameters",
        Ghost(len),
    ).is_some() {
        return None;
    }
    let list = match field(function, "parameters", Ghost(len)) {
        Some(list) => list,
        None => return None,
    };
    let params = children(list, Ghost(len));
    if params.len() != 1 {
        return None;
    }
    let param = params[0];
    assert(param@ == children_of(list@)[0]);
    if !same(&param.kind, "parameter_declaration") {
        return None;
    }
    let inner = children(param, Ghost(len));
    let ghost shown = children_of(param@);
    let mut n: usize = 0;
    let mut i: usize = 0;
    while i < inner.len()
        invariant
            i <= inner@.len(),
            n <= i,
            inner@.len() == shown.len(),
            forall|k: int| 0 <= k < inner@.len() ==> (#[trigger] inner@[k])@ == shown[k],
            n == identifiers(shown.take(i as int)),
        decreases inner@.len() - i,
    {
        proof {
            assert(shown.take(i as int + 1).drop_last() =~= shown.take(i as int));
            assert(inner@[i as int]@ == shown[i as int]);
        }
        if same(&inner[i].kind, "identifier") {
            n += 1;
        }
        i += 1;
    }
    assert(shown.take(i as int) =~= shown);
    if n > 1 {
        return None;
    }
    let ty = match field(param, "type", Ghost(len)) {
        Some(ty) => ty,
        None => return None,
    };
    if !same(&ty.kind, "pointer_type") {
        return None;
    }
    let pointed = children(ty, Ghost(len));
    if pointed.len() == 0 {
        return None;
    }
    assert(pointed@[0]@ == children_of(ty@)[0]);
    if !testing_type(pointed[0], source, import) {
        return None;
    }
    match field(param, "name", Ghost(len)) {
        Some(name) => Some(text(slice(name, source))),
        None => {
            let empty = String::new();
            assert(empty@ =~= seq![]);
            Some(empty)
        },
    }
}

/// What `Run` is called on, if the node is such a call.
pub open spec fn run_on(n: NodeView, source: Seq<char>) -> Option<Seq<char>> {
    if n.kind != "call_expression"@ {
        None
    } else {
        match field_of(n, "function"@) {
            None => None,
            Some(function) => match (
                field_of(function, "field"@),
                field_of(function, "operand"@),
            ) {
                (Some(method), Some(operand)) => if function.kind == "selector_expression"@
                    && node_text(method, source) == "Run"@ {
                    Some(node_text(operand, source))
                } else {
                    None
                },
                _ => None,
            },
        }
    }
}

fn run_receiver<'a>(node: &Node, source: &'a [char]) -> (r: Option<&'a [char]>)
    requires
        fits(node@, source@.len() as int),
    ensures
        match r {
            Some(s) => run_on(node@, source@) == Some(s@),
            None => run_on(node@, source@) is None,
        },
{
    let ghost len = source@.len() as int;
    if !same(&node.kind, "call_expression") {
        return None;
    }
    let function = match field(node, "function", Ghost(len)) {
        Some(function) => function,
        None => return None,
    };
    let method = match field(function, "field", Ghost(len)) {
        Some(method) => method,
        None => return None,
    };
    let operand = match field(function, "operand", Ghost(len)) {
        Some(operand) => operand,
        None => return None,
    };
    if same(&function.kind, "selector_expression") && spells(slice(method, source), "Run") {
        Some(slice(operand, source))
    } else {
        None
    }
}

// ---------------------------------------------------------------------------
// Searching a tree
// ---------------------------------------------------------------------------

/// What to look for in a tree.
pub enum Mark {
    /// What a parser leaves at an error.
    Broken,
    /// An identifier of this name.
    Identifier(Seq<char>),
    /// A call of `Run` at the cursor.
    RunAt(int),
}

pub open spec fn has_mark(n: NodeView, mark: Mark, source: Seq<char>) -> bool {
    match mark {
        Mark::Broken => n.kind == "ERROR"@ || n.missing,
        Mark::Identifier(name) => n.kind == "identifier"@ && node_text(n, source) == name,
        Mark::RunAt(cursor) => holds(n, cursor) && run_on(n, source) is Some,
    }
}

/// A node of the tree, its root among them, has the mark.
pub open spec fn marked(n: NodeView, mark: Mark, source: Seq<char>) -> bool
    decreases n, 0nat,
{
    has_mark(n, mark, source) || marked_among(n.children, mark, source, n.children.len())
}

pub open spec fn marked_among(nodes: Seq<NodeView>, mark: Mark, source: Seq<char>, n: nat) -> bool
    decreases nodes, n,
{
    n > 0 && n <= nodes.len() && (marked(nodes[n - 1], mark, source) || marked_among(
        nodes,
        mark,
        source,
        (n - 1) as nat,
    ))
}

enum Sought<'a> {
    Broken,
    Identifier(&'a str),
    RunAt(usize),
}

impl View for Sought<'_> {
    type V = Mark;

    closed spec fn view(&self) -> Mark {
        match self {
            Sought::Broken => Mark::Broken,
            Sought::Identifier(name) => Mark::Identifier(name@),
            Sought::RunAt(cursor) => Mark::RunAt(*cursor as int),
        }
    }
}

fn is_sought(node: &Node, sought: &Sought, source: &[char]) -> (r: bool)
    requires
        fits(node@, source@.len() as int),
    ensures
        r == has_mark(node@, sought@, source@),
{
    match sought {
        Sought::Broken => same(&node.kind, "ERROR") || node.missing,
        Sought::Identifier(name) => same(&node.kind, "identifier") && spells(
            slice(node, source),
            name,
        ),
        Sought::RunAt(cursor) => node.start <= *cursor && *cursor < node.end && run_receiver(
            node,
            source,
        ).is_some(),
    }
}

fn find_below(node: &Node, sought: &Sought, source: &[char]) -> (r: bool)
    requires
        fits(node@, source@.len() as int),
    ensures
        r == marked_among(node@.children, sought@, source@, node@.children.len()),
    decreases node,
{
    let ghost len = source@.len() as int;
    let ghost all = nodes_view(node.children@);
    proof {
        lemma_nodes_view(node.children@);
        lemma_all_fit(all, all.len(), len);
    }
    let mut i: usize = node.children.len();
    while i > 0
        invariant
            i <= node.children@.len(),
            len == source@.len(),
            all == nodes_view(node.children@),
            all == node@.children,
            all.len() == node.children@.len(),
            forall|k: int| 0 <= k < all.len() ==> #[trigger] all[k] == node.children@[k]@,
            forall|k: int| 0 <= k < all.len() ==> fits(#[trigger] all[k], len),
            marked_among(all, sought@, source@, all.len()) == marked_among(
                all,
                sought@,
                source@,
                i as nat,
            ),
        decreases i,
    {
        i -= 1;
        let child = &node.children[i];
        proof {
            assert(all[i as int] == child@);
            assert(marked(child@, sought@, source@) == (has_mark(child@, sought@, source@)
                || marked_among(child@.children, sought@, source@, child@.children.len())));
            assert(marked_among(all, sought@, source@, (i + 1) as nat) == (marked(
                all[i as int],
                sought@,
                source@,
            ) || marked_among(all, sought@, source@, i as nat)));
            assert(decreases_to!(*node => node.children));
            assert(decreases_to!(node.children => node.children@));
            assert(decreases_to!(node.children@ => node.children@[i as int]));
        }
        if is_sought(child, sought, source) || find_below(child, sought, source) {
            return true;
        }
    }
    false
}

fn find_in(node: &Node, sought: &Sought, source: &[char]) -> (r: bool)
    requires
        fits(node@, source@.len() as int),
    ensures
        r == marked(node@, sought@, source@),
{
    is_sought(node, sought, source) || find_below(node, sought, source)
}

// ---------------------------------------------------------------------------
// The calls of a test
// ---------------------------------------------------------------------------

/// A call of `Run` on the test's receiver, and whether it stands in a loop.
pub struct CallView {
    pub node: NodeView,
    pub looped: bool,
}

/// What the body of a test shows: its calls of `Run`, and whether cases may come
/// about in another way.
#[verifier::ext_equal]
pub struct Scan {
    pub calls: Seq<CallView>,
    pub opaque: bool,
}

/// A statement that gives names new values.
pub open spec fn is_binding(kind: Seq<char>) -> bool {
    ||| kind == "short_var_declaration"@
    ||| kind == "assignment_statement"@
    ||| kind == "range_clause"@
    ||| kind == "receive_statement"@
    ||| kind == "type_switch_statement"@
}

/// The names to which a statement gives values.
pub open spec fn bound_in(n: NodeView) -> Option<NodeView> {
    match field_of(n, "left"@) {
        Some(left) => Some(left),
        None => field_of(n, "alias"@),
    }
}

/// The receiver may be something else behind the node, which makes `Run` on it
/// unsafe to resolve by name.
pub open spec fn rebinds(n: NodeView, source: Seq<char>, receiver: Seq<char>) -> bool {
    ||| is_binding(n.kind) && (bound_in(n) matches Some(names) && marked(
        names,
        Mark::Identifier(receiver),
        source,
    ))
    ||| n.kind == "var_spec"@ && exists|i: int|
        0 <= i < children_of(n).len() && has_mark(
            #[trigger] children_of(n)[i],
            Mark::Identifier(receiver),
            source,
        )
}

/// A call of `Run` on the receiver itself.
pub open spec fn is_case(n: NodeView, source: Seq<char>, receiver: Seq<char>) -> bool {
    run_on(n, source) == Some(receiver) && receiver.len() > 0 && receiver != "_"@
}

/// The node can bring about cases that the calls do not show.
pub open spec fn hides_cases(n: NodeView, source: Seq<char>, receiver: Seq<char>) -> bool {
    ||| rebinds(n, source, receiver)
    ||| run_on(n, source) is Some && !is_case(n, source, receiver)
    ||| n.kind == "goto_statement"@
}

/// What a node of the body shows. Closures belong to a case if they are handed to
/// `Run` directly; any other can bring about unknown cases.
pub open spec fn scan(
    n: NodeView,
    parent: NodeView,
    grandparent: NodeView,
    looped: bool,
    inside: bool,
    source: Seq<char>,
    receiver: Seq<char>,
) -> Scan
    decreases n, 0nat,
{
    if n.kind == "func_literal"@ {
        Scan { calls: seq![], opaque: run_on(grandparent, source) != Some(receiver) }
    } else {
        let own = if is_case(n, source, receiver) {
            seq![CallView { node: n, looped }]
        } else {
            seq![]
        };
        let below = scan_among(
            n.children,
            n.children.len(),
            n,
            parent,
            looped || (inside && n.kind == "for_statement"@),
            source,
            receiver,
        );
        Scan {
            calls: own + below.calls,
            opaque: hides_cases(n, source, receiver) || below.opaque,
        }
    }
}

/// What the first `k` nodes show, the last of them first.
pub open spec fn scan_among(
    nodes: Seq<NodeView>,
    k: nat,
    parent: NodeView,
    grandparent: NodeView,
    looped: bool,
    source: Seq<char>,
    receiver: Seq<char>,
) -> Scan
    decreases nodes, k,
{
    if k == 0 || k > nodes.len() {
        Scan { calls: seq![], opaque: false }
    } else {
        let rest = scan_among(nodes, (k - 1) as nat, parent, grandparent, looped, source, receiver);
        if is_proper(nodes[k - 1]) {
            let last = scan(nodes[k - 1], parent, grandparent, looped, true, source, receiver);
            Scan { calls: last.calls + rest.calls, opaque: last.opaque || rest.opaque }
        } else {
            rest
        }
    }
}

struct Call<'a> {
    node: &'a Node,
    looped: bool,
}

impl View for Call<'_> {
    type V = CallView;

    closed spec fn view(&self) -> CallView {
        CallView { node: self.node@, looped: self.looped }
    }
}

spec fn call_view(call: Call) -> CallView {
    call@
}

spec fn call_views(calls: Seq<Call>) -> Seq<CallView> {
    calls.map_values(|c: Call| call_view(c))
}

fn rebound(node: &Node, source: &[char], receiver: &str) -> (r: bool)
    requires
        fits(node@, source@.len() as int),
    ensures
        r == rebinds(node@, source@, receiver@),
{
    let ghost len = source@.len() as int;
    let sought = Sought::Identifier(receiver);
    let kind = &node.kind;
    if same(kind, "short_var_declaration") || same(kind, "assignment_statement") || same(
        kind,
        "range_clause",
    ) || same(kind, "receive_statement") || same(kind, "type_switch_statement") {
        let names = match field(node, "left", Ghost(len)) {
            Some(left) => Some(left),
            None => field(node, "alias", Ghost(len)),
        };
        match names {
            Some(names) => {
                if find_in(names, &sought, source) {
                    return true;
                }
            },
            None => {},
        }
    }
    if !same(kind, "var_spec") {
        return false;
    }
    let inner = children(node, Ghost(len));
    let ghost shown = children_of(node@);
    let mut i: usize = 0;
    while i < inner.len()
        invariant
            i <= inner@.len(),
            len == source@.len(),
            node@.kind == "var_spec"@,
            sought@ == Mark::Identifier(receiver@),
            shown == children_of(node@),
            inner@.len() == shown.len(),
            forall|k: int|
                0 <= k < inner@.len() ==> (#[trigger] inner@[k])@ == shown[k] && fits(
                    inner@[k]@,
                    len,
                ),
            forall|k: int| 0 <= k < i ==> !has_mark(#[trigger] shown[k], sought@, source@),
        decreases inner@.len() - i,
    {
        assert(inner@[i as int]@ == shown[i as int]);
        if is_sought(inner[i], &sought, source) {
            assert(has_mark(children_of(node@)[i as int], Mark::Identifier(receiver@), source@));
            return true;
        }
        i += 1;
    }
    false
}

/// Adds the calls that the node shows to `calls`, and says whether cases may come
/// about in another way.
fn collect<'a>(
    node: &'a Node,
    parent: &'a Node,
    grandparent: &'a Node,
    looped: bool,
    inside: bool,
    source: &[char],
    receiver: &str,
    calls: &mut Vec<Call<'a>>,
) -> (r: bool)
    requires
        fits(node@, source@.len() as int),
        fits(grandparent@, source@.len() as int),
        fits(parent@, source@.len() as int),
        forall|i: int|
            0 <= i < old(calls)@.len() ==> fits(
                (#[trigger] old(calls)@[i]).node@,
                source@.len() as int,
            ),
    ensures
        ({
            let found = scan(
                node@,
                parent@,
                grandparent@,
                looped,
                inside,
                source@,
                receiver@,
            );
            &&& call_views(final(calls)@) == call_views(old(calls)@) + found.calls
            &&& r == found.opaque
        }),
        forall|i: int|
            0 <= i < final(calls)@.len() ==> fits(
                (#[trigger] final(calls)@[i]).node@,
                source@.len() as int,
            ),
    decreases node,
{
    let ghost len = source@.len() as int;
    let ghost before = call_views(calls@);
    if same(&node.kind, "func_literal") {
        let direct = match run_receiver(grandparent, source) {
            Some(on) => spells(on, receiver),
            None => false,
        };
        assert(before + Seq::<CallView>::empty() =~= before);
        return !direct;
    }
    let mut opaque = rebound(node, source, receiver);
    let ghost own = if is_case(node@, source@, receiver@) {
        seq![CallView { node: node@, looped }]
    } else {
        seq![]
    };
    proof {
        reveal_strlit("");
    }
    match run_receiver(node, source) {
        Some(on) => {
            if !same(receiver, "") && !same(receiver, "_") && spells(on, receiver) {
                calls.push(Call { node, looped });
            } else {
                opaque = true;
            }
        },
        None => {},
    }
    opaque = opaque || same(&node.kind, "goto_statement");
    assert(receiver@.len() == 0 ==> receiver@ =~= ""@);
    assert(call_views(calls@) =~= before + own);
    assert(opaque == hides_cases(node@, source@, receiver@));
    let looped_below = looped || (inside && same(&node.kind, "for_statement"));
    let ghost all = nodes_view(node.children@);
    proof {
        lemma_nodes_view(node.children@);
        lemma_all_fit(all, all.len(), len);
    }
    let ghost start = call_views(calls@);
    let ghost whole = scan_among(
        all,
        all.len(),
        node@,
        parent@,
        looped_below,
        source@,
        receiver@,
    );
    let ghost first = opaque;
    let mut i: usize = node.children.len();
    assert(start + whole.calls =~= call_views(calls@) + whole.calls);
    while i > 0
        invariant
            i <= node.children@.len(),
            len == source@.len(),
            fits(node@, len),
            fits(parent@, len),
            all == nodes_view(node.children@),
            all == node@.children,
            all.len() == node.children@.len(),
            forall|k: int| 0 <= k < all.len() ==> #[trigger] all[k] == node.children@[k]@,
            forall|k: int| 0 <= k < all.len() ==> fits(#[trigger] all[k], len),
            forall|k: int| 0 <= k < calls@.len() ==> fits((#[trigger] calls@[k]).node@, len),
            start + whole.calls == call_views(calls@) + scan_among(
                all,
                i as nat,
                node@,
                parent@,
                looped_below,
                source@,
                receiver@,
            ).calls,
            (first || whole.opaque) == (opaque || scan_among(
                all,
                i as nat,
                node@,
                parent@,
                looped_below,
                source@,
                receiver@,
            ).opaque),
        decreases i,
    {
        i -= 1;
        let child = &node.children[i];
        proof {
            assert(all[i as int] == child@);
            assert(decreases_to!(*node => node.children));
            assert(decreases_to!(node.children => node.children@));
            assert(decreases_to!(node.children@ => node.children@[i as int]));
        }
        let ghost held = call_views(calls@);
        let ghost rest = scan_among(
            all,
            i as nat,
            node@,
            parent@,
            looped_below,
            source@,
            receiver@,
        );
        if child.named && !child.extra {
            let more = collect(child, node, parent, looped_below, true, source, receiver, calls);
            opaque = opaque || more;
            proof {
                let last = scan(child@, node@, parent@, looped_below, true, source@, receiver@);
                assert((held + last.calls) + rest.calls =~= held + (last.calls + rest.calls));
            }
        }
    }
    proof {
        assert(call_views(calls@) + Seq::<CallView>::empty() =~= call_views(calls@));
        assert((before + own) + whole.calls =~= before + (own + whole.calls));
    }
    opaque
}

// ---------------------------------------------------------------------------
// The test at the cursor
// ---------------------------------------------------------------------------

/// The test to run, and what to tell about the choice.
#[derive(Debug)]
pub struct Target {
    pub entry: GoTestEntry,
    pub note: Option<String>,
}

#[verifier::ext_equal]
pub struct TargetView {
    pub entry: EntryView,
    pub note: Option<Seq<char>>,
}

impl View for Target {
    type V = TargetView;

    open spec fn view(&self) -> TargetView {
        TargetView { entry: self.entry@, note: text_view(self.note) }
    }
}

/// Whether a character has Unicode's Lowercase property.
pub uninterp spec fn lowercase_letter(c: char) -> bool;

/// `char::is_lowercase` of std: the answer is a function of the character; of
/// the ASCII characters the small letters have the property.
#[verifier::external_body]
fn is_lowercase(c: char) -> (r: bool)
    ensures
        r == lowercase_letter(c),
        (c as u32) < 128 ==> r == ('a' <= c && c <= 'z'),
{
    c.is_lowercase()
}

/// The position of the first character from `i` on that is neither a space nor a tab.
pub open spec fn past_blanks(s: Seq<char>, i: int) -> int
    decreases s.len() - i,
{
    if 0 <= i < s.len() && (s[i] == ' ' || s[i] == '\t') {
        past_blanks(s, i + 1)
    } else {
        i
    }
}

/// The first of the nodes from index `i` on that is a function around the cursor.
pub open spec fn function_from(nodes: Seq<NodeView>, cursor: int, i: int) -> Option<NodeView>
    decreases nodes.len() - i,
{
    if i < 0 || i >= nodes.len() {
        None
    } else if nodes[i].kind == "function_declaration"@ && holds(nodes[i], cursor) {
        Some(nodes[i])
    } else {
        function_from(nodes, cursor, i + 1)
    }
}

/// A function name that makes a function a test.
pub open spec fn is_test_name(name: Seq<char>) -> bool {
    match strip_prefix(name, "Test"@) {
        Some(suffix) => suffix.len() == 0 || !lowercase_letter(suffix[0]),
        None => false,
    }
}

pub open spec fn function_name(function: NodeView, source: Seq<char>) -> Seq<char> {
    match field_of(function, "name"@) {
        Some(name) => node_text(name, source),
        None => seq![],
    }
}

/// The receiver of a test function in the file.
pub open spec fn test_receiver(root: NodeView, function: NodeView, source: Seq<char>) -> Option<
    Seq<char>,
> {
    match testing_in(root, source) {
        Some(import) => receiver_of(function, source, import),
        None => None,
    }
}

/// The name of the case that a call of `Run` introduces, where it is plain to see.
pub open spec fn case_of(call: NodeView, source: Seq<char>) -> Option<Seq<char>> {
    match field_of(call, "arguments"@) {
        Some(arguments) => if children_of(arguments).len() > 0 {
            literal_of(children_of(arguments)[0], source)
        } else {
            None
        },
        None => None,
    }
}

/// The call introduces one case, whose name is plain to see.
pub open spec fn is_plain_case(call: CallView, source: Seq<char>) -> bool {
    !call.looped && case_of(call.node, source) is Some
}

/// The calls introduce one case each, under names that the runner tells apart.
pub open spec fn told_apart(calls: Seq<CallView>, source: Seq<char>) -> bool {
    &&& forall|i: int| 0 <= i < calls.len() ==> is_plain_case(#[trigger] calls[i], source)
    &&& forall|i: int, j: int|
        0 <= i < j < calls.len() ==> case_name(case_of((#[trigger] calls[i]).node, source)->0)
            != case_name(case_of((#[trigger] calls[j]).node, source)->0)
}

/// The first of the calls from index `i` on around the cursor.
pub open spec fn call_from(calls: Seq<CallView>, cursor: int, i: int) -> Option<NodeView>
    decreases calls.len() - i,
{
    if i < 0 || i >= calls.len() {
        None
    } else if holds(calls[i].node, cursor) {
        Some(calls[i].node)
    } else {
        call_from(calls, cursor, i + 1)
    }
}

/// Which part of a test function to run.
pub open spec fn part_at(
    found: Scan,
    name: Seq<char>,
    file: Seq<char>,
    source: Seq<char>,
    cursor: int,
) -> TargetView {
    let whole = EntryView { name, subtest: None, file };
    let unknown = TargetView {
        entry: whole,
        note: Some(
            "No unique static subtest at the cursor; running all of "@ + name
                + " (including its subtests)."@,
        ),
    };
    if found.calls.len() == 0 && !found.opaque {
        TargetView { entry: whole, note: None }
    } else if found.opaque || !told_apart(found.calls, source) {
        unknown
    } else {
        match call_from(found.calls, cursor, 0) {
            Some(call) => {
                let case = case_of(call, source)->0;
                TargetView {
                    entry: EntryView { name, subtest: Some(case), file },
                    note: if marked_among(
                        call.children,
                        Mark::RunAt(cursor),
                        source,
                        call.children.len(),
                    ) {
                        Some(
                            "Nested subtest: running enclosing "@ + name + "/"@ + case
                                + " with all its subtests."@,
                        )
                    } else {
                        None
                    },
                }
            },
            None => unknown,
        }
    }
}

/// What the body of a test function shows.
pub open spec fn scan_body(
    root: NodeView,
    function: NodeView,
    body: NodeView,
    source: Seq<char>,
    receiver: Seq<char>,
) -> Scan {
    scan(body, function, root, false, false, source, receiver)
}

/// The test at a position that has no blank behind it, or why there is none.
pub open spec fn test_at(root: NodeView, source: Seq<char>, cursor: int, file: Seq<char>) -> Result<
    TargetView,
    Seq<char>,
> {
    match function_from(children_of(root), cursor, 0) {
        None => Err("Cursor is not inside a Go test function"@),
        Some(function) => if marked(function, Mark::Broken, source) {
            Err("Fix syntax errors in the test before running it"@)
        } else {
            match test_receiver(root, function, source) {
                Some(receiver) if is_test_name(function_name(function, source)) => match field_of(
                    function,
                    "body"@,
                ) {
                    None => Err("The test function has no body"@),
                    Some(body) => Ok(
                        part_at(
                            scan_body(root, function, body, source, receiver),
                            function_name(function, source),
                            file,
                            source,
                            cursor,
                        ),
                    ),
                },
                _ => Err("Cursor is not inside a Go test function (func TestX(*testing.T))"@),
            }
        },
    }
}

fn case<'a>(call: &Node, source: &'a [char]) -> (r: Option<&'a [char]>)
    requires
        fits(call@, source@.len() as int),
    ensures
        match r {
            Some(s) => case_of(call@, source@) == Some(s@),
            None => case_of(call@, source@) is None,
        },
{
    let ghost len = source@.len() as int;
    match field(call, "arguments", Ghost(len)) {
        Some(arguments) => {
            let inner = children(arguments, Ghost(len));
            if inner.len() == 0 {
                return None;
            }
            assert(inner@[0]@ == children_of(arguments@)[0]);
            literal(inner[0], source)
        },
        None => None,
    }
}

/// The names of the calls' cases as the runner writes them, if it tells them apart.
fn distinct_cases(calls: &Vec<Call>, source: &[char]) -> (r: bool)
    requires
        forall|i: int|
            0 <= i < calls@.len() ==> fits((#[trigger] calls@[i]).node@, source@.len() as int),
    ensures
        r == told_apart(call_views(calls@), source@),
{
    let ghost all = call_views(calls@);
    let mut names: Vec<String> = Vec::new();
    let mut i: usize = 0;
    while i < calls.len()
        invariant
            i <= calls@.len(),
            all == call_views(calls@),
            forall|k: int|
                0 <= k < calls@.len() ==> fits((#[trigger] calls@[k]).node@, source@.len() as int),
            names@.len() == i,
            forall|k: int| 0 <= k < i ==> is_plain_case(#[trigger] all[k], source@),
            forall|k: int|
                0 <= k < i ==> (#[trigger] names@[k])@ == case_name(case_of(all[k].node, source@)->0),
            forall|k: int, j: int|
                0 <= k < j < i ==> case_name(case_of((#[trigger] all[k]).node, source@)->0)
                    != case_name(case_of((#[trigger] all[j]).node, source@)->0),
        decreases calls@.len() - i,
    {
        let call = &calls[i];
        assert(all[i as int] == calls@[i as int]@);
        assert(all[i as int].node == call.node@);
        let name = match case(call.node, source) {
            Some(name) => name,
            None => {
                assert(!is_plain_case(all[i as int], source@));
                return false;
            },
        };
        if call.looped {
            assert(!is_plain_case(all[i as int], source@));
            return false;
        }
        let name = normalize(&text(name));
        let mut j: usize = 0;
        while j < names.len()
            invariant
                j <= names@.len(),
                names@.len() == i,
                i < all.len(),
                name@ == case_name(case_of(all[i as int].node, source@)->0),
                forall|k: int|
                    0 <= k < i ==> (#[trigger] names@[k])@ == case_name(
                        case_of(all[k].node, source@)->0,
                    ),
                forall|k: int| 0 <= k < j ==> (#[trigger] names@[k])@ != name@,
                all == call_views(calls@),
            decreases names@.len() - j,
        {
            if same(&names[j], &name) {
                assert(case_name(case_of(all[j as int].node, source@)->0) == case_name(
                    case_of(all[i as int].node, source@)->0,
                ));
                return false;
            }
            j += 1;
        }
        assert forall|k: int| 0 <= k < i implies case_name(
            case_of((#[trigger] all[k]).node, source@)->0,
        ) != case_name(case_of(all[i as int].node, source@)->0) by {
            assert(names@[k]@ != name@);
        }
        names.push(name);
        i += 1;
    }
    true
}

/// Which part of a test function to run.
fn choose_part(
    calls: Vec<Call>,
    opaque: bool,
    name: String,
    file: &str,
    source: &[char],
    cursor: usize,
) -> (r: Target)
    requires
        forall|i: int|
            0 <= i < calls@.len() ==> fits((#[trigger] calls@[i]).node@, source@.len() as int),
    ensures
        r@ == part_at(
            Scan { calls: call_views(calls@), opaque },
            name@,
            file@,
            source@,
            cursor as int,
        ),
{
    let ghost all = call_views(calls@);
    if calls.len() == 0 && !opaque {
        return Target {
            entry: GoTestEntry { name, subtest: None, file: file.to_owned() },
            note: None,
        };
    }
    if !opaque && distinct_cases(&calls, source) {
        let mut i: usize = 0;
        while i < calls.len()
            invariant
                i <= calls@.len(),
                all == call_views(calls@),
                all.len() > 0,
                !opaque,
                told_apart(all, source@),
                forall|k: int|
                    0 <= k < calls@.len() ==> fits(
                        (#[trigger] calls@[k]).node@,
                        source@.len() as int,
                    ),
                call_from(all, cursor as int, 0) == call_from(all, cursor as int, i as int),
            decreases calls@.len() - i,
        {
            let call = calls[i].node;
            assert(all[i as int] == calls@[i as int]@);
            if call.start <= cursor && cursor < call.end {
                assert(is_plain_case(all[i as int], source@));
                match case(call, source) {
                    Some(case) => {
                        let case = text(case);
                        let note = if find_below(call, &Sought::RunAt(cursor), source) {
                            let mut note = "Nested subtest: running enclosing ".to_owned();
                            note.append(&name);
                            note.append("/");
                            note.append(&case);
                            note.append(" with all its subtests.");
                            Some(note)
                        } else {
                            None
                        };
                        return Target {
                            entry: GoTestEntry {
                                name,
                                subtest: Some(case),
                                file: file.to_owned(),
                            },
                            note,
                        };
                    },
                    None => {},
                }
            }
            i += 1;
        }
    }
    let mut note = "No unique static subtest at the cursor; running all of ".to_owned();
    note.append(&name);
    note.append(" (including its subtests).");
    Target {
        entry: GoTestEntry { name, subtest: None, file: file.to_owned() },
        note: Some(note),
    }
}

fn function_around<'a>(root: &'a Node, cursor: usize, Ghost(len): Ghost<int>) -> (r: Option<
    &'a Node,
>)
    requires
        fits(root@, len),
    ensures
        match r {
            Some(n) => function_from(children_of(root@), cursor as int, 0) == Some(n@) && fits(
                n@,
                len,
            ),
            None => function_from(children_of(root@), cursor as int, 0) is None,
        },
{
    let nodes = children(root, Ghost(len));
    let ghost all = children_of(root@);
    let mut i: usize = 0;
    while i < nodes.len()
        invariant
            i <= nodes@.len(),
            all == children_of(root@),
            nodes@.len() == all.len(),
            forall|k: int|
                0 <= k < nodes@.len() ==> (#[trigger] nodes@[k])@ == all[k] && fits(
                    nodes@[k]@,
                    len,
                ),
            function_from(all, cursor as int, 0) == function_from(all, cursor as int, i as int),
        decreases nodes@.len() - i,
    {
        let node = nodes[i];
        assert(nodes@[i as int]@ == all[i as int]);
        if same(&node.kind, "function_declaration") && node.start <= cursor && cursor < node.end {
            return Some(node);
        }
        i += 1;
    }
    None
}

fn test_name(name: &[char]) -> (r: bool)
    ensures
        r == is_test_name(name@),
{
    match after_prefix(name, "Test") {
        Some(suffix) => suffix.len() == 0 || !is_lowercase(suffix[0]),
        None => false,
    }
}

/// The test at the cursor, a position in `source`, whose syntax tree `root` is.
/// Indentation belongs to what follows it on its line.
pub fn at_cursor(root: &Node, source: &str, cursor: usize, file: &str) -> (r: Result<
    Target,
    String,
>)
    requires
        fits(root@, source@.len() as int),
        cursor <= source@.len(),
    ensures
        match r {
            Ok(target) => test_at(
                root@,
                source@,
                past_blanks(source@, cursor as int),
                file@,
            ) == Ok::<TargetView, Seq<char>>(target@),
            Err(e) => test_at(root@, source@, past_blanks(source@, cursor as int), file@) == Err::<
                TargetView,
                Seq<char>,
            >(e@),
        },
{
    let all = chars(source);
    let ghost len = source@.len() as int;
    let mut at: usize = cursor;
    while at < all.len() && (all[at] == ' ' || all[at] == '\t')
        invariant
            at <= all@.len(),
            all@ == source@,
            past_blanks(source@, cursor as int) == past_blanks(source@, at as int),
        decreases all@.len() - at,
    {
        at += 1;
    }
    assert(past_blanks(source@, at as int) == at);
    let function = match function_around(root, at, Ghost(len)) {
        Some(function) => function,
        None => return Err("Cursor is not inside a Go test function".to_owned()),
    };
    if find_in(function, &Sought::Broken, &all) {
        return Err("Fix syntax errors in the test before running it".to_owned());
    }
    let name = match field(function, "name", Ghost(len)) {
        Some(name) => text(slice(name, &all)),
        None => {
            let empty = String::new();
            assert(empty@ =~= seq![]);
            empty
        },
    };
    let on = match testing_import(root, &all) {
        Some(import) => receiver(function, &all, &import),
        None => None,
    };
    match on {
        Some(on) => {
            if test_name(&chars(&name)) {
                let body = match field(function, "body", Ghost(len)) {
                    Some(body) => body,
                    None => return Err("The test function has no body".to_owned()),
                };
                let mut calls: Vec<Call> = Vec::new();
                assert(call_views(calls@) =~= seq![]);
                let opaque = collect(
                    body,
                    function,
                    root,
                    false,
                    false,
                    &all,
                    &on,
                    &mut calls,
                );
                proof {
                    let found = scan_body(root@, function@, body@, source@, on@);
                    assert(call_views(calls@) =~= found.calls);
                    assert(Scan { calls: call_views(calls@), opaque } =~= found);
                }
                return Ok(choose_part(calls, opaque, name, file, &all, at));
            }
        },
        None => {},
    }
    Err("Cursor is not inside a Go test function (func TestX(*testing.T))".to_owned())
}

proof fn lemma_proper(nodes: Seq<NodeView>, n: nat)
    requires
        n <= nodes.len(),
    ensures
        forall|i: int|
            0 <= i < proper(nodes, n).len() ==> exists|j: int|
                0 <= j < n && (#[trigger] nodes[j]) == #[trigger] proper(nodes, n)[i]
                    && nodes[j].named && !nodes[j].extra,
        forall|j: int|
            0 <= j < n && (#[trigger] nodes[j]).named && !nodes[j].extra ==> proper(
                nodes,
                n,
            ).contains(nodes[j]),
    decreases n,
{
    if n > 0 {
        let before = proper(nodes, (n - 1) as nat);
        let all = proper(nodes, n);
        lemma_proper(nodes, (n - 1) as nat);
        assert forall|i: int| 0 <= i < all.len() implies exists|j: int|
            0 <= j < n && (#[trigger] nodes[j]) == #[trigger] all[i] && nodes[j].named
                && !nodes[j].extra by {
            if i < before.len() {
                assert(all[i] == before[i]);
                let j = choose|j: int|
                    0 <= j < n - 1 && (#[trigger] nodes[j]) == before[i] && nodes[j].named
                        && !nodes[j].extra;
                assert(nodes[j] == all[i]);
            } else {
                assert(nodes[n - 1] == all[i]);
            }
        }
        assert forall|j: int|
            0 <= j < n && (#[trigger] nodes[j]).named && !nodes[j].extra implies all.contains(
            nodes[j],
        ) by {
            if j < n - 1 {
                let k = before.index_of(nodes[j]);
                assert(all[k] == before[k]);
            } else {
                assert(all.last() == nodes[j]);
            }
        }
    }
}

proof fn lemma_function_from(nodes: Seq<NodeView>, cursor: int, i: int)
    requires
        0 <= i,
    ensures
        function_from(nodes, cursor, i) matches Some(f) ==> exists|k: int|
            i <= k < nodes.len() && #[trigger] nodes[k] == f && f.kind == "function_declaration"@
                && f.start <= cursor < f.end,
        function_from(nodes, cursor, i) is None ==> forall|k: int|
            i <= k < nodes.len() && (#[trigger] nodes[k]).kind == "function_declaration"@ ==> !(
            nodes[k].start <= cursor < nodes[k].end),
    decreases nodes.len() - i,
{
    if i < nodes.len() {
        lemma_function_from(nodes, cursor, i + 1);
        if nodes[i].kind == "function_declaration"@ && nodes[i].start <= cursor < nodes[i].end {
            assert(function_from(nodes, cursor, i) == Some(nodes[i]));
        } else if let Some(f) = function_from(nodes, cursor, i) {
            let k = choose|k: int|
                i + 1 <= k < nodes.len() && #[trigger] nodes[k] == f && f.kind
                    == "function_declaration"@ && f.start <= cursor < f.end;
            assert(nodes[k] == f);
        }
    }
}

proof fn lemma_past_blanks(s: Seq<char>, i: int, p: int)
    requires
        0 <= i <= p <= s.len(),
        forall|j: int| i <= j < p ==> (#[trigger] s[j]) == ' ' || s[j] == '\t',
        p < s.len() ==> s[p] != ' ' && s[p] != '\t',
    ensures
        past_blanks(s, i) == p,
    decreases p - i,
{
    if i < p {
        assert(s[i] == ' ' || s[i] == '\t');
        lemma_past_blanks(s, i + 1, p);
    }
}

proof fn lemma_field_from(nodes: Seq<NodeView>, name: Seq<char>, i: int)
    requires
        0 <= i,
    ensures
        field_from(nodes, name, i) matches Some(n) ==> exists|k: int|
            i <= k < nodes.len() && #[trigger] nodes[k] == n && n.field == Some(name),
    decreases nodes.len() - i,
{
    if i < nodes.len() {
        if nodes[i].field != Some(name) {
            lemma_field_from(nodes, name, i + 1);
            if let Some(n) = field_from(nodes, name, i) {
                let k = choose|k: int|
                    i + 1 <= k < nodes.len() && #[trigger] nodes[k] == n && n.field == Some(name);
                assert(nodes[k] == n);
            }
        }
    }
}

/// A declared function of the file, the position `p` within it.
pub open spec fn function_at(root: NodeView, i: int, p: int) -> bool {
    &&& 0 <= i < root.children.len()
    &&& root.children[i].named
    &&& !root.children[i].extra
    &&& root.children[i].kind == "function_declaration"@
    &&& root.children[i].start <= p < root.children[i].end
}

/// The test that is run is the function around the cursor, past the blanks behind it:
/// one of the functions that the file declares holds it and has the name of the test.
/// Where no function is around the cursor, nothing is run.
pub proof fn the_function_around_the_cursor_is_run(
    root: NodeView,
    source: Seq<char>,
    cursor: int,
    p: int,
    file: Seq<char>,
)
    requires
        0 <= cursor <= p <= source.len(),
        forall|j: int| cursor <= j < p ==> (#[trigger] source[j]) == ' ' || source[j] == '\t',
        p < source.len() ==> source[p] != ' ' && source[p] != '\t',
    ensures
        test_at(root, source, past_blanks(source, cursor), file) matches Ok(target) ==> {
            &&& target.entry.file == file
            &&& "Test"@.is_prefix_of(target.entry.name)
            &&& exists|i: int, k: int|
                #![trigger root.children[i].children[k]]
                function_at(root, i, p) && 0 <= k < root.children[i].children.len()
                    && root.children[i].children[k].field == Some("name"@) && source.subrange(
                    root.children[i].children[k].start,
                    root.children[i].children[k].end,
                ) == target.entry.name
        },
        (forall|i: int| !#[trigger] function_at(root, i, p)) ==> test_at(
            root,
            source,
            past_blanks(source, cursor),
            file,
        ) == Err::<TargetView, Seq<char>>("Cursor is not inside a Go test function"@),
{
    lemma_past_blanks(source, cursor, p);
    let nodes = children_of(root);
    lemma_proper(root.children, root.children.len());
    lemma_function_from(nodes, p, 0);
    match function_from(nodes, p, 0) {
        Some(f) => {
            let k = choose|k: int|
                0 <= k < nodes.len() && #[trigger] nodes[k] == f && f.kind
                    == "function_declaration"@ && f.start <= p < f.end;
            let i = choose|i: int|
                0 <= i < root.children.len() && (#[trigger] root.children[i]) == nodes[k]
                    && root.children[i].named && !root.children[i].extra;
            assert(function_at(root, i, p));
            lemma_field_from(f.children, "name"@, 0);
            reveal_strlit("Test");
            if let Ok(target) = test_at(root, source, p, file) {
                assert(target.entry.name == function_name(f, source));
                let name = field_of(f, "name"@)->0;
                let j = choose|j: int|
                    0 <= j < f.children.len() && #[trigger] f.children[j] == name && name.field
                        == Some("name"@);
                assert(root.children[i].children[j] == name);
            }
        },
        None => {},
    }
}

/// A test is run wherever the cursor is in it: a function around the cursor, the only one
/// there, without syntax errors, with the name and the parameter of a test and a body.
pub proof fn tests_around_the_cursor_are_run(
    root: NodeView,
    source: Seq<char>,
    cursor: int,
    p: int,
    file: Seq<char>,
    i: int,
    import: Seq<char>,
    suffix: Seq<char>,
)
    requires
        0 <= cursor <= p <= source.len(),
        forall|j: int| cursor <= j < p ==> (#[trigger] source[j]) == ' ' || source[j] == '\t',
        p < source.len() ==> source[p] != ' ' && source[p] != '\t',
        function_at(root, i, p),
        forall|j: int| #[trigger]
            function_at(root, j, p) ==> root.children[j] == root.children[i],
        !marked(root.children[i], Mark::Broken, source),
        testing_in(root, source) == Some(import),
        receiver_of(root.children[i], source, import) is Some,
        function_name(root.children[i], source) == "Test"@ + suffix,
        suffix.len() > 0 ==> !lowercase_letter(suffix[0]),
        field_of(root.children[i], "body"@) is Some,
    ensures
        test_at(root, source, past_blanks(source, cursor), file) matches Ok(target)
            && target.entry.name == "Test"@ + suffix,
{
    lemma_past_blanks(source, cursor, p);
    let nodes = children_of(root);
    lemma_proper(root.children, root.children.len());
    lemma_function_from(nodes, p, 0);
    let own = root.children[i];
    assert(nodes.contains(own));
    let at = nodes.index_of(own);
    assert(nodes[at] == own);
    let f = function_from(nodes, p, 0)->0;
    let k = choose|k: int|
        0 <= k < nodes.len() && #[trigger] nodes[k] == f && f.kind == "function_declaration"@
            && f.start <= p < f.end;
    let j = choose|j: int|
        0 <= j < root.children.len() && (#[trigger] root.children[j]) == nodes[k]
            && root.children[j].named && !root.children[j].extra;
    assert(function_at(root, j, p));
    let name = "Test"@ + suffix;
    assert(name.subrange(0, "Test"@.len() as int) =~= "Test"@);
    assert(name.subrange("Test"@.len() as int, name.len() as int) =~= suffix);
    assert(name.skip("Test"@.len() as int) =~= suffix);
}

/// The case at the cursor is run wherever its name is plain to see and no other case can
/// have it; a test without cases is run as a whole without a remark.
pub proof fn cases_at_the_cursor_are_run(
    found: Scan,
    name: Seq<char>,
    file: Seq<char>,
    source: Seq<char>,
    cursor: int,
    i: int,
)
    requires
        !found.opaque,
        forall|k: int|
            0 <= k < found.calls.len() ==> !(#[trigger] found.calls[k]).looped && case_of(
                found.calls[k].node,
                source,
            ) is Some,
        forall|k: int, j: int|
            0 <= k < j < found.calls.len() ==> case_name(
                case_of((#[trigger] found.calls[k]).node, source)->0,
            ) != case_name(case_of((#[trigger] found.calls[j]).node, source)->0),
    ensures
        found.calls.len() == 0 ==> part_at(found, name, file, source, cursor).note is None
            && part_at(found, name, file, source, cursor).entry == (EntryView {
            name,
            subtest: None,
            file,
        }),
        0 <= i < found.calls.len() && found.calls[i].node.start <= cursor
            < found.calls[i].node.end && (forall|k: int|
            0 <= k < found.calls.len() && k != i ==> !((#[trigger] found.calls[k]).node.start
                <= cursor < found.calls[k].node.end)) ==> part_at(
            found,
            name,
            file,
            source,
            cursor,
        ).entry == (EntryView { name, subtest: case_of(found.calls[i].node, source), file }),
        found.calls.len() > 0 && (forall|k: int|
            0 <= k < found.calls.len() ==> !((#[trigger] found.calls[k]).node.start <= cursor
                < found.calls[k].node.end)) ==> part_at(
            found,
            name,
            file,
            source,
            cursor,
        ).entry.subtest is None && part_at(found, name, file, source, cursor).note is Some,
{
    assert(told_apart(found.calls, source)) by {
        assert forall|k: int| 0 <= k < found.calls.len() implies is_plain_case(
            #[trigger] found.calls[k],
            source,
        ) by {}
    }
    if call_from(found.calls, cursor, 0) is Some {
        let r = lemma_call_from(found.calls, cursor, 0);
    } else {
        lemma_no_call_from(found.calls, cursor, 0);
    }
}

proof fn lemma_no_call_from(calls: Seq<CallView>, cursor: int, i: int)
    requires
        0 <= i,
        call_from(calls, cursor, i) is None,
    ensures
        forall|k: int|
            i <= k < calls.len() ==> !((#[trigger] calls[k]).node.start <= cursor
                < calls[k].node.end),
    decreases calls.len() - i,
{
    if i < calls.len() {
        lemma_no_call_from(calls, cursor, i + 1);
    }
}

/// Where cases may come about that the body does not show, the whole test is run, and
/// that is told.
pub proof fn hidden_cases_run_the_whole_test(
    found: Scan,
    name: Seq<char>,
    file: Seq<char>,
    source: Seq<char>,
    cursor: int,
)
    requires
        found.opaque || exists|k: int|
            0 <= k < found.calls.len() && ((#[trigger] found.calls[k]).looped || case_of(
                found.calls[k].node,
                source,
            ) is None),
    ensures
        part_at(found, name, file, source, cursor).entry == (EntryView {
            name,
            subtest: None,
            file,
        }),
        part_at(found, name, file, source, cursor).note is Some,
{
    if !found.opaque {
        let k = choose|k: int|
            0 <= k < found.calls.len() && ((#[trigger] found.calls[k]).looped || case_of(
                found.calls[k].node,
                source,
            ) is None);
        assert(!is_plain_case(found.calls[k], source));
    }
}

/// `d` is the node or stands below it, not within a closure. Closures have their own
/// scope.
pub open spec fn in_scope(n: NodeView, d: NodeView) -> bool
    decreases n, 0nat,
{
    n == d || (n.kind != "func_literal"@ && in_scope_among(n.children, n.children.len(), d))
}

pub open spec fn in_scope_among(nodes: Seq<NodeView>, k: nat, d: NodeView) -> bool
    decreases nodes, k,
{
    0 < k <= nodes.len() && ((nodes[k - 1].named && !nodes[k - 1].extra && in_scope(
        nodes[k - 1],
        d,
    )) || in_scope_among(nodes, (k - 1) as nat, d))
}

/// Every case in a loop is taken to be repeated.
pub proof fn cases_in_loops_are_repeated(
    n: NodeView,
    parent: NodeView,
    grandparent: NodeView,
    looped: bool,
    inside: bool,
    source: Seq<char>,
    receiver: Seq<char>,
)
    requires
        looped || (inside && n.kind == "for_statement"@),
    ensures
        ({
            let found = scan(n, parent, grandparent, looped, inside, source, receiver);
            forall|j: int| 0 <= j < found.calls.len() ==> (#[trigger] found.calls[j]).looped
        }),
    decreases n, 0nat,
{
    reveal_strlit("for_statement");
    reveal_strlit("call_expression");
    assert("for_statement"@.len() != "call_expression"@.len());
    lemma_repeated_among(n.children, n.children.len(), n, parent, source, receiver);
}

proof fn lemma_repeated_among(
    nodes: Seq<NodeView>,
    k: nat,
    parent: NodeView,
    grandparent: NodeView,
    source: Seq<char>,
    receiver: Seq<char>,
)
    ensures
        ({
            let found = scan_among(nodes, k, parent, grandparent, true, source, receiver);
            forall|j: int| 0 <= j < found.calls.len() ==> (#[trigger] found.calls[j]).looped
        }),
    decreases nodes, k,
{
    if 0 < k <= nodes.len() {
        lemma_repeated_among(nodes, (k - 1) as nat, parent, grandparent, source, receiver);
        cases_in_loops_are_repeated(
            nodes[k - 1],
            parent,
            grandparent,
            true,
            true,
            source,
            receiver,
        );
    }
}

/// No call of `Run` in the scope of a test is overlooked: it is one of the cases, or the
/// cases of the test are taken to be unknown. So are they where a `goto` may repeat a
/// call.
pub proof fn no_case_is_overlooked(
    n: NodeView,
    parent: NodeView,
    grandparent: NodeView,
    looped: bool,
    inside: bool,
    source: Seq<char>,
    receiver: Seq<char>,
    d: NodeView,
)
    requires
        in_scope(n, d),
        d.kind != "func_literal"@,
        run_on(d, source) is Some || d.kind == "goto_statement"@,
    ensures
        ({
            let found = scan(n, parent, grandparent, looped, inside, source, receiver);
            found.opaque || exists|j: int|
                0 <= j < found.calls.len() && (#[trigger] found.calls[j]).node == d && run_on(
                    d,
                    source,
                ) == Some(receiver)
        }),
    decreases n, 0nat,
{
    let found = scan(n, parent, grandparent, looped, inside, source, receiver);
    if n == d {
        if !found.opaque {
            assert(found.calls[0].node == d);
        }
    } else {
        let deeper = looped || (inside && n.kind == "for_statement"@);
        let below = scan_among(
            n.children,
            n.children.len(),
            n,
            parent,
            deeper,
            source,
            receiver,
        );
        lemma_not_overlooked_among(
            n.children,
            n.children.len(),
            n,
            parent,
            deeper,
            source,
            receiver,
            d,
        );
        if !found.opaque {
            let j = choose|j: int|
                0 <= j < below.calls.len() && (#[trigger] below.calls[j]).node == d && run_on(
                    d,
                    source,
                ) == Some(receiver);
            let own = found.calls.len() - below.calls.len();
            assert(found.calls[own + j] == below.calls[j]);
        }
    }
}

proof fn lemma_not_overlooked_among(
    nodes: Seq<NodeView>,
    k: nat,
    parent: NodeView,
    grandparent: NodeView,
    looped: bool,
    source: Seq<char>,
    receiver: Seq<char>,
    d: NodeView,
)
    requires
        in_scope_among(nodes, k, d),
        d.kind != "func_literal"@,
        run_on(d, source) is Some || d.kind == "goto_statement"@,
    ensures
        ({
            let found = scan_among(nodes, k, parent, grandparent, looped, source, receiver);
            found.opaque || exists|j: int|
                0 <= j < found.calls.len() && (#[trigger] found.calls[j]).node == d && run_on(
                    d,
                    source,
                ) == Some(receiver)
        }),
    decreases nodes, k,
{
    let found = scan_among(nodes, k, parent, grandparent, looped, source, receiver);
    let rest = scan_among(nodes, (k - 1) as nat, parent, grandparent, looped, source, receiver);
    let node = nodes[k - 1];
    let last = scan(node, parent, grandparent, looped, true, source, receiver);
    if node.named && !node.extra && in_scope(node, d) {
        no_case_is_overlooked(node, parent, grandparent, looped, true, source, receiver, d);
        if !found.opaque {
            let j = choose|j: int|
                0 <= j < last.calls.len() && (#[trigger] last.calls[j]).node == d && run_on(
                    d,
                    source,
                ) == Some(receiver);
            assert(found.calls[j] == last.calls[j]);
        }
    } else {
        lemma_not_overlooked_among(
            nodes,
            (k - 1) as nat,
            parent,
            grandparent,
            looped,
            source,
            receiver,
            d,
        );
        if !found.opaque {
            let j = choose|j: int|
                0 <= j < rest.calls.len() && (#[trigger] rest.calls[j]).node == d && run_on(
                    d,
                    source,
                ) == Some(receiver);
            let own = found.calls.len() - rest.calls.len();
            assert(found.calls[own + j] == rest.calls[j]);
        }
    }
}

/// A case is chosen only if it is unambiguous: the body of its test shows all cases,
/// and the pattern that runs the chosen one is the pattern of no other.
pub proof fn chosen_cases_are_unambiguous(
    found: Scan,
    name: Seq<char>,
    file: Seq<char>,
    source: Seq<char>,
    cursor: int,
)
    ensures
        part_at(found, name, file, source, cursor).entry.subtest matches Some(case) ==> {
            &&& !found.opaque
            &&& exists|i: int|
                #![trigger found.calls[i]]
                0 <= i < found.calls.len() && !found.calls[i].looped && holds(
                    found.calls[i].node,
                    cursor,
                ) && case_of(found.calls[i].node, source) == Some(case) && forall|j: int|
                    0 <= j < found.calls.len() && j != i ==> run_pattern(
                        EntryView {
                            name,
                            subtest: case_of((#[trigger] found.calls[j]).node, source),
                            file,
                        },
                    ) != run_pattern(part_at(found, name, file, source, cursor).entry)
        },
{
    let chosen = part_at(found, name, file, source, cursor).entry;
    if chosen.subtest is Some {
        let i = lemma_call_from(found.calls, cursor, 0);
        assert(is_plain_case(found.calls[i], source));
        assert forall|j: int| 0 <= j < found.calls.len() && j != i implies run_pattern(
            EntryView { name, subtest: case_of((#[trigger] found.calls[j]).node, source), file },
        ) != run_pattern(chosen) by {
            assert(is_plain_case(found.calls[j], source));
            let other = EntryView { name, subtest: case_of(found.calls[j].node, source), file };
            if run_pattern(other) == run_pattern(chosen) {
                let before = "^"@ + name + "$"@ + "/^"@;
                let a = escaped(case_name(other.subtest->0));
                let b = escaped(case_name(chosen.subtest->0));
                assert(run_pattern(other) == before + a + "$"@);
                assert(run_pattern(chosen) == before + b + "$"@);
                assert((before + a + "$"@).len() == (before + b + "$"@).len());
                assert(a =~= (before + a + "$"@).subrange(
                    before.len() as int,
                    (before.len() + a.len()) as int,
                ));
                assert(b =~= (before + b + "$"@).subrange(
                    before.len() as int,
                    (before.len() + b.len()) as int,
                ));
                patterns_tell_names_apart(
                    case_name(other.subtest->0),
                    case_name(chosen.subtest->0),
                );
            }
        }
    }
}

proof fn lemma_call_from(calls: Seq<CallView>, cursor: int, i: int) -> (r: int)
    requires
        0 <= i,
        call_from(calls, cursor, i) is Some,
    ensures
        i <= r < calls.len(),
        holds(calls[r].node, cursor),
        call_from(calls, cursor, i) == Some(calls[r].node),
    decreases calls.len() - i,
{
    if holds(calls[i].node, cursor) {
        i
    } else {
        lemma_call_from(calls, cursor, i + 1)
    }
}

} // verus!
