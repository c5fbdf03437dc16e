//! A browser of the variables of a stopped program: scopes and variables as a
//! tree whose nodes are expanded on demand.
use crate::adapter::{Scope, Variable};
use crate::decode::{collection_shown, decode_byte_collection, decoded_view, DecodedBytes, DecodedView};
use crate::order::{sort, sorted, text_le, text_le_total, text_le_transitive, text_not_after, Keyed};
use crate::status::text_view;
use crate::text::{chars, lowered, same, same_ignoring_case, text, to_lower, views};
use vstd::prelude::*;

verus! {

// ---------------------------------------------------------------------------
// The tree
// ---------------------------------------------------------------------------

#[derive(Debug)]
pub struct Node {
    pub kind: NodeKind,
    pub children: Children,
    pub expanded: bool,
}

#[derive(Debug)]
pub enum NodeKind {
    Scope {
        name: String,
        presentation_hint: Option<String>,
        expensive: bool,
        variables_reference: usize,
    },
    Variable {
        name: String,
        value: String,
        ty: Option<String>,
        variables_reference: usize,
        indexed_variables: Option<usize>,
    },
}

#[derive(Debug)]
pub enum Children {
    Unloaded,
    Loaded(Vec<Node>),
    Failed(String),
}

#[verifier::ext_equal]
pub struct NodeView {
    pub kind: KindView,
    pub children: ChildrenView,
    pub expanded: bool,
}

#[verifier::ext_equal]
pub enum KindView {
    Scope {
        name: Seq<char>,
        presentation_hint: Option<Seq<char>>,
        expensive: bool,
        variables_reference: usize,
    },
    Variable {
        name: Seq<char>,
        value: Seq<char>,
        ty: Option<Seq<char>>,
        variables_reference: usize,
        indexed_variables: Option<usize>,
    },
}

#[verifier::ext_equal]
pub enum ChildrenView {
    Unloaded,
    Loaded(Seq<NodeView>),
    Failed(Seq<char>),
}

pub open spec fn kind_view(k: NodeKind) -> KindView {
    match k {
        NodeKind::Scope { name, presentation_hint, expensive, variables_reference } =>
            KindView::Scope {
            name: name@,
            presentation_hint: text_view(presentation_hint),
            expensive,
            variables_reference,
        },
        NodeKind::Variable { name, value, ty, variables_reference, indexed_variables } =>
            KindView::Variable {
            name: name@,
            value: value@,
            ty: text_view(ty),
            variables_reference,
            indexed_variables,
        },
    }
}

pub open spec fn node_view(n: Node) -> NodeView
    decreases n,
{
    NodeView {
        kind: kind_view(n.kind),
        children: match n.children {
            Children::Unloaded => ChildrenView::Unloaded,
            Children::Loaded(c) => ChildrenView::Loaded(nodes_view(c@)),
            Children::Failed(e) => ChildrenView::Failed(e@),
        },
        expanded: n.expanded,
    }
}

pub open spec fn nodes_view(nodes: Seq<Node>) -> Seq<NodeView>
    decreases nodes,
{
    if nodes.len() == 0 {
        seq![]
    } else {
        nodes_view(nodes.drop_last()).push(node_view(nodes.last()))
    }
}

impl View for Node {
    type V = NodeView;

    open spec fn view(&self) -> NodeView {
        node_view(*self)
    }
}

pub open spec fn children_view(c: Children) -> ChildrenView {
    match c {
        Children::Unloaded => ChildrenView::Unloaded,
        Children::Loaded(c) => ChildrenView::Loaded(nodes_view(c@)),
        Children::Failed(e) => ChildrenView::Failed(e@),
    }
}

proof fn lemma_nodes_view(nodes: Seq<Node>)
    ensures
        nodes_view(nodes).len() == nodes.len(),
        forall|i: int| 0 <= i < nodes.len() ==> #[trigger] nodes_view(nodes)[i] == nodes[i]@,
    decreases nodes.len(),
{
    if nodes.len() > 0 {
        lemma_nodes_view(nodes.drop_last());
    }
}

pub open spec fn reference_of(n: NodeView) -> usize {
    match n.kind {
        KindView::Scope { variables_reference, .. } => variables_reference,
        KindView::Variable { variables_reference, .. } => variables_reference,
    }
}

pub open spec fn name_of(n: NodeView) -> Seq<char> {
    match n.kind {
        KindView::Scope { name, .. } => name,
        KindView::Variable { name, .. } => name,
    }
}

pub open spec fn indexed_of(n: NodeView) -> Option<usize> {
    match n.kind {
        KindView::Scope { .. } => None,
        KindView::Variable { indexed_variables, .. } => indexed_variables,
    }
}

/// Text on one line: line breaks and tabs become spaces.
pub open spec fn inline_char(c: char) -> char {
    if c == '\n' || c == '\r' || c == '\t' {
        ' '
    } else {
        c
    }
}

pub open spec fn inline_text(s: Seq<char>) -> Seq<char> {
    s.map_values(|c: char| inline_char(c))
}

pub open spec fn inline_option(s: Option<String>) -> Option<Seq<char>> {
    match s {
        Some(s) => Some(inline_text(s@)),
        None => None,
    }
}

pub fn sanitize_inline(s: &str) -> (r: String)
    ensures
        r@ == inline_text(s@),
{
    let all = chars(s);
    let mut r = String::new();
    let mut i: usize = 0;
    assert(r@ =~= inline_text(all@).take(0));
    while i < all.len()
        invariant
            i <= all@.len(),
            r@ == inline_text(all@).take(i as int),
        decreases all@.len() - i,
    {
        let c = all[i];
        r.push(if c == '\n' || c == '\r' || c == '\t' { ' ' } else { c });
        i += 1;
        assert(r@ =~= inline_text(all@).take(i as int));
    }
    assert(inline_text(all@).take(i as int) =~= inline_text(all@));
    r
}

fn sanitize_option(s: &Option<String>) -> (r: Option<String>)
    ensures
        text_view(r) == inline_option(*s),
{
    match s {
        Some(s) => Some(sanitize_inline(s)),
        None => None,
    }
}

/// What is known of the children of something new.
pub open spec fn first_children(reference: usize) -> ChildrenView {
    if reference == 0 {
        ChildrenView::Loaded(seq![])
    } else {
        ChildrenView::Unloaded
    }
}

fn new_children(reference: usize) -> (r: Children)
    ensures
        children_view(r) == first_children(reference),
{
    if reference == 0 {
        let none: Vec<Node> = Vec::new();
        assert(nodes_view(none@) =~= seq![]);
        Children::Loaded(none)
    } else {
        Children::Unloaded
    }
}

pub open spec fn scope_node(s: Scope) -> NodeView {
    NodeView {
        kind: KindView::Scope {
            name: inline_text(s.name@),
            presentation_hint: inline_option(s.presentation_hint),
            expensive: s.expensive,
            variables_reference: s.variables_reference,
        },
        children: first_children(s.variables_reference),
        expanded: false,
    }
}

pub open spec fn variable_node(v: Variable) -> NodeView {
    NodeView {
        kind: KindView::Variable {
            name: inline_text(v.name@),
            value: inline_text(v.value@),
            ty: inline_option(v.ty),
            variables_reference: v.variables_reference,
            indexed_variables: v.indexed_variables,
        },
        children: first_children(v.variables_reference),
        expanded: false,
    }
}

/// The text of a byte collection, as its only child.
pub open spec fn decoded_node(d: DecodedView) -> NodeView {
    NodeView {
        kind: KindView::Variable {
            name: "decoded"@,
            value: inline_text(d.inline),
            ty: Some(
                match d.kind {
                    crate::decode::DecodedBytesKind::Text => "text"@,
                    crate::decode::DecodedBytesKind::Json => "json"@,
                },
            ),
            variables_reference: 0,
            indexed_variables: None,
        },
        children: ChildrenView::Loaded(seq![]),
        expanded: false,
    }
}

impl Node {
    pub fn from_scope(scope: &Scope) -> (r: Node)
        ensures
            r@ == scope_node(*scope),
    {
        Node {
            kind: NodeKind::Scope {
                name: sanitize_inline(&scope.name),
                presentation_hint: sanitize_option(&scope.presentation_hint),
                expensive: scope.expensive,
                variables_reference: scope.variables_reference,
            },
            children: new_children(scope.variables_reference),
            expanded: false,
        }
    }

    pub fn from_variable(variable: &Variable) -> (r: Node)
        ensures
            r@ == variable_node(*variable),
    {
        Node {
            kind: NodeKind::Variable {
                name: sanitize_inline(&variable.name),
                value: sanitize_inline(&variable.value),
                ty: sanitize_option(&variable.ty),
                variables_reference: variable.variables_reference,
                indexed_variables: variable.indexed_variables,
            },
            children: new_children(variable.variables_reference),
            expanded: false,
        }
    }

    pub fn from_decoded_bytes(decoded: &DecodedBytes) -> (r: Node)
        ensures
            r@ == decoded_node(decoded@),
    {
        Node {
            kind: NodeKind::Variable {
                name: "decoded".to_owned(),
                value: sanitize_inline(&decoded.inline),
                ty: Some(decoded.label().to_owned()),
                variables_reference: 0,
                indexed_variables: None,
            },
            children: new_children(0),
            expanded: false,
        }
    }

    pub fn variables_reference(&self) -> (r: usize)
        ensures
            r == reference_of(self@),
    {
        match &self.kind {
            NodeKind::Scope { variables_reference, .. } => *variables_reference,
            NodeKind::Variable { variables_reference, .. } => *variables_reference,
        }
    }

    pub fn indexed_variables(&self) -> (r: Option<usize>)
        ensures
            r == indexed_of(self@),
    {
        match &self.kind {
            NodeKind::Scope { .. } => None,
            NodeKind::Variable { indexed_variables, .. } => *indexed_variables,
        }
    }

    pub fn display_name(&self) -> (r: &str)
        ensures
            r@ == name_of(self@),
    {
        match &self.kind {
            NodeKind::Scope { name, .. } => name,
            NodeKind::Variable { name, .. } => name,
        }
    }

    pub fn is_expandable(&self) -> (r: bool)
        ensures
            r == (reference_of(self@) != 0),
    {
        self.variables_reference() != 0
    }

    /// Whether the children were asked for, with or without success.
    pub fn is_loaded(&self) -> (r: bool)
        ensures
            r == !(self@.children is Unloaded),
    {
        match self.children {
            Children::Unloaded => false,
            _ => true,
        }
    }

    pub fn is_local_scope(&self) -> (r: bool)
        ensures
            r == is_local(self@),
    {
        match &self.kind {
            NodeKind::Scope { name, presentation_hint, .. } => matches_name(
                presentation_hint,
                name,
                "locals",
            ),
            NodeKind::Variable { .. } => false,
        }
    }
}

/// Texts that differ only in the case of ASCII letters.
pub open spec fn alike(a: Seq<char>, b: Seq<char>) -> bool {
    lowered(a) == lowered(b)
}

/// A scope's hint or its name says what it is.
pub open spec fn scope_is(hint: Option<Seq<char>>, name: Seq<char>, expected: Seq<char>) -> bool {
    (hint matches Some(h) && alike(h, expected)) || alike(name, expected)
}

fn matches_name(hint: &Option<String>, name: &str, expected: &str) -> (r: bool)
    ensures
        r == scope_is(text_view(*hint), name@, expected@),
{
    let wanted = chars(expected);
    let by_hint = match hint {
        Some(h) => same_ignoring_case(&chars(h), &wanted),
        None => false,
    };
    by_hint || same_ignoring_case(&chars(name), &wanted)
}

pub open spec fn is_local(n: NodeView) -> bool {
    match n.kind {
        KindView::Scope { name, presentation_hint, .. } => scope_is(
            presentation_hint,
            name,
            "locals"@,
        ),
        KindView::Variable { .. } => false,
    }
}

// ---------------------------------------------------------------------------
// The order of scopes
// ---------------------------------------------------------------------------

/// Locals come first, then arguments, return values, registers, all others.
pub open spec fn group_of(hint: Option<Seq<char>>, name: Seq<char>) -> int {
    if scope_is(hint, name, "locals"@) {
        0
    } else if scope_is(hint, name, "arguments"@) {
        1
    } else if scope_is(hint, name, "returnValue"@) {
        2
    } else if scope_is(hint, name, "registers"@) {
        3
    } else {
        4
    }
}

fn group(scope: &Scope) -> (r: u8)
    ensures
        r == group_of(text_view(scope.presentation_hint), scope.name@),
{
    if matches_name(&scope.presentation_hint, &scope.name, "locals") {
        0
    } else if matches_name(&scope.presentation_hint, &scope.name, "arguments") {
        1
    } else if matches_name(&scope.presentation_hint, &scope.name, "returnValue") {
        2
    } else if matches_name(&scope.presentation_hint, &scope.name, "registers") {
        3
    } else {
        4
    }
}

impl Keyed for Scope {
    /// By group, cheap scopes first, and by name without regard to case.
    open spec fn le(&self, other: &Scope) -> bool {
        let a = group_of(text_view(self.presentation_hint), self.name@);
        let b = group_of(text_view(other.presentation_hint), other.name@);
        if a != b {
            a < b
        } else if self.expensive != other.expensive {
            other.expensive
        } else {
            text_le(lowered(self.name@), lowered(other.name@))
        }
    }

    proof fn total(a: &Scope, b: &Scope) {
        text_le_total(lowered(a.name@), lowered(b.name@));
    }

    proof fn transitive(a: &Scope, b: &Scope, c: &Scope) {
        if text_le(lowered(a.name@), lowered(b.name@)) && text_le(
            lowered(b.name@),
            lowered(c.name@),
        ) {
            text_le_transitive(lowered(a.name@), lowered(b.name@), lowered(c.name@));
        }
    }

    fn not_after(&self, other: &Scope) -> (r: bool) {
        let a: u8 = group(self);
        let b: u8 = group(other);
        if a != b {
            a < b
        } else if self.expensive != other.expensive {
            other.expensive
        } else {
            text_not_after(&to_lower(&chars(&self.name)), &to_lower(&chars(&other.name)))
        }
    }
}

pub open spec fn scope_nodes(scopes: Seq<Scope>) -> Seq<NodeView> {
    scopes.map_values(|s: Scope| scope_node(s))
}

/// The scopes of a frame, in the order in which they are shown.
pub fn sort_scopes(scopes: Vec<Scope>) -> (r: Vec<Scope>)
    ensures
        r@ == sorted(scopes@),
{
    sort(scopes)
}

/// Scopes are shown group by group, the locals before the others, whatever the
/// order in which the adapter told of them.
pub proof fn preferred_scopes_come_first(scopes: Seq<Scope>)
    ensures
        sorted(scopes).to_multiset() == scopes.to_multiset(),
        forall|i: int, j: int|
            0 <= i < j < sorted(scopes).len() ==> group_of(
                text_view((#[trigger] sorted(scopes)[i]).presentation_hint),
                sorted(scopes)[i].name@,
            ) <= group_of(
                text_view((#[trigger] sorted(scopes)[j]).presentation_hint),
                sorted(scopes)[j].name@,
            ),
{
    crate::order::sorted_is_an_ordered_permutation(scopes);
    let all = sorted(scopes);
    assert forall|i: int, j: int| 0 <= i < j < all.len() implies group_of(
        text_view((#[trigger] all[i]).presentation_hint),
        all[i].name@,
    ) <= group_of(text_view((#[trigger] all[j]).presentation_hint), all[j].name@) by {
        assert(all[i].le(&all[j]));
    }
}

fn nodes_of(scopes: &Vec<Scope>) -> (r: Vec<Node>)
    ensures
        nodes_view(r@) == scope_nodes(scopes@),
{
    let mut r: Vec<Node> = Vec::new();
    let ghost wanted = scope_nodes(scopes@);
    let mut i: usize = 0;
    assert(nodes_view(r@) =~= wanted.take(0));
    while i < scopes.len()
        invariant
            i <= scopes@.len(),
            wanted == scope_nodes(scopes@),
            nodes_view(r@) == wanted.take(i as int),
        decreases scopes@.len() - i,
    {
        push_node(&mut r, Node::from_scope(&scopes[i]));
        assert(wanted.take(i as int + 1) =~= wanted.take(i as int).push(wanted[i as int]));
        i += 1;
    }
    assert(wanted.take(i as int) =~= wanted);
    r
}

fn push_node(nodes: &mut Vec<Node>, node: Node)
    ensures
        nodes_view(final(nodes)@) == nodes_view(old(nodes)@).push(node@),
{
    nodes.push(node);
    assert(nodes@.drop_last() =~= old(nodes)@);
}

// ---------------------------------------------------------------------------
// Visible nodes
// ---------------------------------------------------------------------------

/// The paths of the first `n` of the nodes, each followed by those of its children
/// where they are shown.
pub open spec fn visible(nodes: Seq<NodeView>, prefix: Seq<usize>, n: nat) -> Seq<Seq<usize>>
    decreases nodes, n,
{
    if n == 0 || n > nodes.len() {
        seq![]
    } else {
        let i = n - 1;
        let path = prefix.push(i as usize);
        visible(nodes, prefix, i as nat).push(path) + (if nodes[i].expanded {
            match nodes[i].children {
                ChildrenView::Loaded(c) => visible(c, path, c.len()),
                _ => seq![],
            }
        } else {
            seq![]
        })
    }
}

pub open spec fn all_visible(nodes: Seq<NodeView>) -> Seq<Seq<usize>> {
    visible(nodes, seq![], nodes.len())
}

pub open spec fn paths_view(paths: Seq<Vec<usize>>) -> Seq<Seq<usize>> {
    paths.map_values(|p: Vec<usize>| p@)
}

fn copy_path(path: &Vec<usize>) -> (r: Vec<usize>)
    ensures
        r@ == path@,
{
    let mut r: Vec<usize> = Vec::new();
    let mut i: usize = 0;
    while i < path.len()
        invariant
            i <= path@.len(),
            r@ == path@.take(i as int),
        decreases path@.len() - i,
    {
        r.push(path[i]);
        i += 1;
        assert(r@ =~= path@.take(i as int));
    }
    assert(path@.take(i as int) =~= path@);
    r
}

fn collect_visible_paths(nodes: &Vec<Node>, prefix: &Vec<usize>, out: &mut Vec<Vec<usize>>)
    ensures
        paths_view(final(out)@) == paths_view(old(out)@) + visible(
            nodes_view(nodes@),
            prefix@,
            nodes@.len(),
        ),
    decreases nodes,
{
    let ghost all = nodes_view(nodes@);
    let ghost start = paths_view(out@);
    proof {
        lemma_nodes_view(nodes@);
    }
    let mut i: usize = 0;
    assert(paths_view(out@) =~= start + visible(all, prefix@, 0));
    while i < nodes.len()
        invariant
            i <= nodes@.len(),
            all == nodes_view(nodes@),
            all.len() == nodes@.len(),
            forall|k: int| 0 <= k < nodes@.len() ==> #[trigger] all[k] == nodes@[k]@,
            paths_view(out@) == start + visible(all, prefix@, i as nat),
        decreases nodes@.len() - i,
    {
        let ghost before = paths_view(out@);
        let ghost done = visible(all, prefix@, i as nat);
        let node = &nodes[i];
        assert(all[i as int] == node@);
        let mut path = copy_path(prefix);
        path.push(i);
        let shown = copy_path(&path);
        out.push(shown);
        assert(paths_view(out@) =~= before.push(path@));
        let ghost middle = paths_view(out@);
        if node.expanded {
            match &node.children {
                Children::Loaded(children) => {
                    proof {
                        lemma_nodes_view(children@);
                        assert(decreases_to!(*nodes => nodes@));
                        assert(decreases_to!(nodes@ => nodes@[i as int]));
                    }
                    collect_visible_paths(children, &path, out);
                },
                _ => {},
            }
        }
        assert(paths_view(out@) =~= start + visible(all, prefix@, (i + 1) as nat));
        i += 1;
    }
}

/// The node at a path.
pub open spec fn node_at(nodes: Seq<NodeView>, path: Seq<usize>) -> Option<NodeView>
    decreases path.len(),
{
    if path.len() == 0 || path[0] >= nodes.len() {
        None
    } else if path.len() == 1 {
        Some(nodes[path[0] as int])
    } else {
        match nodes[path[0] as int].children {
            ChildrenView::Loaded(c) => node_at(c, path.skip(1)),
            _ => None,
        }
    }
}

fn find_node<'a>(nodes: &'a Vec<Node>, path: &[usize]) -> (r: Option<&'a Node>)
    ensures
        match r {
            Some(n) => node_at(nodes_view(nodes@), path@) == Some(n@),
            None => node_at(nodes_view(nodes@), path@) is None,
        },
    decreases path@.len(),
{
    proof {
        lemma_nodes_view(nodes@);
    }
    if path.len() == 0 {
        return None;
    }
    let index: usize = path[0];
    if index >= nodes.len() {
        return None;
    }
    let node = &nodes[index];
    if path.len() == 1 {
        return Some(node);
    }
    match &node.children {
        Children::Loaded(children) => {
            let rest = vstd::slice::slice_subrange(path, 1, path.len());
            assert(rest@ =~= path@.skip(1));
            find_node(children, rest)
        },
        _ => None,
    }
}

/// What can change about a node.
pub enum EditView {
    Expanded(bool),
    /// Children were loaded, and are shown.
    Loaded(Seq<NodeView>),
    Failed(Seq<char>),
}

pub open spec fn edited(n: NodeView, edit: EditView) -> NodeView {
    match edit {
        EditView::Expanded(expanded) => NodeView { expanded, ..n },
        EditView::Loaded(c) => NodeView {
            children: ChildrenView::Loaded(c),
            expanded: true,
            ..n
        },
        EditView::Failed(e) => NodeView { children: ChildrenView::Failed(e), ..n },
    }
}

/// The nodes after the node at `path` changed.
pub open spec fn with_node(nodes: Seq<NodeView>, path: Seq<usize>, edit: EditView) -> Seq<NodeView>
    decreases path.len(),
{
    if path.len() == 0 || path[0] >= nodes.len() {
        nodes
    } else {
        let i = path[0] as int;
        if path.len() == 1 {
            nodes.update(i, edited(nodes[i], edit))
        } else {
            match nodes[i].children {
                ChildrenView::Loaded(c) => nodes.update(
                    i,
                    NodeView {
                        children: ChildrenView::Loaded(with_node(c, path.skip(1), edit)),
                        ..nodes[i]
                    },
                ),
                _ => nodes,
            }
        }
    }
}

/// What can change about a node.
enum Edit {
    Expanded(bool),
    Loaded(Vec<Node>),
    Failed(String),
}

spec fn edit_view(e: Edit) -> EditView {
    match e {
        Edit::Expanded(x) => EditView::Expanded(x),
        Edit::Loaded(c) => EditView::Loaded(nodes_view(c@)),
        Edit::Failed(e) => EditView::Failed(e@),
    }
}

fn edit_node(nodes: &mut Vec<Node>, path: &[usize], edit: Edit)
    ensures
        nodes_view(final(nodes)@) == with_node(nodes_view(old(nodes)@), path@, edit_view(edit)),
    decreases path@.len(),
{
    let ghost was = nodes_view(nodes@);
    proof {
        lemma_nodes_view(nodes@);
    }
    if path.len() == 0 {
        return;
    }
    let index: usize = path[0];
    if index >= nodes.len() {
        return;
    }
    let node = nodes.remove(index);
    let ghost whole = node@;
    let Node { kind, children, expanded } = node;
    let changed = if path.len() == 1 {
        match edit {
            Edit::Expanded(x) => Node { kind, children, expanded: x },
            Edit::Loaded(c) => Node { kind, children: Children::Loaded(c), expanded: true },
            Edit::Failed(e) => Node { kind, children: Children::Failed(e), expanded },
        }
    } else {
        match children {
            Children::Loaded(c) => {
                let rest = vstd::slice::slice_subrange(path, 1, path.len());
                assert(rest@ =~= path@.skip(1));
                let mut c = c;
                edit_node(&mut c, rest, edit);
                Node { kind, children: Children::Loaded(c), expanded }
            },
            other => Node { kind, children: other, expanded },
        }
    };
    nodes.insert(index, changed);
    proof {
        lemma_nodes_view(nodes@);
        assert(was[index as int] == whole);
        assert(nodes@ =~= old(nodes)@.update(index as int, changed));
        assert(nodes_view(nodes@) =~= was.update(index as int, changed@));
        assert(was.update(index as int, whole) =~= was);
    }
}

// ---------------------------------------------------------------------------
// The browser
// ---------------------------------------------------------------------------

#[derive(Debug)]
pub struct DebugVariables {
    pub debugger_id: u64,
    pub roots: Vec<Node>,
    pub visible_paths: Vec<Vec<usize>>,
    pub cursor: usize,
    pub scroll: usize,
    pub page_size: usize,
    pub viewport: (u16, u16),
    pub status: Option<String>,
    /// The frame that the scopes are of. When the active frame changes, the
    /// browser refreshes.
    pub frame_id: Option<usize>,
}

/// Rows of a page; there is always one.
pub open spec fn page(page_size: usize) -> int {
    if page_size == 0 {
        1
    } else {
        page_size as int
    }
}

/// Where the window starts so that the cursor is in it.
pub open spec fn scrolled(cursor: int, scroll: int, page: int) -> int {
    if cursor < scroll {
        cursor
    } else if cursor >= scroll + page {
        cursor + 1 - page
    } else {
        scroll
    }
}

/// The cursor is on a visible row, and in the window.
pub open spec fn in_window(v: DebugVariables) -> bool {
    &&& v.visible_paths@.len() == 0 ==> v.cursor == 0 && v.scroll == 0
    &&& v.visible_paths@.len() > 0 ==> v.cursor < v.visible_paths@.len()
    &&& v.scroll <= v.cursor < v.scroll + page(v.page_size)
}

/// The tree, and what else movements leave as it is.
pub open spec fn same_tree(a: DebugVariables, b: DebugVariables) -> bool {
    &&& a.debugger_id == b.debugger_id
    &&& a.roots == b.roots
    &&& a.visible_paths == b.visible_paths
    &&& a.page_size == b.page_size
    &&& a.viewport == b.viewport
    &&& a.frame_id == b.frame_id
}

pub open spec fn min(a: int, b: int) -> int {
    if a < b {
        a
    } else {
        b
    }
}

/// The browser after its cursor was moved to `cursor`.
pub open spec fn moved(was: DebugVariables, now: DebugVariables, cursor: int) -> bool {
    &&& same_tree(was, now)
    &&& if was.visible_paths@.len() == 0 {
        now == was
    } else {
        &&& now.cursor == cursor
        &&& now.scroll == scrolled(cursor, was.scroll as int, page(was.page_size))
        &&& now.status is None
    }
}

/// The browser after its visible rows were found once more: the cursor stays where
/// it was, or on the last row, and in the window.
pub open spec fn settled(was: DebugVariables, now: DebugVariables) -> bool {
    let count = all_visible(nodes_view(now.roots@)).len();
    &&& now.well_formed()
    &&& now.debugger_id == was.debugger_id
    &&& now.page_size == was.page_size
    &&& now.viewport == was.viewport
    &&& if count == 0 {
        now.cursor == 0 && now.scroll == 0
    } else {
        let cursor = min(was.cursor as int, count - 1);
        now.cursor == cursor && now.scroll == scrolled(
            cursor,
            was.scroll as int,
            page(was.page_size),
        )
    }
}

impl DebugVariables {
    /// The visible paths are those of the tree, and the cursor is on one of them.
    pub open spec fn well_formed(&self) -> bool {
        &&& paths_view(self.visible_paths@) == all_visible(nodes_view(self.roots@))
        &&& in_window(*self)
    }

    pub fn new(debugger_id: u64, scopes: Vec<Scope>, frame_id: Option<usize>) -> (r: DebugVariables)
        ensures
            r.well_formed(),
            r.debugger_id == debugger_id,
            nodes_view(r.roots@) == scope_nodes(sorted(scopes@)),
            r.cursor == 0,
            r.scroll == 0,
            r.page_size == 1,
            r.viewport == (0u16, 0u16),
            r.status is None,
            r.frame_id == frame_id,
    {
        let scopes = sort_scopes(scopes);
        let mut r = DebugVariables {
            debugger_id,
            roots: nodes_of(&scopes),
            visible_paths: Vec::new(),
            cursor: 0,
            scroll: 0,
            page_size: 1,
            viewport: (0, 0),
            status: None,
            frame_id,
        };
        r.refresh_visible_paths();
        r
    }

    /// The browser of a frame's scopes and the watched expressions; or why the scopes
    /// cannot be had.
    pub fn open(
        debugger_id: u64,
        frame_id: usize,
        scopes: Result<Vec<Scope>, String>,
        watches: Vec<Watch>,
    ) -> (r: Result<DebugVariables, String>)
        ensures
            match (scopes, r) {
                (Ok(scopes), Ok(v)) => {
                    &&& v.well_formed()
                    &&& v.debugger_id == debugger_id
                    &&& nodes_view(v.roots@) == with_watches(scope_nodes(sorted(scopes@)), watches@)
                    &&& v.cursor == 0
                    &&& v.scroll == 0
                    &&& v.page_size == 1
                    &&& v.viewport == (0u16, 0u16)
                    &&& v.status is None
                    &&& v.frame_id == Some(frame_id)
                },
                (Err(problem), Err(e)) => e@ == "Failed to get scopes: "@ + problem@,
                _ => false,
            },
    {
        match scopes {
            Ok(scopes) => {
                let mut r = DebugVariables::new(debugger_id, scopes, Some(frame_id));
                r.build_watch_scope(watches);
                r.refresh_visible_paths();
                Ok(r)
            },
            Err(problem) => {
                let mut e = "Failed to get scopes: ".to_owned();
                e.append(&problem);
                Err(e)
            },
        }
    }

    fn adjust_scroll(&mut self)
        ensures
            same_tree(*old(self), *final(self)),
            final(self).cursor == old(self).cursor,
            final(self).status == old(self).status,
            final(self).scroll == scrolled(
                old(self).cursor as int,
                old(self).scroll as int,
                page(old(self).page_size),
            ),
            final(self).scroll <= final(self).cursor < final(self).scroll + page(
                final(self).page_size,
            ),
    {
        let rows: usize = if self.page_size == 0 { 1 } else { self.page_size };
        if self.cursor < self.scroll {
            self.scroll = self.cursor;
        } else if self.cursor - self.scroll >= rows {
            self.scroll = self.cursor - (rows - 1);
        }
    }

    /// Finds the visible nodes once more, and keeps the cursor on one of them.
    pub fn refresh_visible_paths(&mut self)
        ensures
            settled(*old(self), *final(self)),
            final(self).roots == old(self).roots,
            final(self).status == old(self).status,
            final(self).frame_id == old(self).frame_id,
    {
        let mut paths: Vec<Vec<usize>> = Vec::new();
        let prefix: Vec<usize> = Vec::new();
        proof {
            lemma_nodes_view(self.roots@);
            assert(prefix@ =~= seq![]);
        }
        let ghost before = paths_view(paths@);
        collect_visible_paths(&self.roots, &prefix, &mut paths);
        assert(before =~= seq![]);
        assert(paths_view(paths@) =~= all_visible(nodes_view(self.roots@)));
        assert(paths_view(paths@).len() == paths@.len());
        self.visible_paths = paths;
        if self.visible_paths.len() == 0 {
            self.cursor = 0;
            self.scroll = 0;
            return;
        }
        if self.cursor > self.visible_paths.len() - 1 {
            self.cursor = self.visible_paths.len() - 1;
        }
        self.adjust_scroll();
    }

    pub fn move_up(&mut self)
        requires
            old(self).well_formed(),
        ensures
            final(self).well_formed(),
            moved(
                *old(self),
                *final(self),
                if old(self).cursor > 0 {
                    old(self).cursor - 1
                } else {
                    0
                },
            ),
    {
        if self.visible_paths.len() == 0 {
            return;
        }
        if self.cursor > 0 {
            self.cursor -= 1;
        }
        self.adjust_scroll();
        self.status = None;
    }

    pub fn move_down(&mut self)
        requires
            old(self).well_formed(),
        ensures
            final(self).well_formed(),
            moved(
                *old(self),
                *final(self),
                min(old(self).cursor + 1, old(self).visible_paths@.len() - 1),
            ),
    {
        if self.visible_paths.len() == 0 {
            return;
        }
        if self.cursor < self.visible_paths.len() - 1 {
            self.cursor += 1;
        }
        self.adjust_scroll();
        self.status = None;
    }

    pub fn move_page_up(&mut self)
        requires
            old(self).well_formed(),
        ensures
            final(self).well_formed(),
            moved(
                *old(self),
                *final(self),
                if old(self).cursor > page(old(self).page_size) {
                    old(self).cursor - page(old(self).page_size)
                } else {
                    0
                },
            ),
    {
        if self.visible_paths.len() == 0 {
            return;
        }
        let rows: usize = if self.page_size == 0 { 1 } else { self.page_size };
        self.cursor = if self.cursor > rows { self.cursor - rows } else { 0 };
        self.adjust_scroll();
        self.status = None;
    }

    pub fn move_page_down(&mut self)
        requires
            old(self).well_formed(),
        ensures
            final(self).well_formed(),
            moved(
                *old(self),
                *final(self),
                min(
                    old(self).cursor + page(old(self).page_size),
                    old(self).visible_paths@.len() - 1,
                ),
            ),
    {
        if self.visible_paths.len() == 0 {
            return;
        }
        let rows: usize = if self.page_size == 0 { 1 } else { self.page_size };
        let last: usize = self.visible_paths.len() - 1;
        self.cursor = if last - self.cursor < rows { last } else { self.cursor + rows };
        self.adjust_scroll();
        self.status = None;
    }

    pub fn move_home(&mut self)
        requires
            old(self).well_formed(),
        ensures
            final(self).well_formed(),
            moved(*old(self), *final(self), 0),
    {
        if self.visible_paths.len() == 0 {
            return;
        }
        self.cursor = 0;
        self.adjust_scroll();
        self.status = None;
    }

    pub fn move_end(&mut self)
        requires
            old(self).well_formed(),
        ensures
            final(self).well_formed(),
            moved(*old(self), *final(self), old(self).visible_paths@.len() - 1),
    {
        if self.visible_paths.len() == 0 {
            return;
        }
        self.cursor = self.visible_paths.len() - 1;
        self.adjust_scroll();
        self.status = None;
    }

    /// The window has this many rows, three of which frame the list.
    pub fn required_size(&mut self, viewport: (u16, u16))
        requires
            old(self).well_formed(),
        ensures
            final(self).well_formed(),
            final(self).viewport == viewport,
            final(self).page_size == (if viewport.1 > 3 {
                viewport.1 - 3
            } else {
                0
            }),
            final(self).debugger_id == old(self).debugger_id,
            final(self).frame_id == old(self).frame_id,
            final(self).roots == old(self).roots,
            final(self).visible_paths == old(self).visible_paths,
            final(self).cursor == old(self).cursor,
            final(self).status == old(self).status,
            final(self).scroll == scrolled(
                old(self).cursor as int,
                old(self).scroll as int,
                page(final(self).page_size),
            ),
    {
        self.viewport = viewport;
        self.page_size = if viewport.1 > 3 { (viewport.1 - 3) as usize } else { 0 };
        self.adjust_scroll();
    }

    /// The rows of the list changed.
    pub fn resize(&mut self, rows: usize)
        requires
            old(self).well_formed(),
        ensures
            final(self).well_formed(),
            final(self).page_size == rows,
            final(self).viewport == old(self).viewport,
            final(self).debugger_id == old(self).debugger_id,
            final(self).frame_id == old(self).frame_id,
            final(self).roots == old(self).roots,
            final(self).visible_paths == old(self).visible_paths,
            final(self).cursor == old(self).cursor,
            final(self).status == old(self).status,
            final(self).scroll == scrolled(
                old(self).cursor as int,
                old(self).scroll as int,
                page(rows),
            ),
    {
        self.page_size = rows;
        self.adjust_scroll();
    }

    pub fn node(&self, path: &[usize]) -> (r: Option<&Node>)
        ensures
            match r {
                Some(n) => node_at(nodes_view(self.roots@), path@) == Some(n@),
                None => node_at(nodes_view(self.roots@), path@) is None,
            },
    {
        find_node(&self.roots, path)
    }

    pub fn selected_path(&self) -> (r: Option<Vec<usize>>)
        ensures
            match r {
                Some(p) => self.cursor < self.visible_paths@.len() && p@
                    == self.visible_paths@[self.cursor as int]@,
                None => self.cursor >= self.visible_paths@.len(),
            },
    {
        if self.cursor < self.visible_paths.len() {
            Some(copy_path(&self.visible_paths[self.cursor]))
        } else {
            None
        }
    }
}

// ---------------------------------------------------------------------------
// Visible paths name nodes
// ---------------------------------------------------------------------------

/// The first `n` nodes have no more children than can be counted.
pub open spec fn sized(nodes: Seq<NodeView>, n: nat) -> bool
    decreases nodes, n,
{
    if n == 0 || n > nodes.len() {
        true
    } else {
        sized(nodes, (n - 1) as nat) && match nodes[n - 1].children {
            ChildrenView::Loaded(c) => c.len() <= usize::MAX && sized(c, c.len()),
            _ => true,
        }
    }
}

proof fn lemma_sized(nodes: Seq<Node>, n: nat)
    requires
        n <= nodes.len(),
    ensures
        sized(nodes_view(nodes), n),
    decreases nodes, n,
{
    lemma_nodes_view(nodes);
    if n > 0 {
        lemma_sized(nodes, (n - 1) as nat);
        let node = nodes[n - 1];
        assert(nodes_view(nodes)[n - 1] == node@);
        match node.children {
            Children::Loaded(c) => {
                assert(c.len() <= usize::MAX);
                lemma_nodes_view(c@);
                lemma_sized(c@, c@.len());
            },
            _ => {},
        }
    }
}

proof fn lemma_visible(nodes: Seq<NodeView>, prefix: Seq<usize>, n: nat)
    requires
        n <= nodes.len() <= usize::MAX,
        sized(nodes, n),
    ensures
        forall|k: int|
            0 <= k < visible(nodes, prefix, n).len() ==> {
                let p = #[trigger] visible(nodes, prefix, n)[k];
                &&& p.len() > prefix.len()
                &&& p.take(prefix.len() as int) == prefix
                &&& node_at(nodes, p.skip(prefix.len() as int)) is Some
            },
    decreases nodes, n,
{
    if n > 0 {
        let i = n - 1;
        let m = prefix.len() as int;
        let path = prefix.push(i as usize);
        let before = visible(nodes, prefix, i as nat);
        let all = visible(nodes, prefix, n);
        lemma_visible(nodes, prefix, i as nat);
        match nodes[i].children {
            ChildrenView::Loaded(c) => {
                lemma_visible(c, path, c.len());
            },
            _ => {},
        }
        assert forall|k: int| 0 <= k < all.len() implies {
            let p = #[trigger] all[k];
            &&& p.len() > prefix.len()
            &&& p.take(m) == prefix
            &&& node_at(nodes, p.skip(m)) is Some
        } by {
            let p = all[k];
            if k < before.len() {
                assert(p == before[k]);
            } else if k == before.len() {
                assert(p == path);
                assert(p.take(m) =~= prefix);
                assert(p.skip(m) =~= seq![i as usize]);
            } else {
                let c = nodes[i].children->Loaded_0;
                let below = visible(c, path, c.len());
                assert(p == below[k - before.len() - 1]);
                assert(p.take(m) =~= p.take(m + 1).take(m));
                assert(path.take(m) =~= prefix);
                assert(p[m] == p.take(m + 1)[m]);
                let q = p.skip(m);
                assert(q[0] == i as usize);
                assert(q.skip(1) =~= p.skip(m + 1));
            }
        }
    }
}

/// Every visible path names a node of the tree.
pub proof fn visible_paths_name_nodes(v: DebugVariables, k: int)
    requires
        v.well_formed(),
        0 <= k < v.visible_paths@.len(),
    ensures
        node_at(nodes_view(v.roots@), v.visible_paths@[k]@) is Some,
{
    let nodes = nodes_view(v.roots@);
    assert(v.roots.len() <= usize::MAX);
    lemma_nodes_view(v.roots@);
    lemma_sized(v.roots@, v.roots@.len());
    lemma_visible(nodes, seq![], nodes.len());
    let p = paths_view(v.visible_paths@)[k];
    assert(p == all_visible(nodes)[k]);
    assert(p == v.visible_paths@[k]@);
    assert(p.skip(0) =~= p);
}

proof fn lemma_failed_is_hidden(
    nodes: Seq<NodeView>,
    path: Seq<usize>,
    error: Seq<char>,
    prefix: Seq<usize>,
    n: nat,
)
    requires
        node_at(nodes, path) matches Some(x) && x.children is Unloaded,
        n <= nodes.len(),
    ensures
        visible(with_node(nodes, path, EditView::Failed(error)), prefix, n) == visible(
            nodes,
            prefix,
            n,
        ),
        with_node(nodes, path, EditView::Failed(error)).len() == nodes.len(),
    decreases nodes, n,
{
    let after = with_node(nodes, path, EditView::Failed(error));
    if n > 0 {
        let i = n - 1;
        lemma_failed_is_hidden(nodes, path, error, prefix, i as nat);
        if path[0] == i && path.len() > 1 {
            let c = nodes[i].children->Loaded_0;
            lemma_failed_is_hidden(c, path.skip(1), error, prefix.push(i as usize), c.len());
        }
    }
}

/// Children that cannot be loaded change nothing of the visible rows.
pub proof fn failed_loads_keep_the_rows(nodes: Seq<NodeView>, path: Seq<usize>, error: Seq<char>)
    requires
        node_at(nodes, path) matches Some(x) && x.children is Unloaded,
    ensures
        all_visible(with_node(nodes, path, EditView::Failed(error))) == all_visible(nodes),
{
    lemma_failed_is_hidden(nodes, path, error, seq![], nodes.len());
}

// ---------------------------------------------------------------------------
// Expanding and collapsing
// ---------------------------------------------------------------------------

/// What expanding a node takes.
#[derive(Debug)]
pub enum Expansion {
    /// Nothing more.
    Done,
    /// Its children are to be fetched.
    Load { path: Vec<usize>, reference: usize, indexed: Option<usize> },
}

/// The browser after the node at `path` was asked to expand.
pub open spec fn expanding(was: DebugVariables, now: DebugVariables, path: Seq<usize>) -> bool {
    let nodes = nodes_view(was.roots@);
    match node_at(nodes, path) {
        Some(n) => if reference_of(n) != 0 && !(n.children is Unloaded) {
            nodes_view(now.roots@) == with_node(nodes, path, EditView::Expanded(true))
                && now.status is None
        } else {
            now.roots == was.roots && now.status == was.status
        },
        None => now.roots == was.roots && now.status == was.status,
    }
}

/// What is left to be done to expand the node at `path`.
pub open spec fn to_load(was: DebugVariables, path: Seq<usize>, r: Expansion) -> bool {
    match (node_at(nodes_view(was.roots@), path), r) {
        (Some(n), Expansion::Load { path: p, reference, indexed }) => reference_of(n) != 0
            && n.children is Unloaded && p@ == path && reference == reference_of(n) && indexed
            == indexed_of(n),
        (Some(n), Expansion::Done) => !(reference_of(n) != 0 && n.children is Unloaded),
        (None, Expansion::Done) => true,
        _ => false,
    }
}

impl DebugVariables {
    /// Expands the node at `path`, if it has children; those that were not
    /// fetched yet are asked for.
    pub fn expand_path(&mut self, path: &Vec<usize>) -> (r: Expansion)
        ensures
            settled(*old(self), *final(self)),
            final(self).frame_id == old(self).frame_id,
            expanding(*old(self), *final(self), path@),
            to_load(*old(self), path@, r),
    {
        let step: Option<Expansion> = match self.node(path) {
            None => Some(Expansion::Done),
            Some(node) => {
                if !node.is_expandable() {
                    Some(Expansion::Done)
                } else if node.is_loaded() {
                    None
                } else {
                    Some(
                        Expansion::Load {
                            path: copy_path(path),
                            reference: node.variables_reference(),
                            indexed: node.indexed_variables(),
                        },
                    )
                }
            },
        };
        match step {
            Some(r) => {
                self.refresh_visible_paths();
                r
            },
            None => {
                edit_node(&mut self.roots, path, Edit::Expanded(true));
                self.status = None;
                self.refresh_visible_paths();
                Expansion::Done
            },
        }
    }

    /// Expands the selected node.
    pub fn expand_selected(&mut self) -> (r: Expansion)
        requires
            old(self).well_formed(),
        ensures
            settled(*old(self), *final(self)),
            final(self).frame_id == old(self).frame_id,
            if old(self).visible_paths@.len() == 0 {
                r is Done && *final(self) == *old(self)
            } else {
                let path = old(self).visible_paths@[old(self).cursor as int]@;
                expanding(*old(self), *final(self), path) && to_load(*old(self), path, r)
            },
    {
        match self.selected_path() {
            Some(path) => self.expand_path(&path),
            None => Expansion::Done,
        }
    }

    /// Children arrived for the node at `path`, or did not. Answers what is to be
    /// reported.
    pub fn take_children(&mut self, path: &Vec<usize>, children: Result<Vec<Node>, String>) -> (r:
        Option<String>)
        ensures
            settled(*old(self), *final(self)),
            final(self).frame_id == old(self).frame_id,
            nodes_view(final(self).roots@) == with_node(
                nodes_view(old(self).roots@),
                path@,
                match children {
                    Ok(c) => EditView::Loaded(nodes_view(c@)),
                    Err(e) => EditView::Failed(e@),
                },
            ),
            text_view(final(self).status) == (match children {
                Ok(_) => None,
                Err(e) => Some(e@),
            }),
            text_view(r) == text_view(final(self).status),
    {
        match children {
            Ok(c) => {
                edit_node(&mut self.roots, path, Edit::Loaded(c));
                self.status = None;
                self.refresh_visible_paths();
                None
            },
            Err(e) => {
                edit_node(&mut self.roots, path, Edit::Failed(e.clone()));
                self.status = Some(e.clone());
                self.refresh_visible_paths();
                Some(e)
            },
        }
    }

    /// Collapses the selected node, or goes to its parent.
    pub fn collapse_selected(&mut self)
        requires
            old(self).well_formed(),
        ensures
            final(self).well_formed(),
            final(self).debugger_id == old(self).debugger_id,
            final(self).page_size == old(self).page_size,
            final(self).viewport == old(self).viewport,
            final(self).frame_id == old(self).frame_id,
            if old(self).visible_paths@.len() == 0 {
                *final(self) == *old(self)
            } else {
                let nodes = nodes_view(old(self).roots@);
                let path = old(self).visible_paths@[old(self).cursor as int]@;
                let open = node_at(nodes, path) matches Some(n) && n.expanded;
                let parent = first_path(paths_view(old(self).visible_paths@), path.drop_last(), 0);
                if open {
                    &&& nodes_view(final(self).roots@) == with_node(
                        nodes,
                        path,
                        EditView::Expanded(false),
                    )
                    &&& settled(*old(self), *final(self))
                    &&& final(self).status is None
                } else if path.len() <= 1 || parent is None {
                    *final(self) == *old(self)
                } else {
                    moved(*old(self), *final(self), parent->0)
                }
            },
    {
        let path = match self.selected_path() {
            Some(path) => path,
            None => return,
        };
        let open = match self.node(&path) {
            Some(node) => node.expanded,
            None => false,
        };
        if open {
            edit_node(&mut self.roots, &path, Edit::Expanded(false));
            self.refresh_visible_paths();
            self.status = None;
            return;
        }
        if path.len() <= 1 {
            return;
        }
        let mut parent = path;
        let _last = parent.pop();
        assert(parent@ =~= path@.drop_last());
        match find_path(&self.visible_paths, &parent) {
            Some(i) => {
                self.cursor = i;
                self.adjust_scroll();
                self.status = None;
            },
            None => {},
        }
    }

    /// The node that is expanded first: the local variables, else the first scope.
    pub fn initial_path(&self) -> (r: Option<Vec<usize>>)
        ensures
            match r {
                Some(p) => self.roots@.len() > 0 && p@ == seq![
                    first_local(nodes_view(self.roots@), 0) as usize,
                ],
                None => self.roots@.len() == 0,
            },
    {
        proof {
            lemma_nodes_view(self.roots@);
        }
        let ghost nodes = nodes_view(self.roots@);
        if self.roots.len() == 0 {
            return None;
        }
        let mut path: Vec<usize> = Vec::new();
        let mut i: usize = 0;
        while i < self.roots.len()
            invariant
                i <= self.roots@.len(),
                self.roots@.len() > 0,
                path@.len() == 0,
                nodes == nodes_view(self.roots@),
                nodes.len() == self.roots@.len(),
                forall|k: int| 0 <= k < nodes.len() ==> #[trigger] nodes[k] == self.roots@[k]@,
                first_local(nodes, 0) == first_local(nodes, i as int),
            decreases self.roots@.len() - i,
        {
            if self.roots[i].is_local_scope() {
                path.push(i);
                assert(path@ =~= seq![i]);
                return Some(path);
            }
            i += 1;
        }
        path.push(0);
        assert(path@ =~= seq![0]);
        Some(path)
    }

    /// Expands the local variables, else the first scope.
    pub fn expand_initial(&mut self) -> (r: Expansion)
        ensures
            final(self).frame_id == old(self).frame_id,
            if old(self).roots@.len() == 0 {
                *final(self) == *old(self) && r is Done
            } else {
                let path = seq![first_local(nodes_view(old(self).roots@), 0) as usize];
                &&& settled(*old(self), *final(self))
                &&& expanding(*old(self), *final(self), path)
                &&& to_load(*old(self), path, r)
            },
    {
        match self.initial_path() {
            Some(path) => self.expand_path(&path),
            None => Expansion::Done,
        }
    }

    /// Whether the active frame is another one by now.
    pub fn needs_refresh(&self, current: Option<usize>) -> (r: Option<usize>)
        ensures
            r == (if current == self.frame_id {
                None
            } else {
                current
            }),
    {
        match (current, self.frame_id) {
            (Some(a), Some(b)) => if a == b {
                None
            } else {
                Some(a)
            },
            (Some(a), None) => Some(a),
            (None, _) => None,
        }
    }

    /// The footer: what went wrong, or how the browser is used.
    pub fn footer_text(&self) -> (r: &str)
        ensures
            r@ == (match self.status {
                Some(s) => s@,
                None => HELP@,
            }),
    {
        match &self.status {
            Some(s) => s,
            None => HELP,
        }
    }
}

pub const TITLE: &'static str = " Debug Variables ";

pub const HELP: &'static str = "up/down move | right expand | left collapse | esc close";

pub const EMPTY: &'static str = "No variables available for the current frame.";

/// The first local scope from index `i` on; the first node if there is none.
pub open spec fn first_local(nodes: Seq<NodeView>, i: int) -> int
    decreases nodes.len() - i,
{
    if i < 0 || i >= nodes.len() {
        0
    } else if is_local(nodes[i]) {
        i
    } else {
        first_local(nodes, i + 1)
    }
}

/// The first index of `path` from index `i` on.
pub open spec fn first_path(paths: Seq<Seq<usize>>, path: Seq<usize>, i: int) -> Option<int>
    decreases paths.len() - i,
{
    if i < 0 || i >= paths.len() {
        None
    } else if paths[i] == path {
        Some(i)
    } else {
        first_path(paths, path, i + 1)
    }
}

fn same_path(a: &Vec<usize>, b: &Vec<usize>) -> (r: bool)
    ensures
        r == (a@ == b@),
{
    if a.len() != b.len() {
        return false;
    }
    let mut i: usize = 0;
    while i < a.len()
        invariant
            i <= a@.len(),
            a@.len() == b@.len(),
            forall|k: int| 0 <= k < i ==> #[trigger] a@[k] == b@[k],
        decreases a@.len() - i,
    {
        if a[i] != b[i] {
            return false;
        }
        i += 1;
    }
    assert(a@ =~= b@);
    true
}

fn find_path(paths: &Vec<Vec<usize>>, path: &Vec<usize>) -> (r: Option<usize>)
    ensures
        match r {
            Some(i) => i < paths@.len() && first_path(paths_view(paths@), path@, 0) == Some(
                i as int,
            ),
            None => first_path(paths_view(paths@), path@, 0) is None,
        },
{
    let ghost all = paths_view(paths@);
    let mut i: usize = 0;
    while i < paths.len()
        invariant
            i <= paths@.len(),
            all == paths_view(paths@),
            first_path(all, path@, 0) == first_path(all, path@, i as int),
        decreases paths@.len() - i,
    {
        assert(all[i as int] == paths@[i as int]@);
        if same_path(&paths[i], path) {
            return Some(i);
        }
        i += 1;
    }
    None
}

// ---------------------------------------------------------------------------
// Children
// ---------------------------------------------------------------------------

pub open spec fn variable_nodes(variables: Seq<Variable>) -> Seq<NodeView> {
    variables.map_values(|v: Variable| variable_node(v))
}

fn variables_nodes(variables: &Vec<Variable>) -> (r: Vec<Node>)
    ensures
        nodes_view(r@) == variable_nodes(variables@),
{
    let mut r: Vec<Node> = Vec::new();
    let ghost wanted = variable_nodes(variables@);
    let mut i: usize = 0;
    assert(nodes_view(r@) =~= wanted.take(0));
    while i < variables.len()
        invariant
            i <= variables@.len(),
            wanted == variable_nodes(variables@),
            nodes_view(r@) == wanted.take(i as int),
        decreases variables@.len() - i,
    {
        push_node(&mut r, Node::from_variable(&variables[i]));
        assert(wanted.take(i as int + 1) =~= wanted.take(i as int).push(wanted[i as int]));
        i += 1;
    }
    assert(wanted.take(i as int) =~= wanted);
    r
}

fn one_node(node: Node) -> (r: Vec<Node>)
    ensures
        nodes_view(r@) == seq![node@],
{
    let mut r: Vec<Node> = Vec::new();
    assert(nodes_view(r@) =~= seq![]);
    push_node(&mut r, node);
    assert(nodes_view(r@) =~= seq![node@]);
    r
}

/// What a debugger answered when it was asked for the children of a variable.
#[derive(Debug)]
pub enum Answer {
    /// The session ended before.
    Ended,
    /// The children are bytes that say something.
    Decoded(DecodedBytes),
    Variables(Vec<Variable>),
    Failed(String),
}

/// The children of a variable: what they say together where they are bytes, else
/// one node for each.
pub fn load_children(answer: Answer) -> (r: Result<Vec<Node>, String>)
    ensures
        match (answer, r) {
            (Answer::Ended, Err(e)) => e@ == "Debugger session ended."@,
            (Answer::Decoded(d), Ok(nodes)) => nodes_view(nodes@) == seq![decoded_node(d@)],
            (Answer::Variables(v), Ok(nodes)) => nodes_view(nodes@) == variable_nodes(v@),
            (Answer::Failed(error), Err(e)) => e@ == "Failed to load variables: "@ + error@,
            _ => false,
        },
{
    match answer {
        Answer::Ended => Err("Debugger session ended.".to_owned()),
        Answer::Decoded(d) => Ok(one_node(Node::from_decoded_bytes(&d))),
        Answer::Variables(v) => Ok(variables_nodes(&v)),
        Answer::Failed(error) => {
            let mut e = "Failed to load variables: ".to_owned();
            e.append(&error);
            Err(e)
        },
    }
}

// ---------------------------------------------------------------------------
// Watched expressions
// ---------------------------------------------------------------------------

/// The value of an expression.
#[derive(Debug)]
pub struct Evaluation {
    pub result: String,
    pub ty: Option<String>,
    pub variables_reference: usize,
    pub indexed_variables: Option<usize>,
    /// What its elements say, where they were fetched page by page.
    pub decoded: Option<DecodedBytes>,
    /// Its children, where they were fetched at once.
    pub variables: Option<Vec<Variable>>,
}

/// An expression that is evaluated whenever the program stops.
#[derive(Debug)]
pub struct Watch {
    pub expression: String,
    pub outcome: Result<Evaluation, String>,
}

/// What the value of an expression says as bytes.
pub open spec fn bytes_said(e: Evaluation) -> Option<DecodedView> {
    if e.variables_reference == 0 {
        None
    } else {
        match decoded_view(e.decoded) {
            Some(d) => Some(d),
            None => match e.variables {
                Some(v) => collection_shown(v@),
                None => None,
            },
        }
    }
}

pub open spec fn watch_node(w: Watch) -> NodeView {
    match w.outcome {
        Ok(e) => {
            let bytes = bytes_said(e);
            NodeView {
                kind: KindView::Variable {
                    name: w.expression@,
                    value: match bytes {
                        Some(d) => inline_text(d.inline),
                        None => inline_text(e.result@),
                    },
                    ty: inline_option(e.ty),
                    variables_reference: e.variables_reference,
                    indexed_variables: e.indexed_variables,
                },
                children: match bytes {
                    Some(d) => ChildrenView::Loaded(seq![decoded_node(d)]),
                    None => first_children(e.variables_reference),
                },
                expanded: false,
            }
        },
        Err(error) => NodeView {
            kind: KindView::Variable {
                name: w.expression@,
                value: "<"@ + error@ + ">"@,
                ty: None,
                variables_reference: 0,
                indexed_variables: None,
            },
            children: ChildrenView::Loaded(seq![]),
            expanded: false,
        },
    }
}

fn watched(w: Watch) -> (r: Node)
    ensures
        r@ == watch_node(w),
{
    let Watch { expression, outcome } = w;
    match outcome {
        Ok(e) => {
            let bytes = if e.variables_reference == 0 {
                None
            } else {
                match e.decoded {
                    Some(d) => Some(d),
                    None => match &e.variables {
                        Some(v) => decode_byte_collection(v),
                        None => None,
                    },
                }
            };
            assert(decoded_view(bytes) == bytes_said(w.outcome->Ok_0));
            match bytes {
                Some(d) => {
                    let value = sanitize_inline(&d.inline);
                    Node {
                        kind: NodeKind::Variable {
                            name: expression,
                            value,
                            ty: sanitize_option(&e.ty),
                            variables_reference: e.variables_reference,
                            indexed_variables: e.indexed_variables,
                        },
                        children: Children::Loaded(one_node(Node::from_decoded_bytes(&d))),
                        expanded: false,
                    }
                },
                None => Node {
                    kind: NodeKind::Variable {
                        name: expression,
                        value: sanitize_inline(&e.result),
                        ty: sanitize_option(&e.ty),
                        variables_reference: e.variables_reference,
                        indexed_variables: e.indexed_variables,
                    },
                    children: new_children(e.variables_reference),
                    expanded: false,
                },
            }
        },
        Err(error) => {
            let mut value = "<".to_owned();
            value.append(&error);
            value.append(">");
            Node {
                kind: NodeKind::Variable {
                    name: expression,
                    value,
                    ty: None,
                    variables_reference: 0,
                    indexed_variables: None,
                },
                children: new_children(0),
                expanded: false,
            }
        },
    }
}

pub open spec fn watch_nodes(watches: Seq<Watch>) -> Seq<NodeView> {
    watches.map_values(|w: Watch| watch_node(w))
}

/// The scope of the watched expressions.
pub open spec fn watch_scope(watches: Seq<Watch>) -> NodeView {
    NodeView {
        kind: KindView::Scope {
            name: "Watch"@,
            presentation_hint: Some("watch"@),
            expensive: false,
            variables_reference: 0,
        },
        children: ChildrenView::Loaded(watch_nodes(watches)),
        expanded: true,
    }
}

/// The roots with the watched expressions before them, if there are any.
pub open spec fn with_watches(roots: Seq<NodeView>, watches: Seq<Watch>) -> Seq<NodeView> {
    if watches.len() == 0 {
        roots
    } else {
        seq![watch_scope(watches)] + roots
    }
}

impl DebugVariables {
    /// Puts a scope with the watched expressions before the others.
    pub fn build_watch_scope(&mut self, watches: Vec<Watch>)
        ensures
            nodes_view(final(self).roots@) == with_watches(
                nodes_view(old(self).roots@),
                watches@,
            ),
            final(self).debugger_id == old(self).debugger_id,
            final(self).visible_paths == old(self).visible_paths,
            final(self).cursor == old(self).cursor,
            final(self).scroll == old(self).scroll,
            final(self).page_size == old(self).page_size,
            final(self).viewport == old(self).viewport,
            final(self).status == old(self).status,
            final(self).frame_id == old(self).frame_id,
    {
        if watches.len() == 0 {
            return;
        }
        let ghost given = watches@;
        let ghost wanted = watch_nodes(given);
        let mut rest = watches;
        let mut children: Vec<Node> = Vec::new();
        proof {
            assert(given.take(given.len() as int) =~= given);
            assert(wanted.skip(given.len() as int) =~= seq![]);
            assert(nodes_view(children@) =~= seq![]);
        }
        while rest.len() > 0
            invariant
                rest@.len() <= given.len(),
                wanted == watch_nodes(given),
                rest@ == given.take(rest@.len() as int),
                nodes_view(children@) == wanted.skip(rest@.len() as int),
            decreases rest@.len(),
        {
            let ghost n = rest@.len() as int;
            let ghost before = children@;
            match rest.pop() {
                Some(w) => {
                    assert(w == given[n - 1]);
                    assert(rest@ =~= given.take(n - 1));
                    let node = watched(w);
                    children.insert(0, node);
                    proof {
                        lemma_nodes_view(before);
                        lemma_nodes_view(children@);
                        assert(wanted.skip(n - 1) =~= seq![wanted[n - 1]] + wanted.skip(n));
                        assert(nodes_view(children@) =~= seq![node@] + nodes_view(before));
                    }
                },
                None => {},
            }
        }
        assert(wanted.skip(0) =~= wanted);
        let scope = Node {
            kind: NodeKind::Scope {
                name: "Watch".to_owned(),
                presentation_hint: Some("watch".to_owned()),
                expensive: false,
                variables_reference: 0,
            },
            children: Children::Loaded(children),
            expanded: true,
        };
        let ghost was = self.roots@;
        self.roots.insert(0, scope);
        proof {
            lemma_nodes_view(was);
            lemma_nodes_view(self.roots@);
            assert(nodes_view(self.roots@) =~= seq![scope@] + nodes_view(was));
        }
    }

    /// The program stopped in another frame: shows the scopes of that one. Answers
    /// the names of what was expanded before.
    pub fn reframe(&mut self, frame_id: usize, scopes: Vec<Scope>, watches: Vec<Watch>) -> (r: Vec<
        Vec<String>,
    >)
        ensures
            settled(*old(self), *final(self)),
            nodes_view(final(self).roots@) == with_watches(
                scope_nodes(sorted(scopes@)),
                watches@,
            ),
            final(self).frame_id == Some(frame_id),
            final(self).status is None,
            names_view(r@) == all_expanded(nodes_view(old(self).roots@)),
    {
        let names = self.collect_expanded_names();
        let scopes = sort_scopes(scopes);
        self.roots = nodes_of(&scopes);
        self.frame_id = Some(frame_id);
        self.build_watch_scope(watches);
        self.status = None;
        self.refresh_visible_paths();
        names
    }

    /// The nodes of the new frame were expanded: what could not be fetched on the way
    /// is not reported any more.
    pub fn finish_refresh(&mut self)
        ensures
            same_tree(*old(self), *final(self)),
            final(self).cursor == old(self).cursor,
            final(self).scroll == old(self).scroll,
            final(self).status is None,
    {
        self.status = None;
    }

    /// The names of all expanded nodes, each with those of the nodes above it.
    pub fn collect_expanded_names(&self) -> (r: Vec<Vec<String>>)
        ensures
            names_view(r@) == all_expanded(nodes_view(self.roots@)),
    {
        let mut r: Vec<Vec<String>> = Vec::new();
        let prefix: Vec<String> = Vec::new();
        proof {
            lemma_nodes_view(self.roots@);
        }
        let ghost before = names_view(r@);
        assert(before =~= seq![]);
        assert(views(prefix@) =~= seq![]);
        collect_names(&self.roots, &prefix, &mut r);
        assert(names_view(r@) =~= all_expanded(nodes_view(self.roots@)));
        r
    }

    /// The children of the scope at `scope_path` that were expanded before under
    /// their names.
    pub fn restore_expanded(&self, names: &Vec<Vec<String>>, scope_path: &Vec<usize>) -> (r: Vec<
        Vec<usize>,
    >)
        ensures
            paths_view(r@) == (match node_at(nodes_view(self.roots@), scope_path@) {
                Some(n) => match n.children {
                    ChildrenView::Loaded(c) => restored(
                        c,
                        names_view(names@),
                        scope_path@,
                        c.len(),
                    ),
                    _ => seq![],
                },
                None => seq![],
            }),
    {
        let mut r: Vec<Vec<usize>> = Vec::new();
        assert(paths_view(r@) =~= seq![]);
        let node = match self.node(scope_path) {
            Some(node) => node,
            None => return r,
        };
        match &node.children {
            Children::Loaded(children) => {
                let ghost c = nodes_view(children@);
                proof {
                    lemma_nodes_view(children@);
                }
                let mut i: usize = 0;
                while i < children.len()
                    invariant
                        i <= children@.len(),
                        c == nodes_view(children@),
                        c.len() == children@.len(),
                        forall|k: int| 0 <= k < c.len() ==> #[trigger] c[k] == children@[k]@,
                        paths_view(r@) == restored(
                            c,
                            names_view(names@),
                            scope_path@,
                            i as nat,
                        ),
                    decreases children@.len() - i,
                {
                    let ghost before = paths_view(r@);
                    let child = &children[i];
                    assert(c[i as int] == child@);
                    if child.is_expandable() && was_expanded(names, child.display_name()) {
                        let mut path = copy_path(scope_path);
                        path.push(i);
                        r.push(path);
                        assert(paths_view(r@) =~= before.push(path@));
                    }
                    i += 1;
                }
            },
            _ => {},
        }
        r
    }
}

/// The names of the expanded among the first `n` nodes, each with those of the
/// nodes above it, and followed by those below it.
pub open spec fn expanded_names(nodes: Seq<NodeView>, prefix: Seq<Seq<char>>, n: nat) -> Seq<
    Seq<Seq<char>>,
>
    decreases nodes, n,
{
    if n == 0 || n > nodes.len() {
        seq![]
    } else {
        let before = expanded_names(nodes, prefix, (n - 1) as nat);
        let node = nodes[n - 1];
        let path = prefix.push(name_of(node));
        if node.expanded {
            before.push(path) + (match node.children {
                ChildrenView::Loaded(c) => expanded_names(c, path, c.len()),
                _ => seq![],
            })
        } else {
            before
        }
    }
}

pub open spec fn all_expanded(nodes: Seq<NodeView>) -> Seq<Seq<Seq<char>>> {
    expanded_names(nodes, seq![], nodes.len())
}

pub open spec fn names_view(names: Seq<Vec<String>>) -> Seq<Seq<Seq<char>>> {
    names.map_values(|n: Vec<String>| views(n@))
}

fn copy_names(names: &Vec<String>) -> (r: Vec<String>)
    ensures
        views(r@) == views(names@),
{
    let mut r: Vec<String> = Vec::new();
    let mut i: usize = 0;
    while i < names.len()
        invariant
            i <= names@.len(),
            views(r@) == views(names@).take(i as int),
        decreases names@.len() - i,
    {
        let ghost before = views(r@);
        r.push(names[i].clone());
        assert(views(r@) =~= before.push(names@[i as int]@));
        i += 1;
        assert(views(r@) =~= views(names@).take(i as int));
    }
    assert(views(names@).take(i as int) =~= views(names@));
    r
}

fn collect_names(nodes: &Vec<Node>, prefix: &Vec<String>, out: &mut Vec<Vec<String>>)
    ensures
        names_view(final(out)@) == names_view(old(out)@) + expanded_names(
            nodes_view(nodes@),
            views(prefix@),
            nodes@.len(),
        ),
    decreases nodes,
{
    let ghost all = nodes_view(nodes@);
    let ghost start = names_view(out@);
    proof {
        lemma_nodes_view(nodes@);
    }
    let mut i: usize = 0;
    assert(names_view(out@) =~= start + expanded_names(all, views(prefix@), 0));
    while i < nodes.len()
        invariant
            i <= nodes@.len(),
            all == nodes_view(nodes@),
            all.len() == nodes@.len(),
            forall|k: int| 0 <= k < nodes@.len() ==> #[trigger] all[k] == nodes@[k]@,
            names_view(out@) == start + expanded_names(all, views(prefix@), i as nat),
        decreases nodes@.len() - i,
    {
        let ghost before = names_view(out@);
        let node = &nodes[i];
        assert(all[i as int] == node@);
        if node.expanded {
            let mut path = copy_names(prefix);
            path.push(node.display_name().to_owned());
            assert(views(path@) =~= views(prefix@).push(name_of(node@)));
            let shown = copy_names(&path);
            out.push(shown);
            assert(names_view(out@) =~= before.push(views(path@)));
            match &node.children {
                Children::Loaded(children) => {
                    proof {
                        lemma_nodes_view(children@);
                        assert(decreases_to!(*nodes => nodes@));
                        assert(decreases_to!(nodes@ => nodes@[i as int]));
                    }
                    collect_names(children, &path, out);
                },
                _ => {},
            }
        }
        assert(names_view(out@) =~= start + expanded_names(all, views(prefix@), (i + 1) as nat));
        i += 1;
    }
}

/// A node named so was expanded directly below a scope.
pub open spec fn known(names: Seq<Seq<Seq<char>>>, name: Seq<char>) -> bool {
    exists|i: int| 0 <= i < names.len() && (#[trigger] names[i]).len() >= 2 && names[i][1] == name
}

fn was_expanded(names: &Vec<Vec<String>>, name: &str) -> (r: bool)
    ensures
        r == known(names_view(names@), name@),
{
    let ghost all = names_view(names@);
    let mut i: usize = 0;
    while i < names.len()
        invariant
            i <= names@.len(),
            all == names_view(names@),
            forall|k: int|
                0 <= k < i ==> !((#[trigger] all[k]).len() >= 2 && all[k][1] == name@),
        decreases names@.len() - i,
    {
        assert(all[i as int] == views(names@[i as int]@));
        if names[i].len() >= 2 && same(&names[i][1], name) {
            assert(all[i as int].len() >= 2 && all[i as int][1] == name@);
            return true;
        }
        i += 1;
    }
    false
}

/// The paths of those among the first `n` children that are expanded once more.
pub open spec fn restored(
    children: Seq<NodeView>,
    names: Seq<Seq<Seq<char>>>,
    scope_path: Seq<usize>,
    n: nat,
) -> Seq<Seq<usize>>
    decreases n,
{
    if n == 0 || n > children.len() {
        seq![]
    } else {
        let before = restored(children, names, scope_path, (n - 1) as nat);
        let child = children[n - 1];
        if reference_of(child) != 0 && known(names, name_of(child)) {
            before.push(scope_path.push((n - 1) as usize))
        } else {
            before
        }
    }
}

// ---------------------------------------------------------------------------
// Rows on the screen
// ---------------------------------------------------------------------------

#[derive(Clone, Copy, Debug, PartialEq, Eq, Structural)]
pub enum Style {
    Plain,
    Type,
    Scope,
    Name,
    Value,
}

/// A piece of a row.
#[derive(Debug)]
pub struct Segment {
    pub text: String,
    pub style: Style,
}

pub open spec fn segments_view(segments: Seq<Segment>) -> Seq<(Seq<char>, Style)> {
    segments.map_values(|s: Segment| (s.text@, s.style))
}

pub open spec fn marker(n: NodeView) -> Seq<char> {
    if reference_of(n) != 0 {
        if n.expanded {
            "v "@
        } else {
            "> "@
        }
    } else {
        "  "@
    }
}

pub open spec fn failure_segments(n: NodeView) -> Seq<(Seq<char>, Style)> {
    match n.children {
        ChildrenView::Failed(e) => seq![(" "@, Style::Plain), ("["@ + e + "]"@, Style::Type)],
        _ => seq![],
    }
}

pub open spec fn kind_segments(n: NodeView) -> Seq<(Seq<char>, Style)> {
    match n.kind {
        KindView::Scope { name, expensive, .. } => seq![(name, Style::Scope)] + (if expensive {
            seq![(" "@, Style::Plain), ("(expensive)"@, Style::Type)]
        } else {
            seq![]
        }),
        KindView::Variable { name, value, ty, .. } => seq![(name, Style::Name)] + (match ty {
            Some(ty) => seq![(": "@, Style::Plain), (ty, Style::Type)],
            None => seq![],
        }) + (if value.len() > 0 {
            seq![(" = "@, Style::Plain), (value, Style::Value)]
        } else {
            seq![]
        }),
    }
}

/// The pieces of a node's row.
pub open spec fn row(n: NodeView, depth: nat) -> Seq<(Seq<char>, Style)> {
    seq![
        (Seq::new(2 * depth, |i: int| ' '), Style::Plain),
        (marker(n), Style::Type),
    ] + kind_segments(n) + failure_segments(n)
}

fn push_segment(out: &mut Vec<Segment>, piece: &str, style: Style)
    ensures
        segments_view(final(out)@) == segments_view(old(out)@).push((piece@, style)),
{
    out.push(Segment { text: piece.to_owned(), style });
    assert(segments_view(out@) =~= segments_view(old(out)@).push((piece@, style)));
}

pub fn format_node(node: &Node, depth: usize) -> (r: Vec<Segment>)
    ensures
        segments_view(r@) == row(node@, depth as nat),
{
    let mut indent = String::new();
    let mut i: usize = 0;
    assert(indent@ =~= Seq::new(0, |i: int| ' '));
    while i < depth
        invariant
            i <= depth,
            indent@ == Seq::new((2 * i) as nat, |i: int| ' '),
        decreases depth - i,
    {
        indent.push(' ');
        indent.push(' ');
        i += 1;
        assert(indent@ =~= Seq::new((2 * i) as nat, |i: int| ' '));
    }
    let mut out: Vec<Segment> = Vec::new();
    push_segment(&mut out, &indent, Style::Plain);
    push_segment(
        &mut out,
        if node.is_expandable() {
            if node.expanded {
                "v "
            } else {
                "> "
            }
        } else {
            "  "
        },
        Style::Type,
    );
    let ghost start = segments_view(out@);
    assert(start =~= seq![(indent@, Style::Plain), (marker(node@), Style::Type)]);
    match &node.kind {
        NodeKind::Scope { name, expensive, .. } => {
            push_segment(&mut out, name, Style::Scope);
            if *expensive {
                push_segment(&mut out, " ", Style::Plain);
                push_segment(&mut out, "(expensive)", Style::Type);
            }
        },
        NodeKind::Variable { name, value, ty, .. } => {
            push_segment(&mut out, name, Style::Name);
            match ty {
                Some(ty) => {
                    push_segment(&mut out, ": ", Style::Plain);
                    push_segment(&mut out, ty, Style::Type);
                },
                None => {},
            }
            if chars(value).len() > 0 {
                push_segment(&mut out, " = ", Style::Plain);
                push_segment(&mut out, value, Style::Value);
            }
        },
    }
    assert(segments_view(out@) =~= start + kind_segments(node@));
    let ghost middle = segments_view(out@);
    match &node.children {
        Children::Failed(error) => {
            let mut e = "[".to_owned();
            e.append(error);
            e.append("]");
            push_segment(&mut out, " ", Style::Plain);
            push_segment(&mut out, &e, Style::Type);
        },
        _ => {},
    }
    assert(segments_view(out@) =~= middle + failure_segments(node@));
    out
}

/// What fits into a window: the rows of the list, and whether there is a footer;
/// nothing if the window has no room inside its border.
pub fn frame(width: u16, height: u16) -> (r: Option<(u16, bool)>)
    ensures
        r == (if width == 0 || height == 0 {
            None
        } else if height > 1 {
            Some(((height - 1) as u16, true))
        } else {
            Some((height, false))
        }),
{
    if width == 0 || height == 0 {
        None
    } else if height > 1 {
        Some((height - 1, true))
    } else {
        Some((height, false))
    }
}

/// The thumb of a scroll bar of `rows` rows, for `total` entries of which `rows`
/// are shown from `scroll` on: its first row and its height. Everything fits if
/// there is none. It lies in the bar unless the window was scrolled too far for its
/// height.
pub fn thumb(total: usize, rows: u16, scroll: usize) -> (r: Option<(u128, u128)>)
    ensures
        ({
            let view = page(rows as usize);
            match r {
                None => total <= view,
                Some((top, height)) => {
                    &&& total > view
                    &&& height == (view * view + total - 1) / (total as int)
                    &&& top == ((view - height) * scroll) / (total - view)
                    &&& 1 <= height <= view
                    &&& scroll <= total - view ==> top + height <= view
                },
            }
        }),
{
    let view: u128 = if rows == 0 { 1 } else { rows as u128 };
    if total as u128 <= view {
        return None;
    }
    let count: u128 = total as u128;
    let ghost v = view as int;
    let ghost t = count as int;
    assert(1 <= v * v <= 0xffff * 0xffff) by (nonlinear_arith)
        requires
            1 <= v <= 0xffff,
    ;
    let square: u128 = view * view;
    let height: u128 = (square + (count - 1)) / count;
    proof {
        assert(height >= 1) by (nonlinear_arith)
            requires
                height == (square + (t - 1)) / t,
                t > 0,
                square >= 1,
        ;
        assert(square <= v * t - v) by (nonlinear_arith)
            requires
                square == v * v,
                v < t,
                v >= 1,
        ;
        assert(height <= v) by (nonlinear_arith)
            requires
                height == (square + (t - 1)) / t,
                square <= v * t - v,
                v >= 1,
                t > 0,
        ;
        assert((v - height) * scroll <= 0xffff * 0xffff_ffff_ffff_ffff) by (nonlinear_arith)
            requires
                0 <= v - height <= 0xffff,
                0 <= scroll <= 0xffff_ffff_ffff_ffff,
        ;
    }
    let room: u128 = view - height;
    let top: u128 = (room * (scroll as u128)) / (count - view);
    proof {
        if scroll <= total - view {
            assert(top <= room) by (nonlinear_arith)
                requires
                    top == (room * scroll) / (count - view),
                    scroll <= count - view,
                    count > view,
                    room >= 0,
            ;
        }
    }
    Some((top, height))
}

// ---------------------------------------------------------------------------
// Keys
// ---------------------------------------------------------------------------

/// A key, as far as the browser knows it.
#[derive(Debug, Clone, Copy, PartialEq, Eq, Structural)]
pub enum Key {
    Esc,
    Enter,
    Up,
    Down,
    Left,
    Right,
    PageUp,
    PageDown,
    Home,
    End,
    Char(char),
    Ctrl(char),
    Other,
}

/// What a key does in the browser.
#[derive(Debug, Clone, Copy, PartialEq, Eq, Structural)]
pub enum Action {
    Close,
    MoveUp,
    MoveDown,
    MovePageUp,
    MovePageDown,
    MoveHome,
    MoveEnd,
    Expand,
    Collapse,
    /// The key is left to others.
    Ignore,
}

/// The keys of each action.
pub open spec fn keys_of(action: Action) -> Seq<Key> {
    match action {
        Action::Close => seq![Key::Esc, Key::Ctrl('c')],
        Action::MoveUp => seq![Key::Up, Key::Ctrl('p'), Key::Char('k')],
        Action::MoveDown => seq![Key::Down, Key::Ctrl('n'), Key::Char('j')],
        Action::MovePageUp => seq![Key::PageUp, Key::Ctrl('u')],
        Action::MovePageDown => seq![Key::PageDown, Key::Ctrl('d')],
        Action::MoveHome => seq![Key::Home],
        Action::MoveEnd => seq![Key::End],
        Action::Expand => seq![Key::Right, Key::Enter, Key::Char('l')],
        Action::Collapse => seq![Key::Left, Key::Char('h')],
        Action::Ignore => seq![],
    }
}

/// What a key does: every action has its keys, and all other keys are ignored.
pub fn handle_key(key: Key) -> (r: Action)
    ensures
        forall|a: Action| #[trigger] keys_of(a).contains(key) ==> r == a,
        r is Ignore || keys_of(r).contains(key),
{
    let r = match key {
        Key::Esc | Key::Ctrl('c') => Action::Close,
        Key::Up | Key::Ctrl('p') | Key::Char('k') => Action::MoveUp,
        Key::Down | Key::Ctrl('n') | Key::Char('j') => Action::MoveDown,
        Key::PageUp | Key::Ctrl('u') => Action::MovePageUp,
        Key::PageDown | Key::Ctrl('d') => Action::MovePageDown,
        Key::Home => Action::MoveHome,
        Key::End => Action::MoveEnd,
        Key::Right | Key::Enter | Key::Char('l') => Action::Expand,
        Key::Left | Key::Char('h') => Action::Collapse,
        _ => Action::Ignore,
    };
    proof {
        let keys = keys_of(r);
        if r !is Ignore {
            assert(keys.len() >= 1);
            assert(keys[0] == key || (keys.len() > 1 && keys[1] == key) || (keys.len() > 2
                && keys[2] == key));
        }
    }
    r
}

/// A node with all nodes above it expanded, step by step.
spec fn seen(nodes: Seq<NodeView>, p: Seq<usize>) -> bool
    decreases p.len(),
{
    p.len() > 0 && p[0] < nodes.len() && (p.len() == 1 || (nodes[p[0] as int].expanded
        && match nodes[p[0] as int].children {
        ChildrenView::Loaded(c) => seen(c, p.skip(1)),
        _ => false,
    }))
}

proof fn lemma_parts_contain<T>(a: Seq<T>, x: T, b: Seq<T>, y: T)
    ensures
        (a.push(x) + b).contains(y) == (a.contains(y) || x == y || b.contains(y)),
{
    let all = a.push(x) + b;
    if a.contains(y) {
        let i = choose|i: int| 0 <= i < a.len() && a[i] == y;
        assert(all[i] == y);
    }
    if x == y {
        assert(all[a.len() as int] == y);
    }
    if b.contains(y) {
        let i = choose|i: int| 0 <= i < b.len() && b[i] == y;
        assert(all[a.len() + 1 + i] == y);
    }
    if all.contains(y) {
        let i = choose|i: int| 0 <= i < all.len() && all[i] == y;
        if i < a.len() {
            assert(a[i] == y);
        } else if i > a.len() {
            assert(b[i - a.len() - 1] == y);
        }
    }
}

proof fn lemma_rows_are_seen(nodes: Seq<NodeView>, prefix: Seq<usize>, n: nat, path: Seq<usize>)
    requires
        n <= nodes.len() <= usize::MAX,
        sized(nodes, n),
    ensures
        visible(nodes, prefix, n).contains(path) <==> (prefix.len() < path.len() && path.take(
            prefix.len() as int,
        ) == prefix && path[prefix.len() as int] < n && seen(
            nodes,
            path.skip(prefix.len() as int),
        )),
    decreases nodes, n,
{
    if n > 0 {
        let i = n - 1;
        let here = prefix.push(i as usize);
        let k = prefix.len() as int;
        let before = visible(nodes, prefix, i as nat);
        lemma_rows_are_seen(nodes, prefix, i as nat, path);
        let below = if nodes[i].expanded {
            match nodes[i].children {
                ChildrenView::Loaded(c) => visible(c, here, c.len()),
                _ => seq![],
            }
        } else {
            seq![]
        };
        lemma_parts_contain(before, here, below, path);
        if nodes[i].expanded && nodes[i].children is Loaded {
            let c = nodes[i].children->Loaded_0;
            lemma_rows_are_seen(c, here, c.len(), path);
        }
        if k < path.len() {
            let rest = path.skip(k);
            assert(rest[0] == path[k]);
            assert(rest.skip(1) =~= path.skip(k + 1));
            assert(path.take(k) == prefix && path[k] == i ==> path.take(k + 1) =~= here);
            if path.take(k + 1) == here {
                assert(path.take(k) =~= here.take(k));
                assert(here.take(k) =~= prefix);
                assert(path[k] == path.take(k + 1)[k]);
            }
            if path == here {
                assert(path.take(k) =~= prefix);
            }
            if path.take(k) == prefix && path[k] == i && path.len() == k + 1 {
                assert(path =~= here);
            }
            if k + 1 < path.len() {
                assert(path[k + 1] == rest.skip(1)[0]);
            }
            if path.take(k) == prefix && path[k] == i && k + 1 < path.len() {
                assert(path.take(k + 1) == here);
                let q = path.skip(k + 1);
                assert(rest.len() > 1 && nodes[rest[0] as int] == nodes[i]);
                assert(rest.skip(1) == q);
                reveal_with_fuel(seen, 2);
                if nodes[i].expanded && nodes[i].children is Loaded {
                    let c = nodes[i].children->Loaded_0;
                    assert(seen(nodes, rest) == seen(c, q));
                    assert(seen(c, q) ==> q[0] < c.len());
                    assert(q[0] == path[k + 1]);
                    assert(here.len() == k + 1);
                    assert(below.contains(path) == seen(c, q));
                }
                assert(below.contains(path) == seen(nodes, rest));
            }
        }
        assert(visible(nodes, prefix, n) == before.push(here) + below);
        if path == here {
            assert(path[k] == i);
            assert(seen(nodes, path.skip(k)));
        }
        if below.contains(path) {
            assert(path.take(k + 1) == here);
            assert(path.take(k) == prefix && path[k] == i);
        }
    }
}

proof fn lemma_seen(nodes: Seq<NodeView>, p: Seq<usize>)
    ensures
        seen(nodes, p) <==> (node_at(nodes, p) is Some && forall|k: int|
            0 < k < p.len() ==> ((#[trigger] node_at(nodes, p.take(k))) matches Some(x)
                && x.expanded)),
    decreases p.len(),
{
    if p.len() > 1 && p[0] < nodes.len() {
        let x = nodes[p[0] as int];
        assert(p.take(1).len() == 1 && p.take(1)[0] == p[0]);
        assert(node_at(nodes, p.take(1)) == Some(x));
        if x.children is Loaded {
            let c = x.children->Loaded_0;
            lemma_seen(c, p.skip(1));
            assert forall|k: int| 1 < k < p.len() implies node_at(nodes, #[trigger] p.take(k))
                == node_at(c, p.skip(1).take(k - 1)) by {
                assert(p.take(k)[0] == p[0]);
                assert(p.take(k).skip(1) =~= p.skip(1).take(k - 1));
            }
            assert forall|k: int| 0 < k < p.len() - 1 implies node_at(
                nodes,
                p.take(k + 1),
            ) == node_at(c, #[trigger] p.skip(1).take(k)) by {
                assert(p.take(k + 1).skip(1) =~= p.skip(1).take(k));
            }
            if seen(nodes, p) {
                assert forall|k: int| 0 < k < p.len() implies ((#[trigger] node_at(
                    nodes,
                    p.take(k),
                )) matches Some(y) && y.expanded) by {
                    if k > 1 {
                        assert(node_at(c, p.skip(1).take(k - 1)) matches Some(y) && y.expanded);
                    }
                }
            }
            if node_at(nodes, p) is Some && forall|k: int|
                0 < k < p.len() ==> ((#[trigger] node_at(nodes, p.take(k))) matches Some(y)
                    && y.expanded) {
                assert forall|k: int| 0 < k < p.len() - 1 implies ((#[trigger] node_at(
                    c,
                    p.skip(1).take(k),
                )) matches Some(y) && y.expanded) by {
                    assert(node_at(nodes, p.take(k + 1)) matches Some(y) && y.expanded);
                }
            }
        }
    }
}

/// Exactly those nodes are shown that are there and below none that is collapsed.
pub proof fn nodes_below_expanded_ones_are_shown(v: DebugVariables, path: Seq<usize>)
    requires
        v.well_formed(),
    ensures
        paths_view(v.visible_paths@).contains(path) <==> (node_at(
            nodes_view(v.roots@),
            path,
        ) is Some && forall|k: int|
            0 < k < path.len() ==> ((#[trigger] node_at(nodes_view(v.roots@), path.take(k)))
                matches Some(x) && x.expanded)),
{
    let nodes = nodes_view(v.roots@);
    assert(v.roots.len() <= usize::MAX);
    lemma_nodes_view(v.roots@);
    lemma_sized(v.roots@, v.roots@.len());
    lemma_rows_are_seen(nodes, seq![], nodes.len(), path);
    lemma_seen(nodes, path);
    assert(path.skip(0) =~= path);
    assert(path.take(0) =~= Seq::<usize>::empty());
}

/// What happens to a node changes that node: it is expanded or collapsed, gets its
/// children, or tells why it has none, and keeps the rest.
pub proof fn changes_reach_their_node(nodes: Seq<NodeView>, path: Seq<usize>, edit: EditView)
    requires
        node_at(nodes, path) is Some,
    ensures
        node_at(with_node(nodes, path, edit), path) is Some,
        ({
            let was = node_at(nodes, path)->0;
            let now = node_at(with_node(nodes, path, edit), path)->0;
            &&& now.kind == was.kind
            &&& edit matches EditView::Expanded(e) ==> now.expanded == e && now.children
                == was.children
            &&& edit matches EditView::Loaded(c) ==> now.children == ChildrenView::Loaded(c)
                && now.expanded
            &&& edit matches EditView::Failed(e) ==> now.children == ChildrenView::Failed(e)
                && now.expanded == was.expanded
        }),
    decreases path.len(),
{
    if path.len() > 1 {
        let x = nodes[path[0] as int];
        changes_reach_their_node(x.children->Loaded_0, path.skip(1), edit);
    }
}

/// What happens to a node leaves all nodes as they are that are neither above nor below
/// it.
pub proof fn other_nodes_stay_as_they_are(
    nodes: Seq<NodeView>,
    path: Seq<usize>,
    edit: EditView,
    other: Seq<usize>,
    k: int,
)
    requires
        0 <= k < path.len(),
        k < other.len(),
        path[k] != other[k],
    ensures
        node_at(with_node(nodes, path, edit), other) == node_at(nodes, other),
    decreases path.len(),
{
    if path[0] < nodes.len() && k > 0 && path[0] == other[0] {
        let x = nodes[path[0] as int];
        if x.children is Loaded {
            other_nodes_stay_as_they_are(
                x.children->Loaded_0,
                path.skip(1),
                edit,
                other.skip(1),
                k - 1,
            );
        }
    }
}

/// A node that is asked to expand and whose children are known is expanded.
pub proof fn known_children_are_shown_at_once(
    was: DebugVariables,
    now: DebugVariables,
    path: Seq<usize>,
    r: Expansion,
)
    requires
        expanding(was, now, path),
        to_load(was, path, r),
        node_at(nodes_view(was.roots@), path) matches Some(n) && reference_of(n) != 0
            && n.children is Loaded,
    ensures
        r is Done,
        node_at(nodes_view(now.roots@), path) matches Some(n) && n.expanded && n.children
            == node_at(nodes_view(was.roots@), path)->0.children,
{
    changes_reach_their_node(nodes_view(was.roots@), path, EditView::Expanded(true));
}

/// The scopes are shown in the order of what they are: no arguments above locals, no
/// return values above arguments, no registers above return values, and nothing else
/// above these.
pub proof fn scopes_are_shown_by_what_they_are(scopes: Seq<Scope>, i: int, j: int)
    requires
        0 <= i < j < sorted(scopes).len(),
    ensures
        ({
            let a = sorted(scopes)[i];
            let b = sorted(scopes)[j];
            let first = |e: Seq<char>| scope_is(text_view(a.presentation_hint), a.name@, e);
            let second = |e: Seq<char>| scope_is(text_view(b.presentation_hint), b.name@, e);
            &&& second("locals"@) ==> first("locals"@)
            &&& second("arguments"@) ==> first("locals"@) || first("arguments"@)
            &&& second("returnValue"@) ==> first("locals"@) || first("arguments"@) || first(
                "returnValue"@,
            )
            &&& second("registers"@) ==> first("locals"@) || first("arguments"@) || first(
                "returnValue"@,
            ) || first("registers"@)
        }),
{
    preferred_scopes_come_first(scopes);
    let a = sorted(scopes)[i];
    let b = sorted(scopes)[j];
    assert(group_of(text_view(a.presentation_hint), a.name@) <= group_of(
        text_view(b.presentation_hint),
        b.name@,
    ));
}

proof fn lemma_first_local(nodes: Seq<NodeView>, i: int, k: int)
    requires
        0 <= i <= k < nodes.len(),
        is_local(nodes[k]),
    ensures
        i <= first_local(nodes, i) <= k,
        is_local(nodes[first_local(nodes, i)]),
        forall|j: int| i <= j < first_local(nodes, i) ==> !is_local(#[trigger] nodes[j]),
    decreases nodes.len() - i,
{
    if !is_local(nodes[i]) {
        lemma_first_local(nodes, i + 1, k);
    }
}

/// The browser starts with the first scope of local variables, if there is one.
pub proof fn local_variables_are_expanded_first(nodes: Seq<NodeView>, k: int)
    requires
        0 <= k < nodes.len(),
        nodes[k].kind matches KindView::Scope { name, presentation_hint, .. } && (lowered(name)
            == lowered("locals"@) || (presentation_hint matches Some(h) && lowered(h) == lowered(
            "locals"@,
        ))),
    ensures
        0 <= first_local(nodes, 0) <= k,
        nodes[first_local(nodes, 0)].kind matches KindView::Scope { name, presentation_hint, .. }
            && (lowered(name) == lowered("locals"@) || (presentation_hint matches Some(h)
            && lowered(h) == lowered("locals"@))),
{
    lemma_first_local(nodes, 0, k);
}

/// The names on the way to a node.
spec fn names_along(nodes: Seq<NodeView>, path: Seq<usize>) -> Seq<Seq<char>>
    decreases path.len(),
{
    if path.len() == 0 || path[0] >= nodes.len() {
        seq![]
    } else {
        let n = nodes[path[0] as int];
        seq![name_of(n)] + (match n.children {
            ChildrenView::Loaded(c) => names_along(c, path.skip(1)),
            _ => seq![],
        })
    }
}

proof fn lemma_restored(
    children: Seq<NodeView>,
    names: Seq<Seq<Seq<char>>>,
    scope_path: Seq<usize>,
    n: nat,
    i: int,
)
    requires
        0 <= i < n <= children.len() <= usize::MAX,
    ensures
        restored(children, names, scope_path, n).contains(scope_path.push(i as usize)) <==> (
        reference_of(children[i]) != 0 && known(names, name_of(children[i]))),
    decreases n,
{
    let before = restored(children, names, scope_path, (n - 1) as nat);
    let path = scope_path.push((n - 1) as usize);
    let wanted = scope_path.push(i as usize);
    let k = scope_path.len() as int;
    assert(before.push(path) + Seq::empty() =~= before.push(path));
    lemma_parts_contain(before, path, Seq::empty(), wanted);
    assert(wanted[k] == i && path[k] == n - 1);
    if i < n - 1 {
        lemma_restored(children, names, scope_path, (n - 1) as nat, i);
    } else {
        lemma_restored_before(children, names, scope_path, (n - 1) as nat, i);
    }
}

proof fn lemma_restored_before(
    children: Seq<NodeView>,
    names: Seq<Seq<Seq<char>>>,
    scope_path: Seq<usize>,
    n: nat,
    i: int,
)
    requires
        0 <= n <= i < children.len() <= usize::MAX,
    ensures
        !restored(children, names, scope_path, n).contains(scope_path.push(i as usize)),
    decreases n,
{
    if n > 0 {
        let before = restored(children, names, scope_path, (n - 1) as nat);
        let path = scope_path.push((n - 1) as usize);
        let wanted = scope_path.push(i as usize);
        let k = scope_path.len() as int;
        assert(before.push(path) + Seq::empty() =~= before.push(path));
        lemma_parts_contain(before, path, Seq::empty(), wanted);
        assert(wanted[k] == i && path[k] == n - 1);
        lemma_restored_before(children, names, scope_path, (n - 1) as nat, i);
    }
}

/// In a new frame exactly those variables of the scope are expanded once more that have
/// children and whose name was that of an expanded variable directly below a scope.
pub proof fn variables_are_expanded_again_by_name(
    children: Seq<NodeView>,
    names: Seq<Seq<Seq<char>>>,
    scope_path: Seq<usize>,
    i: int,
)
    requires
        0 <= i < children.len() <= usize::MAX,
    ensures
        restored(children, names, scope_path, children.len()).contains(
            scope_path.push(i as usize),
        ) <==> (reference_of(children[i]) != 0 && exists|k: int|
            0 <= k < names.len() && (#[trigger] names[k]).len() >= 2 && names[k][1] == name_of(
                children[i],
            )),
{
    lemma_restored(children, names, scope_path, children.len(), i);
}

/// Every watched expression has a row in a scope of its own above the others: its value,
/// or why there is none.
pub proof fn watched_expressions_are_shown(
    roots: Seq<NodeView>,
    watches: Seq<Watch>,
    i: int,
)
    requires
        0 <= i < watches.len(),
    ensures
        with_watches(roots, watches).len() == roots.len() + 1,
        with_watches(roots, watches).skip(1) == roots,
        with_watches(roots, watches)[0].expanded,
        with_watches(roots, watches)[0].children matches ChildrenView::Loaded(c) && c.len()
            == watches.len() && (c[i].kind matches KindView::Variable { name, value, .. } && name
            == watches[i].expression@ && match watches[i].outcome {
            Ok(e) => e.variables_reference == 0 ==> value == inline_text(e.result@),
            Err(e) => value == "<"@ + e@ + ">"@,
        }),
{
    assert(with_watches(roots, watches).skip(1) =~= roots);
}

/// The window moves only where the cursor would leave it, and no further than it has to.
pub proof fn windows_move_with_the_cursor(cursor: int, scroll: int, page: int)
    requires
        0 <= cursor,
        0 <= scroll,
        0 < page,
    ensures
        scroll <= cursor < scroll + page ==> scrolled(cursor, scroll, page) == scroll,
        cursor < scroll ==> scrolled(cursor, scroll, page) == cursor,
        cursor >= scroll + page ==> scrolled(cursor, scroll, page) + page == cursor + 1,
{
}

/// Arrow keys and their like go where they point.
pub proof fn keys_go_where_they_point()
    ensures
        keys_of(Action::MoveUp).contains(Key::Up),
        keys_of(Action::MoveDown).contains(Key::Down),
        keys_of(Action::MovePageUp).contains(Key::PageUp),
        keys_of(Action::MovePageDown).contains(Key::PageDown),
        keys_of(Action::MoveHome).contains(Key::Home),
        keys_of(Action::MoveEnd).contains(Key::End),
        keys_of(Action::Expand).contains(Key::Right),
        keys_of(Action::Collapse).contains(Key::Left),
        keys_of(Action::Close).contains(Key::Esc),
{
    assert(keys_of(Action::MoveUp)[0] == Key::Up);
    assert(keys_of(Action::MoveDown)[0] == Key::Down);
    assert(keys_of(Action::MovePageUp)[0] == Key::PageUp);
    assert(keys_of(Action::MovePageDown)[0] == Key::PageDown);
    assert(keys_of(Action::MoveHome)[0] == Key::Home);
    assert(keys_of(Action::MoveEnd)[0] == Key::End);
    assert(keys_of(Action::Expand)[0] == Key::Right);
    assert(keys_of(Action::Collapse)[0] == Key::Left);
    assert(keys_of(Action::Close)[0] == Key::Esc);
}

proof fn lemma_expanded_names(
    nodes: Seq<NodeView>,
    prefix: Seq<Seq<char>>,
    n: nat,
    path: Seq<usize>,
)
    requires
        n <= nodes.len(),
        path.len() > 0,
        path[0] < n,
        seen(nodes, path),
        node_at(nodes, path) matches Some(x) && x.expanded,
    ensures
        expanded_names(nodes, prefix, n).contains(prefix + names_along(nodes, path).take(
            path.len() as int,
        )),
    decreases nodes, n,
{
    let node = nodes[n - 1];
    let before = expanded_names(nodes, prefix, (n - 1) as nat);
    let here = prefix.push(name_of(node));
    let below = match node.children {
        ChildrenView::Loaded(c) => expanded_names(c, here, c.len()),
        _ => seq![],
    };
    let wanted = prefix + names_along(nodes, path).take(path.len() as int);
    lemma_parts_contain(before, here, below, wanted);
    if path[0] < n - 1 {
        lemma_expanded_names(nodes, prefix, (n - 1) as nat, path);
    } else if path.len() == 1 {
        assert(names_along(nodes, path).take(1) =~= seq![name_of(node)]);
        assert(wanted =~= here);
    } else {
        let c = node.children->Loaded_0;
        lemma_expanded_names(c, here, c.len(), path.skip(1));
        lemma_names_along(nodes, path);
        assert(names_along(nodes, path).take(path.len() as int) =~= seq![name_of(node)]
            + names_along(c, path.skip(1)).take(path.len() - 1));
        assert(wanted =~= here + names_along(c, path.skip(1)).take(path.len() - 1));
    }
}

proof fn lemma_names_along(nodes: Seq<NodeView>, path: Seq<usize>)
    requires
        node_at(nodes, path) is Some,
    ensures
        names_along(nodes, path).len() >= path.len(),
    decreases path.len(),
{
    if path.len() > 1 {
        lemma_names_along(nodes[path[0] as int].children->Loaded_0, path.skip(1));
    }
}

proof fn lemma_way(nodes: Seq<NodeView>, path: Seq<usize>, k: int)
    requires
        node_at(nodes, path) is Some,
        0 <= k < path.len(),
    ensures
        names_along(nodes, path).len() >= path.len(),
        node_at(nodes, path.take(k + 1)) matches Some(x) && names_along(nodes, path)[k] == name_of(
            x,
        ),
    decreases path.len(),
{
    lemma_names_along(nodes, path);
    assert(path.take(k + 1)[0] == path[0]);
    if k > 0 {
        let c = nodes[path[0] as int].children->Loaded_0;
        lemma_way(c, path.skip(1), k - 1);
        assert(path.take(k + 1).skip(1) =~= path.skip(1).take(k));
    }
}

/// Of every expanded node that is shown the names are kept, from the scope down.
pub proof fn names_of_expanded_nodes_are_kept(
    nodes: Seq<NodeView>,
    path: Seq<usize>,
    names: Seq<Seq<char>>,
)
    requires
        node_at(nodes, path) matches Some(x) && x.expanded,
        forall|k: int|
            0 < k < path.len() ==> ((#[trigger] node_at(nodes, path.take(k))) matches Some(x)
                && x.expanded),
        names.len() == path.len(),
        forall|k: int|
            0 <= k < path.len() ==> (node_at(nodes, #[trigger] path.take(k + 1)) matches Some(x)
                && names[k] == name_of(x)),
    ensures
        all_expanded(nodes).contains(names),
{
    lemma_seen(nodes, path);
    lemma_names_along(nodes, path);
    lemma_expanded_names(nodes, seq![], nodes.len(), path);
    let along = names_along(nodes, path).take(path.len() as int);
    assert forall|k: int| 0 <= k < path.len() implies along[k] == names[k] by {
        lemma_way(nodes, path, k);
        let p = path.take(k + 1);
        assert(node_at(nodes, p) is Some);
    }
    assert(along =~= names);
    assert(Seq::<Seq<char>>::empty() + along =~= names);
}

/// When the rows change, the cursor stays on its row, or goes to the last one where its
/// row is gone.
pub proof fn cursors_stay_on_their_row(was: DebugVariables, now: DebugVariables)
    requires
        settled(was, now),
    ensures
        was.cursor < now.visible_paths@.len() ==> now.cursor == was.cursor,
        was.cursor >= now.visible_paths@.len() > 0 ==> now.cursor == now.visible_paths@.len() - 1,
        now.visible_paths@.len() == 0 ==> now.cursor == 0,
{
    assert(paths_view(now.visible_paths@).len() == now.visible_paths@.len());
}

/// A variable is shown with its own name, value and type, and its children are known
/// only where it has none.
pub proof fn variables_are_shown_as_told(v: Variable)
    ensures
        variable_node(v).kind matches KindView::Variable { name, value, .. } && name
            == inline_text(v.name@) && value == inline_text(v.value@),
        reference_of(variable_node(v)) == v.variables_reference,
        indexed_of(variable_node(v)) == v.indexed_variables,
        !variable_node(v).expanded,
        v.variables_reference == 0 <==> variable_node(v).children is Loaded,
        v.variables_reference != 0 <==> variable_node(v).children is Unloaded,
{
}

/// Text on one line has no line break, and as many characters as before.
pub proof fn shown_text_is_on_one_line(s: Seq<char>, i: int)
    requires
        0 <= i < s.len(),
    ensures
        inline_text(s).len() == s.len(),
        inline_text(s)[i] != '\n' && inline_text(s)[i] != '\r' && inline_text(s)[i] != '\t',
        s[i] != '\n' && s[i] != '\r' && s[i] != '\t' ==> inline_text(s)[i] == s[i],
{
}

} // verus!
