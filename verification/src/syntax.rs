//! Syntax trees of code and HTML, as the list of their nodes in pre-order.

use vstd::prelude::*;

use crate::text::chars_of;

verus! {

/// The grammars that code and HTML are parsed with.
#[derive(Debug, Clone, Copy, PartialEq, Eq, Structural)]
pub enum Grammar {
    JavaScript,
    TypeScript,
    Tsx,
    Python,
    Html,
}

/// A node of a syntax tree: its kind, its byte range, its depth below the
/// root, and whether it is named (rather than a literal token).
pub struct SyntaxNode {
    pub kind: String,
    pub start: usize,
    pub end: usize,
    pub depth: u32,
    pub named: bool,
}

pub type NodeView = (Seq<char>, usize, usize, u32, bool);

impl SyntaxNode {
    pub open spec fn view(&self) -> NodeView {
        (self.kind@, self.start, self.end, self.depth, self.named)
    }
}

pub open spec fn node_views(v: Seq<SyntaxNode>) -> Seq<NodeView> {
    v.map_values(|n: SyntaxNode| n.view())
}

/// The nodes of the tree that tree-sitter builds for `source` with the
/// grammar, in pre-order.
pub uninterp spec fn syntax_nodes(source: Seq<char>, grammar: Grammar) -> Seq<NodeView>;

/// Parses `source` with tree-sitter (`Parser::set_language` with the
/// grammar crate's language, then `Parser::parse`) and walks the tree with a
/// `TreeCursor`, listing each node's `kind`, `start_byte`, `end_byte`,
/// cursor `depth` and `is_named` in pre-order. Claimed: the list is the name
/// `syntax_nodes` of the source and the grammar; nothing more is said of
/// it. The bundled grammars are built for the linked tree-sitter, and no
/// timeout or cancellation is set, so neither `unwrap` fails.
#[verifier::external_body]
pub(crate) fn parse_syntax(source: &str, grammar: Grammar) -> (nodes: Vec<SyntaxNode>)
    ensures
        node_views(nodes@) == syntax_nodes(source@, grammar),
{
    let mut parser = tree_sitter::Parser::new();
    parser.set_language(&match grammar {
        Grammar::JavaScript => tree_sitter_javascript::LANGUAGE,
        Grammar::TypeScript => tree_sitter_typescript::LANGUAGE_TYPESCRIPT,
        Grammar::Tsx => tree_sitter_typescript::LANGUAGE_TSX,
        Grammar::Python => tree_sitter_python::LANGUAGE,
        _ => tree_sitter_html::LANGUAGE,
    }.into()).unwrap();
    let tree = parser.parse(source, None).unwrap();
    let mut cursor = tree.walk(); let mut nodes = Vec::new();
    loop {
        let n = cursor.node();
        nodes.push(SyntaxNode { kind: n.kind().into(), start: n.start_byte(), end: n.end_byte(), depth: cursor.depth(), named: n.is_named() });
        if !cursor.goto_first_child() { while !cursor.goto_next_sibling() { if !cursor.goto_parent() { return nodes } } }
    }
}

/// The number of nodes from `j` on that lie deeper than `d`.
pub open spec fn deeper_run(t: Seq<NodeView>, j: int, d: u32) -> nat
    decreases t.len() - j,
{
    if 0 <= j < t.len() && t[j].3 > d {
        1 + deeper_run(t, j + 1, d)
    } else {
        0
    }
}

/// The index just after the subtree of node `i`.
pub open spec fn subtree_end(t: Seq<NodeView>, i: int) -> int {
    i + 1 + deeper_run(t, i + 1, t[i].3)
}

pub proof fn lemma_deeper_run(t: Seq<NodeView>, j: int, d: u32)
    requires
        0 <= j <= t.len(),
    ensures
        j + deeper_run(t, j, d) <= t.len(),
    decreases t.len() - j,
{
    if j < t.len() && t[j].3 > d {
        lemma_deeper_run(t, j + 1, d);
    }
}

pub fn subtree_end_at(t: &Vec<SyntaxNode>, i: usize) -> (e: usize)
    requires
        i < t.len(),
    ensures
        e == subtree_end(node_views(t@), i as int),
        i < e <= t@.len(),
{
    let ghost v = node_views(t@);
    let d = t[i].depth;
    let mut j = i + 1;
    while j < t.len() && t[j].depth > d
        invariant
            v == node_views(t@),
            i < j <= t@.len(),
            d == v[i as int].3,
            subtree_end(v, i as int) == j + deeper_run(v, j as int, d),
        decreases t@.len() - j,
    {
        j = j + 1;
    }
    j
}

/// The first child of node `i`, from index `j` on, that `p` accepts.
pub open spec fn find_child(t: Seq<NodeView>, i: int, j: int, p: spec_fn(NodeView) -> bool) -> Option<
    int,
>
    decreases t.len() - j,
{
    if j < 0 || j >= t.len() || j >= subtree_end(t, i) {
        None
    } else if t[j].3 == t[i].3 + 1 && p(t[j]) {
        Some(j)
    } else {
        find_child(t, i, j + 1, p)
    }
}

/// The number of children of node `i`, from index `j` on, that `p` accepts.
pub open spec fn count_children(t: Seq<NodeView>, i: int, j: int, p: spec_fn(NodeView) -> bool) -> nat
    decreases t.len() - j,
{
    if j < 0 || j >= t.len() || j >= subtree_end(t, i) {
        0
    } else {
        (if t[j].3 == t[i].3 + 1 && p(t[j]) {
            1nat
        } else {
            0
        }) + count_children(t, i, j + 1, p)
    }
}

/// What a search among children looks for.
#[derive(Clone, Copy)]
pub enum ChildTest {
    /// A node of kind `block`.
    Block,
    /// A named node that is not a comment.
    NamedNotComment,
    /// A named node.
    Named,
}

pub open spec fn child_test(k: ChildTest) -> spec_fn(NodeView) -> bool {
    match k {
        ChildTest::Block => |n: NodeView| n.0 == "block"@,
        ChildTest::NamedNotComment => |n: NodeView| n.4 && n.0 != "comment"@,
        ChildTest::Named => |n: NodeView| n.4,
    }
}

/// Whether the kind of `n` is `k`.
pub fn kind_is(n: &SyntaxNode, k: &str) -> (r: bool)
    ensures
        r == (n.kind@ == k@),
{
    let a = chars_of(n.kind.as_str());
    let b = chars_of(k);
    crate::diagnostic::chars_equal(&a, &b)
}

fn passes(n: &SyntaxNode, k: ChildTest) -> (r: bool)
    ensures
        r == child_test(k)(n.view()),
{
    match k {
        ChildTest::Block => kind_is(n, "block"),
        ChildTest::NamedNotComment => n.named && !kind_is(n, "comment"),
        ChildTest::Named => n.named,
    }
}

/// The first child of node `i` that the test accepts.
pub fn first_child(t: &Vec<SyntaxNode>, i: usize, k: ChildTest) -> (r: Option<usize>)
    requires
        i < t.len(),
    ensures
        r matches Some(j) ==> find_child(node_views(t@), i as int, i + 1, child_test(k)) == Some(
            j as int,
        ),
        r is None ==> find_child(node_views(t@), i as int, i + 1, child_test(k)) is None,
        r matches Some(j) ==> i < j < t@.len(),
{
    let ghost v = node_views(t@);
    let e = subtree_end_at(t, i);
    let d = t[i].depth;
    let mut j = i + 1;
    while j < e
        invariant
            v == node_views(t@),
            i < j <= e <= t@.len(),
            e == subtree_end(v, i as int),
            d == v[i as int].3,
            find_child(v, i as int, i + 1, child_test(k)) == find_child(
                v,
                i as int,
                j as int,
                child_test(k),
            ),
        decreases e - j,
    {
        if t[j].depth as u64 == d as u64 + 1 && passes(&t[j], k) {
            return Some(j);
        }
        j = j + 1;
    }
    None
}

/// The number of children of node `i` that the test accepts.
pub fn child_count(t: &Vec<SyntaxNode>, i: usize, k: ChildTest) -> (r: usize)
    requires
        i < t.len(),
    ensures
        r == count_children(node_views(t@), i as int, i + 1, child_test(k)),
{
    let ghost v = node_views(t@);
    let e = subtree_end_at(t, i);
    let d = t[i].depth;
    let mut j = e;
    let mut c: usize = 0;
    proof {
        assert(count_children(v, i as int, e as int, child_test(k)) == 0);
    }
    while j > i + 1
        invariant
            v == node_views(t@),
            i < j <= e <= t@.len(),
            e == subtree_end(v, i as int),
            d == v[i as int].3,
            c <= e - j,
            c == count_children(v, i as int, j as int, child_test(k)),
        decreases j,
    {
        j = j - 1;
        if t[j].depth as u64 == d as u64 + 1 && passes(&t[j], k) {
            c = c + 1;
        }
    }
    c
}

} // verus!
