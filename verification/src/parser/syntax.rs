//! Syntax trees.

use crate::text::{byte_slice, slice_bytes, str_eq};
use vstd::prelude::*;
use vstd::string::*;

verus! {

/// The model of a syntax tree node.
pub struct SyntaxTree {
    pub kind: Seq<char>,
    pub named: bool,
    pub start_byte: nat,
    pub end_byte: nat,
    pub start_row: nat,
    pub end_row: nat,
    pub children: Seq<SyntaxTree>,
    /// Which child stands under a field name.
    pub fields: Seq<(Seq<char>, nat)>,
}

impl SyntaxTree {
    /// The index of the child that stands under a field name.
    pub open spec fn field_index(self, name: Seq<char>) -> Option<int> {
        self.field_index_from(name, 0)
    }

    /// As [`field_index`](Self::field_index), among the fields from `i` on.
    pub open spec fn field_index_from(self, name: Seq<char>, i: int) -> Option<int>
        decreases self.fields.len() - i,
    {
        if i < 0 || i >= self.fields.len() {
            None
        } else if self.fields[i].0 == name && self.fields[i].1 < self.children.len() {
            Some(self.fields[i].1 as int)
        } else {
            self.field_index_from(name, i + 1)
        }
    }
}

/// A node of a syntax tree that can be walked.
pub trait SyntaxRead: Sized {
    /// The subtree at this node.
    spec fn tree(&self) -> SyntaxTree;

    fn kind(&self) -> (r: &str)
        ensures
            r@ == self.tree().kind,
    ;

    fn is_named(&self) -> (r: bool)
        ensures
            r == self.tree().named,
    ;

    fn start_byte(&self) -> (r: usize)
        ensures
            r == self.tree().start_byte,
    ;

    fn end_byte(&self) -> (r: usize)
        ensures
            r == self.tree().end_byte,
    ;

    fn start_row(&self) -> (r: u32)
        ensures
            r == self.tree().start_row,
    ;

    fn end_row(&self) -> (r: u32)
        ensures
            r == self.tree().end_row,
    ;

    fn child_count(&self) -> (r: usize)
        ensures
            r == self.tree().children.len(),
    ;

    fn child(&self, i: usize) -> (r: Self)
        requires
            i < self.tree().children.len(),
        ensures
            r.tree() == self.tree().children[i as int],
    ;

    fn field(&self, name: &str) -> (r: Option<Self>)
        ensures
            match r {
                Some(c) => self.tree().field_index(name@) matches Some(k) && 0 <= k
                    < self.tree().children.len() && c.tree() == self.tree().children[k],
                None => self.tree().field_index(name@) is None,
            },
    ;

    fn field_index(&self, name: &str) -> (r: Option<usize>)
        ensures
            match r {
                Some(k) => self.tree().field_index(name@) == Some(k as int) && k
                    < self.tree().children.len(),
                None => self.tree().field_index(name@) is None,
            },
    ;
}

/// The contents of a `tree_sitter::Tree`, from its root on.
pub uninterp spec fn parsed_tree(t: tree_sitter::Tree) -> SyntaxTree;

/// The contents of a `tree_sitter::Node`: the subtree at it.
pub uninterp spec fn node_tree(n: tree_sitter::Node) -> SyntaxTree;

#[verifier::external_type_specification]
#[verifier::external_body]
pub struct ExTree(tree_sitter::Tree);

#[verifier::external_type_specification]
#[verifier::external_body]
pub struct ExNode<'a>(tree_sitter::Node<'a>);

#[verifier::external_type_specification]
#[verifier::external_body]
pub struct ExLanguageError(tree_sitter::LanguageError);

/// Calls `tree_sitter::Tree::root_node`.
#[verifier::external_body]
pub(crate) fn ts_root<'a>(tree: &'a tree_sitter::Tree) -> (r: tree_sitter::Node<'a>)
    ensures
        node_tree(r) == parsed_tree(*tree),
{
    tree.root_node()
}

/// Calls `tree_sitter::Node::kind`.
#[verifier::external_body]
fn ts_kind(node: &tree_sitter::Node<'_>) -> (r: &'static str)
    ensures
        r@ == node_tree(*node).kind,
{
    node.kind()
}

/// Calls `tree_sitter::Node::is_named`.
#[verifier::external_body]
fn ts_is_named(node: &tree_sitter::Node<'_>) -> (r: bool)
    ensures
        r == node_tree(*node).named,
{
    node.is_named()
}

/// Calls `tree_sitter::Node::start_byte`.
#[verifier::external_body]
fn ts_start_byte(node: &tree_sitter::Node<'_>) -> (r: usize)
    ensures
        r == node_tree(*node).start_byte,
{
    node.start_byte()
}

/// Calls `tree_sitter::Node::end_byte`.
#[verifier::external_body]
fn ts_end_byte(node: &tree_sitter::Node<'_>) -> (r: usize)
    ensures
        r == node_tree(*node).end_byte,
{
    node.end_byte()
}

/// Calls `tree_sitter::Node::start_position` for the row, which `tree_sitter` keeps in
/// 32 bits.
#[verifier::external_body]
fn ts_start_row(node: &tree_sitter::Node<'_>) -> (r: u32)
    ensures
        r == node_tree(*node).start_row,
{
    node.start_position().row as u32
}

/// Calls `tree_sitter::Node::end_position` for the row, which `tree_sitter` keeps in
/// 32 bits.
#[verifier::external_body]
fn ts_end_row(node: &tree_sitter::Node<'_>) -> (r: u32)
    ensures
        r == node_tree(*node).end_row,
{
    node.end_position().row as u32
}

/// Calls `tree_sitter::Node::child_count`.
#[verifier::external_body]
fn ts_child_count(node: &tree_sitter::Node<'_>) -> (r: usize)
    ensures
        r == node_tree(*node).children.len(),
{
    node.child_count()
}

/// Calls `tree_sitter::Node::child`, which finds a child for each index below
/// `child_count`.
#[verifier::external_body]
fn ts_child<'a>(node: &tree_sitter::Node<'a>, i: usize) -> (r: Option<tree_sitter::Node<'a>>)
    requires
        i < node_tree(*node).children.len(),
    ensures
        r is Some,
        node_tree(r->0) == node_tree(*node).children[i as int],
{
    node.child(i)
}

/// Calls `tree_sitter::Node::child_by_field_name`, which finds one of the node's children,
/// or none.
#[verifier::external_body]
fn ts_field<'a>(node: &tree_sitter::Node<'a>, name: &str) -> (r: Option<tree_sitter::Node<'a>>)
    ensures
        r is None <==> node_tree(*node).field_index(name@) is None,
        r matches Some(c) ==> node_tree(c) == node_tree(*node).children[node_tree(
            *node,
        ).field_index(name@)->0],
{
    node.child_by_field_name(name)
}

/// Calls `tree_sitter::Node::id` on the child at `i` and on the child that
/// `child_by_field_name` finds: no two nodes of a tree share an id, so equal ids mean that
/// the field leads to the child at `i`.
#[verifier::external_body]
fn ts_is_field(node: &tree_sitter::Node<'_>, i: usize, name: &str) -> (r: bool)
    requires
        i < node_tree(*node).children.len(),
    ensures
        r == (node_tree(*node).field_index(name@) == Some(i as int)),
{
    node.child(i).map(|c| c.id()) == node.child_by_field_name(name).map(|c| c.id())
}

/// A node of a tree that `tree_sitter` parsed.
pub struct TsNode<'a> {
    pub node: tree_sitter::Node<'a>,
}

impl<'a> SyntaxRead for TsNode<'a> {
    open spec fn tree(&self) -> SyntaxTree {
        node_tree(self.node)
    }

    fn kind(&self) -> &str {
        ts_kind(&self.node)
    }

    fn is_named(&self) -> bool {
        ts_is_named(&self.node)
    }

    fn start_byte(&self) -> usize {
        ts_start_byte(&self.node)
    }

    fn end_byte(&self) -> usize {
        ts_end_byte(&self.node)
    }

    fn start_row(&self) -> u32 {
        ts_start_row(&self.node)
    }

    fn end_row(&self) -> u32 {
        ts_end_row(&self.node)
    }

    fn child_count(&self) -> usize {
        ts_child_count(&self.node)
    }

    fn child(&self, i: usize) -> Self {
        TsNode { node: ts_child(&self.node, i).unwrap() }
    }

    fn field(&self, name: &str) -> Option<Self> {
        proof {
            lemma_field_index_range(self.tree(), name@, 0);
        }
        match ts_field(&self.node, name) {
            Some(node) => Some(TsNode { node }),
            None => None,
        }
    }

    fn field_index(&self, name: &str) -> Option<usize> {
        let n: usize = ts_child_count(&self.node);
        let mut i: usize = 0;
        proof {
            lemma_field_index_range(self.tree(), name@, 0);
        }
        while i < n
            invariant
                i <= n,
                n == self.tree().children.len(),
                self.tree().field_index(name@) matches Some(k) ==> i <= k < n,
            decreases n - i,
        {
            if ts_is_field(&self.node, i, name) {
                return Some(i);
            }
            i += 1;
        }
        None
    }
}

/// A field leads to one of the children.
pub proof fn lemma_field_index_range(t: SyntaxTree, name: Seq<char>, i: int)
    ensures
        t.field_index_from(name, i) matches Some(k) ==> 0 <= k < t.children.len(),
    decreases t.fields.len() - i,
{
    if 0 <= i < t.fields.len() {
        lemma_field_index_range(t, name, i + 1);
    }
}

/// A syntax tree held as plain values.
#[derive(Debug)]
pub struct SyntaxNode {
    pub kind: String,
    pub named: bool,
    pub start_byte: usize,
    pub end_byte: usize,
    pub start_row: u32,
    pub end_row: u32,
    pub children: Vec<SyntaxNode>,
    /// Which child stands under a field name.
    pub fields: Vec<(String, usize)>,
}

impl SyntaxNode {
    /// The model of the subtree at this node.
    pub open spec fn model(self) -> SyntaxTree
        decreases self,
    {
        SyntaxTree {
            kind: self.kind@,
            named: self.named,
            start_byte: self.start_byte as nat,
            end_byte: self.end_byte as nat,
            start_row: self.start_row as nat,
            end_row: self.end_row as nat,
            children: Seq::new(
                self.children@.len(),
                |i: int|
                    if 0 <= i < self.children@.len() {
                        self.children@[i].model()
                    } else {
                        arbitrary()
                    },
            ),
            fields: self.fields@.map_values(|f: (String, usize)| (f.0@, f.1 as nat)),
        }
    }
}

impl<'a> SyntaxRead for &'a SyntaxNode {
    open spec fn tree(&self) -> SyntaxTree {
        (**self).model()
    }

    fn kind(&self) -> &str {
        self.kind.as_str()
    }

    fn is_named(&self) -> bool {
        self.named
    }

    fn start_byte(&self) -> usize {
        self.start_byte
    }

    fn end_byte(&self) -> usize {
        self.end_byte
    }

    fn start_row(&self) -> u32 {
        self.start_row
    }

    fn end_row(&self) -> u32 {
        self.end_row
    }

    fn child_count(&self) -> usize {
        self.children.len()
    }

    fn child(&self, i: usize) -> Self {
        &self.children[i]
    }

    fn field(&self, name: &str) -> Option<Self> {
        match self.field_index(name) {
            Some(k) => Some(&self.children[k]),
            None => None,
        }
    }

    fn field_index(&self, name: &str) -> Option<usize> {
        let mut i: usize = 0;
        while i < self.fields.len()
            invariant
                i <= self.fields@.len(),
                self.tree().field_index(name@) == self.tree().field_index_from(name@, i as int),
            decreases self.fields.len() - i,
        {
            if str_eq(self.fields[i].0.as_str(), name) && self.fields[i].1 < self.children.len() {
                return Some(self.fields[i].1);
            }
            i += 1;
        }
        None
    }
}

/// The line, counted from 1, of a row counted from 0.
pub open spec fn line_of(row: nat) -> nat {
    if row < usize::MAX {
        row + 1
    } else {
        usize::MAX as nat
    }
}

/// The line, counted from 1, of a row counted from 0.
pub fn line_number(row: u32) -> (r: usize)
    ensures
        r == line_of(row as nat),
{
    let row: usize = row as usize;
    if row < usize::MAX {
        row + 1
    } else {
        usize::MAX
    }
}

/// The text of a node.
pub open spec fn text_at(t: SyntaxTree, source: Seq<char>) -> Seq<char> {
    byte_slice(source, t.start_byte as int, t.end_byte as int)
}

/// The text of a node; empty where the node does not delimit whole characters of `source`.
pub fn node_text<'s, N: SyntaxRead>(node: &N, source: &'s str) -> (r: &'s str)
    ensures
        r@ == text_at(node.tree(), source@),
{
    slice_bytes(source, node.start_byte(), node.end_byte())
}

/// Whether a text is made of ASCII characters and Cyrillic letters: to every C library such a
/// letter is neither white space nor a digit.
pub open spec fn latin_or_cyrillic(s: Seq<char>) -> bool {
    forall|i: int|
        0 <= i < s.len() ==> (#[trigger] s[i] as u32) < 128 || 'А' <= s[i] <= 'я' || s[i] == 'Ё'
            || s[i] == 'ё'
}

/// The index of the first child of a kind.
pub open spec fn kind_index(t: SyntaxTree, kind: Seq<char>) -> Option<int> {
    kind_index_from(t, kind, 0)
}

/// As [`kind_index`], among the children from `i` on.
pub open spec fn kind_index_from(t: SyntaxTree, kind: Seq<char>, i: int) -> Option<int>
    decreases t.children.len() - i,
{
    if i < 0 || i >= t.children.len() {
        None
    } else if t.children[i].kind == kind {
        Some(i)
    } else {
        kind_index_from(t, kind, i + 1)
    }
}

/// Finds the first child of a kind.
pub fn find_child_by_kind<N: SyntaxRead>(node: &N, kind: &str) -> (r: Option<N>)
    ensures
        match r {
            Some(c) => kind_index(node.tree(), kind@) matches Some(k) && 0 <= k
                < node.tree().children.len() && c.tree() == node.tree().children[k],
            None => kind_index(node.tree(), kind@) is None,
        },
{
    let n: usize = node.child_count();
    let mut i: usize = 0;
    while i < n
        invariant
            i <= n,
            n == node.tree().children.len(),
            kind_index(node.tree(), kind@) == kind_index_from(node.tree(), kind@, i as int),
        decreases n - i,
    {
        let c = node.child(i);
        if str_eq(c.kind(), kind) {
            return Some(c);
        }
        i += 1;
    }
    None
}

} // verus!
