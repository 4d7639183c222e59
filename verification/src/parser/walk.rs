//! What the walks over syntax trees share: optional texts of children, named children,
//! documentation comments, callers.

use crate::parser::syntax::{
    find_child_by_kind, kind_index, node_text, text_at, SyntaxRead, SyntaxTree,
};
use crate::parser::types::{opt_str, opt_text};
use crate::text::{begins_with, first_chars, join, joined, starts_with, str_eq, texts};
use vstd::prelude::*;
use vstd::string::*;

verus! {

/// The first of two optional values that is there.
pub open spec fn first_of<T>(a: Option<T>, b: Option<T>) -> Option<T> {
    if a is Some {
        a
    } else {
        b
    }
}

/// An optional text, empty where there is none.
pub open spec fn or_empty(o: Option<Seq<char>>) -> Seq<char> {
    match o {
        Some(s) => s,
        None => Seq::empty(),
    }
}

/// The string inside, or an empty one.
pub fn or_empty_string(o: Option<String>) -> (r: String)
    ensures
        r@ == or_empty(opt_text(o)),
{
    match o {
        Some(s) => s,
        None => String::new(),
    }
}

/// The first of two optional strings that is there.
pub fn or_string(a: Option<String>, b: Option<String>) -> (r: Option<String>)
    ensures
        opt_text(r) == first_of(opt_text(a), opt_text(b)),
{
    if a.is_some() {
        a
    } else {
        b
    }
}

/// The child under a field name.
pub open spec fn field_of(t: SyntaxTree, name: Seq<char>) -> Option<SyntaxTree> {
    match t.field_index(name) {
        Some(k) => Some(t.children[k]),
        None => None,
    }
}

/// The first child of a kind.
pub open spec fn kind_of(t: SyntaxTree, kind: Seq<char>) -> Option<SyntaxTree> {
    match kind_index(t, kind) {
        Some(k) => Some(t.children[k]),
        None => None,
    }
}

/// The text of an optional node.
pub open spec fn text_in(t: Option<SyntaxTree>, source: Seq<char>) -> Option<Seq<char>> {
    match t {
        Some(n) => Some(text_at(n, source)),
        None => None,
    }
}

/// The subtree at an optional node.
pub open spec fn tree_in<N: SyntaxRead>(n: Option<N>) -> Option<SyntaxTree> {
    match n {
        Some(x) => Some(x.tree()),
        None => None,
    }
}

/// The text of an optional node.
pub fn opt_node_text<N: SyntaxRead>(node: &Option<N>, source: &str) -> (r: Option<String>)
    ensures
        opt_text(r) == text_in(tree_in(*node), source@),
{
    match node {
        Some(n) => Some(node_text(n, source).to_owned()),
        None => None,
    }
}

/// The text of the child under a field name.
pub fn field_text<N: SyntaxRead>(node: &N, name: &str, source: &str) -> (r: Option<String>)
    ensures
        opt_text(r) == text_in(field_of(node.tree(), name@), source@),
{
    let child = node.field(name);
    opt_node_text(&child, source)
}

/// The text of the first child of a kind.
pub fn kind_text<N: SyntaxRead>(node: &N, kind: &str, source: &str) -> (r: Option<String>)
    ensures
        opt_text(r) == text_in(kind_of(node.tree(), kind@), source@),
{
    let child = find_child_by_kind(node, kind);
    opt_node_text(&child, source)
}

/// The index of the first named child from `i` on.
pub open spec fn named_from(t: SyntaxTree, i: int) -> Option<int>
    decreases t.children.len() - i,
{
    if i < 0 || i >= t.children.len() {
        None
    } else if t.children[i].named {
        Some(i)
    } else {
        named_from(t, i + 1)
    }
}

/// The index of the last named child before `end`.
pub open spec fn named_before(t: SyntaxTree, end: int) -> Option<int>
    decreases end,
{
    if end <= 0 || end > t.children.len() {
        None
    } else if t.children[end - 1].named {
        Some(end - 1)
    } else {
        named_before(t, end - 1)
    }
}

/// The first named child.
pub open spec fn first_named(t: SyntaxTree) -> Option<SyntaxTree> {
    match named_from(t, 0) {
        Some(k) => Some(t.children[k]),
        None => None,
    }
}

/// The index of the last named child.
pub open spec fn last_named(t: SyntaxTree) -> Option<int> {
    named_before(t, t.children.len() as int)
}

/// Finds the first named child.
pub fn first_named_child<N: SyntaxRead>(node: &N) -> (r: Option<N>)
    ensures
        tree_in(r) == first_named(node.tree()),
        r matches Some(c) ==> exists|k: int|
            0 <= k < node.tree().children.len() && #[trigger] node.tree().children[k] == c.tree(),
{
    let n: usize = node.child_count();
    let mut i: usize = 0;
    while i < n
        invariant
            i <= n,
            n == node.tree().children.len(),
            named_from(node.tree(), 0) == named_from(node.tree(), i as int),
        decreases n - i,
    {
        let c = node.child(i);
        if c.is_named() {
            return Some(c);
        }
        i += 1;
    }
    None
}

/// Finds the index of the last named child.
pub fn last_named_index<N: SyntaxRead>(node: &N) -> (r: Option<usize>)
    ensures
        match r {
            Some(k) => last_named(node.tree()) == Some(k as int) && k < node.tree().children.len(),
            None => last_named(node.tree()) is None,
        },
{
    let n: usize = node.child_count();
    let mut end: usize = n;
    while end > 0
        invariant
            end <= n,
            n == node.tree().children.len(),
            last_named(node.tree()) == named_before(node.tree(), end as int),
        decreases end,
    {
        let c = node.child(end - 1);
        if c.is_named() {
            return Some(end - 1);
        }
        end -= 1;
    }
    None
}

/// Which comments document the declaration that follows them.
#[derive(Clone, Copy, PartialEq, Eq, Structural)]
pub enum DocStyle {
    /// `///` and `/**` comments.
    CSharp,
    /// Every comment.
    Ruby,
    /// `///` line comments and `/**` block comments.
    Swift,
}

/// Whether a node is a documentation comment.
pub open spec fn is_doc(style: DocStyle, t: SyntaxTree, source: Seq<char>) -> bool {
    let text = text_at(t, source);
    match style {
        DocStyle::CSharp => t.kind == "comment"@ && (begins_with(text, "///"@) || begins_with(
            text,
            "/**"@,
        )),
        DocStyle::Ruby => t.kind == "comment"@,
        DocStyle::Swift => if t.kind == "comment"@ {
            begins_with(text, "///"@)
        } else {
            t.kind == "multiline_comment"@ && begins_with(text, "/**"@)
        },
    }
}

/// Where the unbroken run of documentation comments before the child at `i` begins.
pub open spec fn doc_start(
    style: DocStyle,
    parent: SyntaxTree,
    i: int,
    source: Seq<char>,
) -> int
    decreases i,
{
    if i <= 0 || i > parent.children.len() || !is_doc(style, parent.children[i - 1], source) {
        i
    } else {
        doc_start(style, parent, i - 1, source)
    }
}

/// The texts of the children `from..to`.
pub open spec fn child_texts(
    parent: SyntaxTree,
    from: int,
    to: int,
    source: Seq<char>,
) -> Seq<Seq<char>> {
    Seq::new((to - from) as nat, |k: int| text_at(parent.children[from + k], source))
}

/// The documentation before the child at `i`: the unbroken run of documentation comments
/// before it, one to a line.
pub open spec fn doc_before(
    style: DocStyle,
    parent: SyntaxTree,
    i: int,
    source: Seq<char>,
) -> Option<Seq<char>> {
    let start = doc_start(style, parent, i, source);
    if start == i {
        None
    } else {
        Some(joined(child_texts(parent, start, i, source), "\n"@))
    }
}

fn is_doc_node<N: SyntaxRead>(style: DocStyle, node: &N, source: &str) -> (r: bool)
    ensures
        r == is_doc(style, node.tree(), source@),
{
    let text = node_text(node, source);
    match style {
        DocStyle::CSharp => str_eq(node.kind(), "comment") && (starts_with(text, "///")
            || starts_with(text, "/**")),
        DocStyle::Ruby => str_eq(node.kind(), "comment"),
        DocStyle::Swift => if str_eq(node.kind(), "comment") {
            starts_with(text, "///")
        } else {
            str_eq(node.kind(), "multiline_comment") && starts_with(text, "/**")
        },
    }
}

proof fn lemma_doc_start(style: DocStyle, parent: SyntaxTree, i: int, source: Seq<char>)
    requires
        0 <= i,
    ensures
        0 <= doc_start(style, parent, i, source) <= i,
    decreases i,
{
    if i > 0 && i <= parent.children.len() && is_doc(style, parent.children[i - 1], source) {
        lemma_doc_start(style, parent, i - 1, source);
    }
}

/// Collects the documentation before the child at `i`.
pub fn extract_doc<N: SyntaxRead>(style: DocStyle, parent: &N, i: usize, source: &str) -> (r:
    Option<String>)
    requires
        i <= parent.tree().children.len(),
    ensures
        opt_text(r) == doc_before(style, parent.tree(), i as int, source@),
{
    let mut start: usize = i;
    let mut more: bool = true;
    while start > 0 && more
        invariant
            start <= i <= parent.tree().children.len(),
            doc_start(style, parent.tree(), i as int, source@) == doc_start(
                style,
                parent.tree(),
                start as int,
                source@,
            ),
            !more ==> doc_start(style, parent.tree(), start as int, source@) == start,
        decreases start + if more {
            1int
        } else {
            0int
        },
    {
        let c = parent.child(start - 1);
        if is_doc_node(style, &c, source) {
            start -= 1;
        } else {
            more = false;
        }
    }
    if start == i {
        return None;
    }
    let mut lines: Vec<String> = Vec::new();
    let mut k: usize = start;
    while k < i
        invariant
            start <= k <= i <= parent.tree().children.len(),
            texts(lines@) == child_texts(parent.tree(), start as int, k as int, source@),
        decreases i - k,
    {
        let c = parent.child(k);
        let line = node_text(&c, source).to_owned();
        let ghost before = lines@;
        lines.push(line);
        assert(texts(lines@) =~= texts(before).push(line@));
        assert(child_texts(parent.tree(), start as int, k + 1, source@) =~= child_texts(
            parent.tree(),
            start as int,
            k as int,
            source@,
        ).push(line@));
        assert(texts(lines@) =~= child_texts(parent.tree(), start as int, k + 1, source@));
        k += 1;
    }
    Some(join(&lines, "\n"))
}

/// How many characters of a variable's value are kept.
pub const VALUE_CHARS: usize = 200;

/// A variable's value, cut to 200 characters.
pub open spec fn short_value(o: Option<Seq<char>>) -> Option<Seq<char>> {
    match o {
        Some(s) => Some(first_chars(s, VALUE_CHARS as int)),
        None => None,
    }
}

/// The caller of a call: the enclosing function, or the module.
pub open spec fn caller_of(func: Option<Seq<char>>) -> Seq<char> {
    match func {
        Some(f) => f,
        None => "<module>"@,
    }
}

/// The caller of a call: the enclosing function, or the module.
pub fn caller_name(func: Option<&str>) -> (r: String)
    ensures
        r@ == caller_of(opt_str(func)),
{
    match func {
        Some(f) => f.to_owned(),
        None => "<module>".to_owned(),
    }
}

/// The name of a member, qualified by the class that holds it.
pub open spec fn qualified(
    class: Option<Seq<char>>,
    sep: Seq<char>,
    name: Seq<char>,
) -> Option<Seq<char>> {
    match class {
        Some(c) => Some(c + sep + name),
        None => None,
    }
}

/// The name of a member, qualified by the class that holds it.
pub fn qualify(class: Option<&str>, sep: &str, name: &str) -> (r: Option<String>)
    ensures
        opt_text(r) == qualified(opt_str(class), sep@, name@),
{
    match class {
        Some(c) => Some(crate::text::concat3(c, sep, name)),
        None => None,
    }
}

/// Cuts a variable's value to 200 characters.
pub fn shorten(o: Option<String>) -> (r: Option<String>)
    ensures
        opt_text(r) == short_value(opt_text(o)),
{
    match o {
        Some(s) => Some(crate::text::take_chars(s.as_str(), VALUE_CHARS)),
        None => None,
    }
}

} // verus!
