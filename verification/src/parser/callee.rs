//! The name of the called function, taken from the expression in the callee's place.

use crate::parser::syntax::{node_text, text_at, SyntaxRead, SyntaxTree};
use crate::parser::types::opt_text;
use crate::parser::walk::{field_of, first_named, first_named_child};
use crate::text::{chars_of, str_eq, text_of, trailing_end, trimmed_end};
use vstd::prelude::*;
use vstd::string::*;

verus! {

/// The field that holds the name in a compound node, by the node's kind.
pub open spec fn name_field(kind: Seq<char>) -> Option<Seq<char>> {
    if kind == "attribute"@ {
        Some("attribute"@)
    } else if kind == "member_expression"@ {
        Some("property"@)
    } else if kind == "member_access_expression"@ {
        Some("name"@)
    } else if kind == "member_call_expression"@ {
        Some("name"@)
    } else if kind == "scoped_call_expression"@ {
        Some("name"@)
    } else if kind == "field_expression"@ {
        Some("field"@)
    } else if kind == "scoped_identifier"@ {
        Some("name"@)
    } else if kind == "generic_function"@ {
        Some("function"@)
    } else if kind == "selector_expression"@ {
        Some("field"@)
    } else if kind == "qualified_name"@ {
        Some("name"@)
    } else if kind == "navigation_expression"@ {
        Some("suffix"@)
    } else if kind == "navigation_suffix"@ {
        Some("suffix"@)
    } else {
        None
    }
}

fn name_field_of(kind: &str) -> (r: Option<&'static str>)
    ensures
        match r {
            Some(f) => name_field(kind@) == Some(f@),
            None => name_field(kind@) is None,
        },
{
    if str_eq(kind, "attribute") {
        Some("attribute")
    } else if str_eq(kind, "member_expression") {
        Some("property")
    } else if str_eq(kind, "member_access_expression") {
        Some("name")
    } else if str_eq(kind, "member_call_expression") {
        Some("name")
    } else if str_eq(kind, "scoped_call_expression") {
        Some("name")
    } else if str_eq(kind, "field_expression") {
        Some("field")
    } else if str_eq(kind, "scoped_identifier") {
        Some("name")
    } else if str_eq(kind, "generic_function") {
        Some("function")
    } else if str_eq(kind, "selector_expression") {
        Some("field")
    } else if str_eq(kind, "qualified_name") {
        Some("name")
    } else if str_eq(kind, "navigation_expression") {
        Some("suffix")
    } else if str_eq(kind, "navigation_suffix") {
        Some("suffix")
    } else {
        None
    }
}

/// Whether a node only wraps the expression inside it.
pub open spec fn is_wrapper(kind: Seq<char>) -> bool {
    kind == "parenthesized_expression"@ || kind == "non_null_expression"@
}

/// How many steps down a callee's expression are taken.
pub const MAX_UNWRAP_STEPS: usize = 16;

/// The node that names the callee, after at most `steps` steps down from `t`; none where a
/// compound node lacks its name.
pub open spec fn name_node(t: SyntaxTree, steps: nat) -> Option<SyntaxTree>
    decreases steps,
{
    if steps == 0 {
        Some(t)
    } else if is_wrapper(t.kind) && first_named(t) is Some {
        name_node(first_named(t)->0, (steps - 1) as nat)
    } else {
        match name_field(t.kind) {
            Some(f) => match field_of(t, f) {
                Some(next) => name_node(next, (steps - 1) as nat),
                None => None,
            },
            None => Some(t),
        }
    }
}

/// The name of the function that an expression in the callee's place calls; none where the
/// result of an expression is called.
pub open spec fn callee_of(t: SyntaxTree, source: Seq<char>) -> Option<Seq<char>> {
    match name_node(t, MAX_UNWRAP_STEPS as nat) {
        Some(n) => if plain_name(text_at(n, source)) {
            Some(text_at(n, source))
        } else {
            None
        },
        None => None,
    }
}

/// Finds the name of the called function.
pub fn callee_name<N: SyntaxRead>(node: &N, source: &str) -> (r: Option<String>)
    ensures
        opt_text(r) == callee_of(node.tree(), source@),
{
    callee_after(node, source, MAX_UNWRAP_STEPS)
}

fn callee_after<N: SyntaxRead>(node: &N, source: &str, steps: usize) -> (r: Option<String>)
    ensures
        opt_text(r) == (match name_node(node.tree(), steps as nat) {
            Some(n) => if plain_name(text_at(n, source@)) {
                Some(text_at(n, source@))
            } else {
                None
            },
            None => None,
        }),
    decreases steps,
{
    if steps > 0 {
        if str_eq(node.kind(), "parenthesized_expression") || str_eq(
            node.kind(),
            "non_null_expression",
        ) {
            if let Some(inner) = first_named_child(node) {
                return callee_after(&inner, source, steps - 1);
            }
        }
        if let Some(field) = name_field_of(node.kind()) {
            return match node.field(field) {
                Some(next) => callee_after(&next, source, steps - 1),
                None => None,
            };
        }
    }
    let text = node_text(node, source);
    if is_plain_name(text) {
        Some(text.to_owned())
    } else {
        None
    }
}

/// Whether a character that is not of ASCII is a letter or a number in Unicode.
pub uninterp spec fn unicode_alphanumeric(c: char) -> bool;

/// Whether a character is a letter or a number.
pub open spec fn alphanumeric(c: char) -> bool {
    if (c as u32) < 128 {
        '0' <= c <= '9' || 'a' <= c <= 'z' || 'A' <= c <= 'Z'
    } else {
        unicode_alphanumeric(c)
    }
}

/// Calls `char::is_alphanumeric`. Among the ASCII characters these are the digits and the
/// Latin letters.
#[verifier::external_body]
fn char_is_alphanumeric(c: char) -> (r: bool)
    ensures
        (c as u32) < 128 ==> r == ('0' <= c <= '9' || 'a' <= c <= 'z' || 'A' <= c <= 'Z'),
        (c as u32) >= 128 ==> r == unicode_alphanumeric(c),
{
    c.is_alphanumeric()
}

/// Whether a character may stand in a name.
pub open spec fn name_char(c: char) -> bool {
    alphanumeric(c) || c == '_' || c == '$'
}

/// Whether a text is one identifier; question and exclamation marks may follow it.
pub open spec fn plain_name(text: Seq<char>) -> bool {
    let core = trimmed_end(text, '?', '!');
    core.len() > 0 && forall|i: int| 0 <= i < core.len() ==> name_char(#[trigger] core[i])
}

proof fn lemma_trimmed_end(text: Seq<char>)
    ensures
        trimmed_end(text, '?', '!').len() <= text.len(),
        forall|i: int|
            0 <= i < text.len() ==> (#[trigger] text[i] == '?' || text[i] == '!' || (i
                < trimmed_end(text, '?', '!').len() && trimmed_end(text, '?', '!')[i] == text[i])),
    decreases text.len(),
{
    if text.len() > 0 && (text.last() == '?' || text.last() == '!') {
        let shorter = text.drop_last();
        lemma_trimmed_end(shorter);
        assert forall|i: int| 0 <= i < text.len() implies (#[trigger] text[i] == '?' || text[i]
            == '!' || (i < trimmed_end(text, '?', '!').len() && trimmed_end(text, '?', '!')[i]
            == text[i])) by {
            if i < shorter.len() {
                assert(shorter[i] == text[i]);
            }
        }
    }
}

/// A name holds no brackets, no dots, no spaces and no line breaks: of the ASCII characters only
/// letters, digits, `_`, `$`, `?` and `!`.
pub proof fn law_names_are_single_words(text: Seq<char>)
    requires
        plain_name(text),
    ensures
        text.len() > 0,
        forall|i: int|
            0 <= i < text.len() && (#[trigger] text[i] as u32) < 128 ==> alphanumeric(text[i])
                || text[i] == '_' || text[i] == '$' || text[i] == '?' || text[i] == '!',
{
    lemma_trimmed_end(text);
    let core = trimmed_end(text, '?', '!');
    assert forall|i: int| 0 <= i < text.len() && (#[trigger] text[i] as u32) < 128 implies
        alphanumeric(text[i]) || text[i] == '_' || text[i] == '$' || text[i] == '?' || text[i]
        == '!' by {
        if text[i] != '?' && text[i] != '!' {
            assert(name_char(core[i]));
        }
    }
}

fn name_chars(chars: &[char], from: usize, to: usize) -> (r: bool)
    requires
        from <= to <= chars@.len(),
    ensures
        r == (forall|i: int| from <= i < to ==> name_char(#[trigger] chars@[i])),
{
    let mut i: usize = from;
    while i < to
        invariant
            from <= i <= to <= chars@.len(),
            forall|j: int| from <= j < i ==> name_char(#[trigger] chars@[j]),
        decreases to - i,
    {
        let c: char = chars[i];
        if !(char_is_alphanumeric(c) || c == '_' || c == '$') {
            assert(!name_char(chars@[i as int]));
            return false;
        }
        i += 1;
    }
    true
}

/// Whether a text can be the name of a function: one identifier, without brackets, spaces
/// and line breaks. A trailing `?` or `!` is part of a name.
pub fn is_plain_name(text: &str) -> (r: bool)
    ensures
        r == plain_name(text@),
{
    let chars = chars_of(text);
    let end: usize = trailing_end(chars.as_slice(), 0, '?', '!');
    proof {
        assert(chars@.skip(0) == chars@);
        let core = chars@.subrange(0, end as int);
        assert(core == trimmed_end(text@, '?', '!'));
        assert forall|i: int| 0 <= i < end implies core[i] == #[trigger] chars@[i] by {}
        assert((forall|i: int| 0 <= i < end ==> name_char(#[trigger] chars@[i])) ==> (forall|
            i: int,
        |
            0 <= i < core.len() ==> name_char(#[trigger] core[i])));
        assert((forall|i: int| 0 <= i < core.len() ==> name_char(#[trigger] core[i])) ==> (forall|
            i: int,
        |
            0 <= i < end ==> name_char(#[trigger] chars@[i]))) by {
            if forall|i: int| 0 <= i < core.len() ==> name_char(#[trigger] core[i]) {
                assert forall|i: int| 0 <= i < end implies name_char(#[trigger] chars@[i]) by {
                    assert(name_char(core[i]));
                }
            }
        }
    }
    end > 0 && name_chars(chars.as_slice(), 0, end)
}

/// The parts of a text between the dots.
pub open spec fn dot_parts(text: Seq<char>) -> Seq<Seq<char>>
    decreases text.len(),
{
    match first_dot(text, 0) {
        None => seq![text],
        Some(k) => if 0 <= k < text.len() {
            seq![text.take(k)] + dot_parts(text.skip(k + 1))
        } else {
            seq![text]
        },
    }
}

/// Where the first dot from `i` on stands.
pub open spec fn first_dot(text: Seq<char>, i: int) -> Option<int>
    decreases text.len() - i,
{
    if i < 0 || i >= text.len() {
        None
    } else if text[i] == '.' {
        Some(i)
    } else {
        first_dot(text, i + 1)
    }
}

/// Whether a text is a chain of names with dots between them.
pub open spec fn plain_qualifier(text: Seq<char>) -> bool {
    text.len() > 0 && forall|i: int|
        0 <= i < dot_parts(text).len() ==> plain_name(#[trigger] dot_parts(text)[i])
}

/// Whether a text can be a qualifier: a chain of names with dots between them, without
/// brackets, indices and line breaks.
pub fn is_plain_qualifier(text: &str) -> (r: bool)
    ensures
        r == plain_qualifier(text@),
{
    let chars = chars_of(text);
    if chars.len() == 0 {
        return false;
    }
    let mut from: usize = 0;
    let mut i: usize = 0;
    let ghost mut done: int = 0;
    assert(chars@.skip(0) == chars@);
    while i < chars.len()
        invariant
            from <= i <= chars@.len(),
            chars@ == text@,
            0 <= done <= dot_parts(text@).len(),
            dot_parts(text@).skip(done) == dot_parts(chars@.skip(from as int)),
            first_dot(chars@.skip(from as int), 0) == first_dot(
                chars@.skip(from as int),
                i - from,
            ),
            forall|k: int| 0 <= k < done ==> plain_name(#[trigger] dot_parts(text@)[k]),
        decreases chars.len() - i,
    {
        let ghost rest = chars@.skip(from as int);
        assert(rest[i - from] == chars@[i as int]);
        if chars[i] == '.' {
            let part = text_of(chars.as_slice(), from, i);
            proof {
                assert(part@ == rest.take(i - from));
                assert(dot_parts(rest)[0] == part@);
                assert(dot_parts(rest).len() >= 1);
                assert(dot_parts(text@).skip(done).len() == dot_parts(text@).len() - done);
                assert(dot_parts(text@)[done] == dot_parts(text@).skip(done)[0]);
            }
            if !is_plain_name(part.as_str()) {
                return false;
            }
            proof {
                assert(rest.skip(i - from + 1) == chars@.skip(i + 1));
                assert(dot_parts(text@).skip(done + 1) == dot_parts(text@).skip(done).skip(1));
                assert(dot_parts(rest).skip(1) == dot_parts(chars@.skip(i + 1)));
                done = done + 1;
            }
            from = i + 1;
        }
        i += 1;
    }
    let part = text_of(chars.as_slice(), from, i);
    proof {
        let rest = chars@.skip(from as int);
        assert(part@ == rest);
        assert(dot_parts(rest) == seq![rest]);
        assert(dot_parts(text@).skip(done).len() == dot_parts(text@).len() - done);
        assert(dot_parts(text@)[done] == dot_parts(text@).skip(done)[0]);
        assert(dot_parts(text@).len() == done + 1);
    }
    is_plain_name(part.as_str())
}

/// Whether a compound expression of a kind has its name under a field.
pub open spec fn has_name_under(kind: Seq<char>, field: Seq<char>) -> bool {
    ||| kind == "attribute"@ && field == "attribute"@
    ||| kind == "member_expression"@ && field == "property"@
    ||| kind == "member_access_expression"@ && field == "name"@
    ||| kind == "member_call_expression"@ && field == "name"@
    ||| kind == "scoped_call_expression"@ && field == "name"@
    ||| kind == "field_expression"@ && field == "field"@
    ||| kind == "scoped_identifier"@ && field == "name"@
    ||| kind == "generic_function"@ && field == "function"@
    ||| kind == "selector_expression"@ && field == "field"@
    ||| kind == "qualified_name"@ && field == "name"@
    ||| kind == "navigation_expression"@ && field == "suffix"@
    ||| kind == "navigation_suffix"@ && field == "suffix"@
}

/// A call of a member is a call of the name of the member, whatever stands before it; a wrapped
/// callee is what stands inside; and a callee that is a name is that name.
pub proof fn law_member_is_called_by_its_name(
    t: SyntaxTree,
    field: Seq<char>,
    source: Seq<char>,
    steps: nat,
)
    ensures
        has_name_under(t.kind, field) && !is_wrapper(t.kind) && field_of(t, field) is Some
            ==> name_node(t, steps + 1) == name_node(field_of(t, field)->0, steps),
        has_name_under(t.kind, field) && !is_wrapper(t.kind) && field_of(t, field) is None
            ==> callee_of(t, source) is None,
        (t.kind == "parenthesized_expression"@ || t.kind == "non_null_expression"@) && first_named(
            t,
        ) is Some ==> name_node(t, steps + 1) == name_node(first_named(t)->0, steps),
        name_field(t.kind) is None && !is_wrapper(t.kind) ==> callee_of(t, source) == if plain_name(
            text_at(t, source),
        ) {
            Some(text_at(t, source))
        } else {
            None
        },
{
    lemma_compound_kinds();
}

/// The kinds of compound expressions are different ones.
proof fn lemma_compound_kinds()
    ensures
        forall|kind: Seq<char>, field: Seq<char>| #[trigger]
            has_name_under(kind, field) ==> name_field(kind) == Some(field),
{
    reveal_strlit("attribute");
    reveal_strlit("member_expression");
    reveal_strlit("member_access_expression");
    reveal_strlit("member_call_expression");
    reveal_strlit("scoped_call_expression");
    reveal_strlit("field_expression");
    reveal_strlit("scoped_identifier");
    reveal_strlit("generic_function");
    reveal_strlit("selector_expression");
    reveal_strlit("qualified_name");
    reveal_strlit("navigation_expression");
    reveal_strlit("navigation_suffix");
    assert("attribute"@.len() == 9);
    assert("member_expression"@.len() == 17 && "member_expression"@[0] == 'm');
    assert("member_access_expression"@.len() == 24);
    assert("member_call_expression"@.len() == 22 && "member_call_expression"@[0] == 'm');
    assert("scoped_call_expression"@.len() == 22 && "scoped_call_expression"@[0] == 's');
    assert("field_expression"@.len() == 16 && "field_expression"@[0] == 'f');
    assert("scoped_identifier"@.len() == 17 && "scoped_identifier"@[0] == 's');
    assert("generic_function"@.len() == 16 && "generic_function"@[0] == 'g');
    assert("selector_expression"@.len() == 19);
    assert("qualified_name"@.len() == 14);
    assert("navigation_expression"@.len() == 21);
    assert("navigation_suffix"@.len() == 17 && "navigation_suffix"@[0] == 'n');
}

/// An identifier is a name, and so is one with question and exclamation marks behind it.
pub proof fn law_identifiers_are_names(core: Seq<char>, marks: Seq<char>)
    requires
        core.len() > 0,
        forall|i: int| 0 <= i < core.len() ==> name_char(#[trigger] core[i]),
        forall|i: int| 0 <= i < marks.len() ==> #[trigger] marks[i] == '?' || marks[i] == '!',
    ensures
        plain_name(core + marks),
    decreases marks.len(),
{
    let text = core + marks;
    if marks.len() == 0 {
        assert(text =~= core);
        assert(name_char(core.last()));
        assert(trimmed_end(text, '?', '!') == text);
    } else {
        assert(text.drop_last() =~= core + marks.drop_last());
        assert(text.last() == marks.last());
        law_identifiers_are_names(core, marks.drop_last());
        assert(trimmed_end(text, '?', '!') == trimmed_end(text.drop_last(), '?', '!'));
    }
}

/// A chain of names with dots between them is a qualifier where the first part is a name and the
/// rest is a qualifier.
pub proof fn law_qualifiers_are_chains_of_names(first: Seq<char>, rest: Seq<char>)
    requires
        forall|i: int| 0 <= i < first.len() ==> #[trigger] first[i] != '.',
    ensures
        rest.len() > 0 ==> (plain_qualifier(first + seq!['.'] + rest) == (plain_name(first)
            && plain_qualifier(rest))),
        plain_qualifier(first) == (first.len() > 0 && plain_name(first)),
{
    let text = first + seq!['.'] + rest;
    let n = first.len() as int;
    lemma_first_dot(text, n, 0);
    assert(text.take(n) =~= first);
    assert(text.skip(n + 1) =~= rest);
    assert(dot_parts(text) == seq![first] + dot_parts(rest));
    lemma_no_dot_from(first, 0);
    assert(dot_parts(first) == seq![first]);
    let parts = dot_parts(text);
    assert(parts[0] == first);
    assert forall|i: int| 0 <= i < dot_parts(rest).len() implies parts[i + 1]
        == #[trigger] dot_parts(rest)[i] by {}
    if plain_qualifier(text) && rest.len() > 0 {
        assert(plain_name(parts[0]));
        assert forall|i: int| 0 <= i < dot_parts(rest).len() implies plain_name(
            #[trigger] dot_parts(rest)[i],
        ) by {
            assert(plain_name(parts[i + 1]));
        }
    }
    if plain_name(first) && plain_qualifier(rest) {
        assert forall|i: int| 0 <= i < parts.len() implies plain_name(#[trigger] parts[i]) by {
            if i > 0 {
                assert(parts[i] == dot_parts(rest)[i - 1]);
            }
        }
    }
    assert(dot_parts(first)[0] == first);
}

proof fn lemma_first_dot(text: Seq<char>, n: int, i: int)
    requires
        0 <= i <= n < text.len(),
        text[n] == '.',
        forall|j: int| i <= j < n ==> #[trigger] text[j] != '.',
    ensures
        first_dot(text, i) == Some(n),
    decreases n - i,
{
    if i < n {
        lemma_first_dot(text, n, i + 1);
    }
}

proof fn lemma_no_dot_from(text: Seq<char>, i: int)
    requires
        0 <= i <= text.len(),
        forall|j: int| i <= j < text.len() ==> #[trigger] text[j] != '.',
    ensures
        first_dot(text, i) is None,
    decreases text.len() - i,
{
    if i < text.len() {
        lemma_no_dot_from(text, i + 1);
    }
}

} // verus!
