//! BSL, the language of 1C:Enterprise and OneScript.

use crate::parser::syntax::{
    find_child_by_kind, line_number, line_of, node_text, parsed_tree, text_at, ts_root, SyntaxRead,
    SyntaxTree, TsNode,
};
use crate::parser::types::{
    binary_text, empty_parse_result, lemma_join, lemma_join_none, line_count, looks_binary, opt_str,
    opt_text, sha256_hex, sha256_text, CallFact, Facts, FunctionFact, ParseResult, ParsedCall,
    ParsedFunction, ParsedVariable, VariableFact, MAX_VISIT_DEPTH, PARSE_TIMEOUT_MS,
};
use crate::parser::walk::{
    caller_name, caller_of, field_of, field_text, kind_of, kind_text, or_empty, or_empty_string,
    text_in,
};
use crate::parser::ParseError;
use crate::text::{
    byte_slice, chars_of, concat3, join, joined, lowercase, slice_bytes, str_eq, text_of, texts,
    to_lowercase, trim_either, trimmed_end, trimmed_start,
};
use vstd::prelude::*;
use vstd::string::*;

verus! {

/// Whether a character may stand in a name: Latin and Cyrillic letters, digits and `_`.
pub open spec fn bsl_letter(c: char) -> bool {
    '0' <= c <= '9' || 'a' <= c <= 'z' || 'A' <= c <= 'Z' || c == '_' || 'А' <= c <= 'я' || c
        == 'Ё' || c == 'ё'
}

/// Whether a character parts words and means nothing by itself.
pub open spec fn is_gap(c: char) -> bool {
    if (c as u32) < 128 {
        c == ' ' || 9 <= c as u32 <= 13
    } else {
        !bsl_letter(c)
    }
}

/// A text from its first line feed on.
pub open spec fn from_line_feed(s: Seq<char>) -> Seq<char>
    decreases s.len(),
{
    if s.len() == 0 || s[0] == '\n' {
        s
    } else {
        from_line_feed(s.skip(1))
    }
}

/// A text without the gaps and comments that it begins with. `steps` bounds how many there are.
pub open spec fn after_gaps(s: Seq<char>, steps: nat) -> Seq<char>
    decreases steps,
{
    if steps == 0 || s.len() == 0 {
        s
    } else if is_gap(s[0]) {
        after_gaps(s.skip(1), (steps - 1) as nat)
    } else if s.len() >= 2 && s[0] == '/' && s[1] == '/' {
        after_gaps(from_line_feed(s), (steps - 1) as nat)
    } else {
        s
    }
}

/// The word that a text begins with.
pub open spec fn leading_word(s: Seq<char>) -> Seq<char>
    decreases s.len(),
{
    if s.len() > 0 && bsl_letter(s[0]) {
        seq![s[0]] + leading_word(s.skip(1))
    } else {
        Seq::empty()
    }
}

/// Whether a word is a keyword, which is given in small letters and in capitals; each letter of
/// the word may be either.
pub open spec fn is_keyword(word: Seq<char>, small: Seq<char>, capital: Seq<char>) -> bool {
    word.len() == small.len() && forall|i: int|
        0 <= i < word.len() ==> #[trigger] word[i] == small[i] || word[i] == capital[i]
}

/// Whether a word is the keyword of an exported declaration.
pub open spec fn is_export_word(word: Seq<char>) -> bool {
    is_keyword(word, "экспорт"@, "ЭКСПОРТ"@) || is_keyword(word, "export"@, "EXPORT"@)
}

/// Whether the first word of a text is the keyword of an exported declaration.
pub open spec fn begins_with_export(s: Seq<char>) -> bool {
    is_export_word(leading_word(after_gaps(s, s.len())))
}

/// Whether a declaration is exported: by a child or, for a procedure or function, by the keyword
/// that follows its arguments.
pub open spec fn exported(t: SyntaxTree, source: Seq<char>) -> bool {
    kind_of(t, "export"@) is Some || (match kind_of(t, "argument_list"@) {
        Some(args) => begins_with_export(
            byte_slice(source, args.end_byte as int, t.end_byte as int),
        ),
        None => false,
    })
}

/// The compilation directive of a declaration: the first named annotation from the child at
/// `i` on.
pub open spec fn directive_from(t: SyntaxTree, i: int, source: Seq<char>) -> Option<Seq<char>>
    decreases t.children.len() - i,
{
    if i < 0 || i >= t.children.len() {
        None
    } else {
        let name = or_empty(text_in(kind_of(t.children[i], "identifier"@), source));
        if t.children[i].kind == "annotation"@ && name.len() > 0 {
            Some("&"@ + name)
        } else {
            directive_from(t, i + 1, source)
        }
    }
}

/// How an annotation of a name overrides a procedure.
pub open spec fn override_kind(name: Seq<char>) -> Option<Seq<char>> {
    let lower = lowercase(name);
    if lower == "перед"@ || lower == "before"@ {
        Some("Перед"@)
    } else if lower == "после"@ || lower == "after"@ {
        Some("После"@)
    } else if lower == "вместо"@ || lower == "instead"@ {
        Some("Вместо"@)
    } else {
        None
    }
}

/// The procedure that an annotation names, without the quotes.
pub open spec fn override_target(t: SyntaxTree, source: Seq<char>) -> Option<Seq<char>> {
    match kind_of(t, "annotation_parameter"@) {
        Some(param) => match text_in(kind_of(param, "string"@), source) {
            Some(raw) => {
                let target = trimmed_end(trimmed_start(raw, '"', '"'), '"', '"');
                if target.len() > 0 {
                    Some(target)
                } else {
                    None
                }
            },
            None => None,
        },
        None => None,
    }
}

/// How a declaration overrides a procedure of another module, and which: from the first
/// annotation from the child at `i` on that says so.
pub open spec fn override_from(t: SyntaxTree, i: int, source: Seq<char>) -> (
    Option<Seq<char>>,
    Option<Seq<char>>,
)
    decreases t.children.len() - i,
{
    if i < 0 || i >= t.children.len() {
        (None, None)
    } else {
        let child = t.children[i];
        match text_in(kind_of(child, "identifier"@), source) {
            Some(name) => if child.kind == "annotation"@ && override_kind(name) is Some {
                (override_kind(name), override_target(child, source))
            } else {
                override_from(t, i + 1, source)
            },
            None => override_from(t, i + 1, source),
        }
    }
}

/// The arguments of a declaration, with a mark where it is exported.
pub open spec fn marked_args(args: Option<Seq<char>>, export: bool) -> Option<Seq<char>> {
    match args {
        Some(a) => if export {
            Some(a + " Экспорт"@)
        } else {
            Some(a)
        },
        None => if export {
            Some("() Экспорт"@)
        } else {
            None
        },
    }
}

/// What is known of a declaration, in words: what it is, its directive, whether it is
/// exported and what it overrides.
pub open spec fn summary_parts(
    what: Seq<char>,
    directive: Option<Seq<char>>,
    export: bool,
    over: (Option<Seq<char>>, Option<Seq<char>>),
) -> Seq<Seq<char>> {
    let a = seq![what];
    let b = match directive {
        Some(d) => a.push(d),
        None => a,
    };
    let c = if export {
        b.push("export"@)
    } else {
        b
    };
    match over {
        (Some(kind), Some(target)) => c.push("override:"@ + kind + "("@ + target + ")"@),
        _ => c,
    }
}

/// The procedure or function that a node declares.
pub open spec fn function_fact(t: SyntaxTree, source: Seq<char>, procedure: bool) -> FunctionFact {
    let export = exported(t, source);
    let directive = directive_from(t, 0, source);
    let over = override_from(t, 0, source);
    let what = if procedure {
        "procedure"@
    } else {
        "function"@
    };
    FunctionFact {
        name: or_empty(
            text_in(
                field_of(
                    t,
                    if procedure {
                        "proc_name"@
                    } else {
                        "func_name"@
                    },
                ),
                source,
            ),
        ),
        qualified_name: None,
        line_start: line_of(t.start_row),
        line_end: line_of(t.end_row),
        args: marked_args(text_in(kind_of(t, "argument_list"@), source), export),
        return_type: directive,
        docstring: Some(joined(summary_parts(what, directive, export, over), " "@)),
        body: text_at(t, source),
        is_async: false,
        node_hash: sha256_text(text_at(t, source)),
        override_type: over.0,
        override_target: over.1,
    }
}

/// The variable that a declaration declares.
pub open spec fn variable_facts(t: SyntaxTree, source: Seq<char>) -> Facts {
    let name = or_empty(text_in(kind_of(t, "identifier"@), source));
    if name.len() == 0 {
        Facts::none()
    } else {
        Facts::variable(
            VariableFact {
                name,
                value: if exported(t, source) {
                    Some("Экспорт"@)
                } else {
                    None
                },
                line: line_of(t.start_row),
            },
        )
    }
}

/// The variables among the children from `i` on.
pub open spec fn variables_from(t: SyntaxTree, i: int, source: Seq<char>) -> Facts
    decreases t.children.len() - i,
{
    if i < 0 || i >= t.children.len() {
        Facts::none()
    } else if t.children[i].kind == "module_var_declaration"@ {
        variable_facts(t.children[i], source).join(variables_from(t, i + 1, source))
    } else {
        variables_from(t, i + 1, source)
    }
}

/// What a child of a call statement calls: a name, or a whole chain of members.
pub open spec fn callee_text(t: SyntaxTree, source: Seq<char>) -> Seq<char> {
    if t.kind == "method_call"@ {
        or_empty(text_in(kind_of(t, "identifier"@), source))
    } else if t.kind == "member_access"@ {
        text_at(t, source)
    } else {
        Seq::empty()
    }
}

/// The calls among the children of a call statement from `i` on.
pub open spec fn calls_from(
    t: SyntaxTree,
    i: int,
    source: Seq<char>,
    func: Option<Seq<char>>,
) -> Facts
    decreases t.children.len() - i,
{
    if i < 0 || i >= t.children.len() {
        Facts::none()
    } else {
        let callee = callee_text(t.children[i], source);
        let rest = calls_from(t, i + 1, source, func);
        if callee.len() == 0 {
            rest
        } else {
            Facts::call(
                CallFact { caller: caller_of(func), callee, line: line_of(t.start_row) },
            ).join(rest)
        }
    }
}

/// The calls in the children of a node from `i` on.
pub open spec fn body_calls_from(
    t: SyntaxTree,
    i: int,
    source: Seq<char>,
    func: Option<Seq<char>>,
    depth: nat,
) -> Facts
    decreases t, 0nat, t.children.len() - i,
{
    if i < 0 || i >= t.children.len() {
        Facts::none()
    } else {
        body_calls(t.children[i], source, func, depth).join(
            body_calls_from(t, i + 1, source, func, depth),
        )
    }
}

/// The calls in a node, `depth` levels into the body.
pub open spec fn body_calls(
    t: SyntaxTree,
    source: Seq<char>,
    func: Option<Seq<char>>,
    depth: nat,
) -> Facts
    decreases t, 1nat, 0nat,
{
    if depth > MAX_VISIT_DEPTH {
        Facts::none()
    } else if t.kind == "call_statement"@ {
        calls_from(t, 0, source, func)
    } else {
        body_calls_from(t, 0, source, func, depth + 1)
    }
}

/// Whether a child of a declaration holds none of its statements.
pub open spec fn outside_body(kind: Seq<char>) -> bool {
    kind == "proc_declaration"@ || kind == "func_declaration"@ || kind == "argument_list"@ || kind
        == "annotation"@ || kind == "export"@
}

/// The calls in the body of a declaration, in its children from `i` on.
pub open spec fn declaration_calls(
    t: SyntaxTree,
    i: int,
    source: Seq<char>,
    func: Option<Seq<char>>,
) -> Facts
    decreases t.children.len() - i,
{
    if i < 0 || i >= t.children.len() {
        Facts::none()
    } else {
        let child = t.children[i];
        let own = if child.kind == "call_statement"@ {
            calls_from(child, 0, source, func)
        } else if outside_body(child.kind) {
            Facts::none()
        } else {
            body_calls(child, source, func, 1)
        };
        own.join(declaration_calls(t, i + 1, source, func))
    }
}

/// The procedure or function that a node declares, and the calls in its body.
pub open spec fn declaration_facts(t: SyntaxTree, source: Seq<char>, procedure: bool) -> Facts {
    let fact = function_fact(t, source, procedure);
    if fact.name.len() == 0 {
        Facts::none()
    } else {
        Facts::function(fact).join(declaration_calls(t, 0, source, Some(fact.name)))
    }
}

/// The facts in the children of a node from `i` on.
pub open spec fn children_facts(t: SyntaxTree, i: int, source: Seq<char>, depth: nat) -> Facts
    decreases t, 0nat, t.children.len() - i,
{
    if i < 0 || i >= t.children.len() {
        Facts::none()
    } else {
        node_facts(t.children[i], source, depth).join(children_facts(t, i + 1, source, depth))
    }
}

/// The facts in a node, `depth` levels into the walk.
pub open spec fn node_facts(t: SyntaxTree, source: Seq<char>, depth: nat) -> Facts
    decreases t, 1nat, 0nat,
{
    if depth > MAX_VISIT_DEPTH {
        Facts::none()
    } else if t.kind == "proc_declaration"@ {
        declaration_facts(t, source, true)
    } else if t.kind == "func_declaration"@ {
        declaration_facts(t, source, false)
    } else if t.kind == "module_var_block"@ {
        variables_from(t, 0, source)
    } else if t.kind == "call_statement"@ {
        calls_from(t, 0, source, None)
    } else {
        children_facts(t, 0, source, depth + 1)
    }
}

/// The facts in a BSL module.
pub open spec fn bsl_facts(root: SyntaxTree, source: Seq<char>) -> Facts {
    children_facts(root, 0, source, 0)
}

/// Whether there are neither classes nor imports.
pub open spec fn no_containers(f: Facts) -> bool {
    f.classes.len() == 0 && f.imports.len() == 0
}

proof fn lemma_variables_only(t: SyntaxTree, i: int, source: Seq<char>)
    ensures
        no_containers(variables_from(t, i, source)),
    decreases t.children.len() - i,
{
    if 0 <= i < t.children.len() {
        lemma_variables_only(t, i + 1, source);
    }
}

proof fn lemma_calls_only(t: SyntaxTree, i: int, source: Seq<char>, func: Option<Seq<char>>)
    ensures
        no_containers(calls_from(t, i, source, func)),
    decreases t.children.len() - i,
{
    if 0 <= i < t.children.len() {
        lemma_calls_only(t, i + 1, source, func);
    }
}

proof fn lemma_body_calls_only(
    t: SyntaxTree,
    i: int,
    source: Seq<char>,
    func: Option<Seq<char>>,
    depth: nat,
)
    ensures
        no_containers(body_calls_from(t, i, source, func, depth)),
    decreases t, t.children.len() - i,
{
    if 0 <= i < t.children.len() {
        lemma_body_calls_only(t, i + 1, source, func, depth);
        lemma_body_calls_only(t.children[i], 0, source, func, depth + 1);
        lemma_calls_only(t.children[i], 0, source, func);
        assert(no_containers(body_calls(t.children[i], source, func, depth)));
    }
}

proof fn lemma_declaration_calls_only(
    t: SyntaxTree,
    i: int,
    source: Seq<char>,
    func: Option<Seq<char>>,
)
    ensures
        no_containers(declaration_calls(t, i, source, func)),
    decreases t.children.len() - i,
{
    if 0 <= i < t.children.len() {
        lemma_declaration_calls_only(t, i + 1, source, func);
        lemma_calls_only(t.children[i], 0, source, func);
        lemma_body_calls_only(t.children[i], 0, source, func, 2);
    }
}

proof fn lemma_no_containers(t: SyntaxTree, i: int, source: Seq<char>, depth: nat)
    ensures
        no_containers(children_facts(t, i, source, depth)),
    decreases t, t.children.len() - i,
{
    if 0 <= i < t.children.len() {
        let node = t.children[i];
        lemma_no_containers(t, i + 1, source, depth);
        lemma_no_containers(node, 0, source, depth + 1);
        lemma_variables_only(node, 0, source);
        lemma_calls_only(node, 0, source, None);
        lemma_declaration_calls_only(
            node,
            0,
            source,
            Some(function_fact(node, source, true).name),
        );
        lemma_declaration_calls_only(
            node,
            0,
            source,
            Some(function_fact(node, source, false).name),
        );
        assert(no_containers(node_facts(node, source, depth)));
    }
}

/// A BSL module has neither classes nor imports.
pub proof fn law_no_classes_and_no_imports(root: SyntaxTree, source: Seq<char>)
    ensures
        no_containers(bsl_facts(root, source)),
{
    lemma_no_containers(root, 0, source, 0);
}

fn letter(c: char) -> (r: bool)
    ensures
        r == bsl_letter(c),
{
    ('0' <= c && c <= '9') || ('a' <= c && c <= 'z') || ('A' <= c && c <= 'Z') || c == '_' || (
    'А' <= c && c <= 'я') || c == 'Ё' || c == 'ё'
}

fn gap(c: char) -> (r: bool)
    ensures
        r == is_gap(c),
{
    if (c as u32) < 128 {
        c == ' ' || (9 <= c as u32 && c as u32 <= 13)
    } else {
        !letter(c)
    }
}

fn line_feed_at(chars: &[char], from: usize) -> (r: usize)
    requires
        from <= chars@.len(),
    ensures
        from <= r <= chars@.len(),
        chars@.skip(r as int) == from_line_feed(chars@.skip(from as int)),
{
    let mut i: usize = from;
    while i < chars.len() && chars[i] != '\n'
        invariant
            from <= i <= chars@.len(),
            from_line_feed(chars@.skip(from as int)) == from_line_feed(chars@.skip(i as int)),
        decreases chars.len() - i,
    {
        proof {
            assert(chars@.skip(i as int)[0] == chars@[i as int]);
            assert(chars@.skip(i as int).skip(1) =~= chars@.skip(i + 1));
        }
        i += 1;
    }
    proof {
        if i < chars.len() {
            assert(chars@.skip(i as int)[0] == chars@[i as int]);
        }
    }
    i
}

fn first_word_at(chars: &[char]) -> (r: usize)
    ensures
        r <= chars@.len(),
        chars@.skip(r as int) == after_gaps(chars@, chars@.len()),
{
    let mut i: usize = 0;
    let mut steps: usize = chars.len();
    proof {
        assert(chars@.skip(0) =~= chars@);
    }
    while steps > 0 && i < chars.len()
        invariant
            i <= chars@.len(),
            after_gaps(chars@, chars@.len()) == after_gaps(chars@.skip(i as int), steps as nat),
        decreases steps,
    {
        let ghost rest = chars@.skip(i as int);
        proof {
            assert(rest[0] == chars@[i as int]);
            assert(rest.skip(1) =~= chars@.skip(i + 1));
            if i + 1 < chars.len() {
                assert(rest[1] == chars@[i + 1]);
            }
        }
        if gap(chars[i]) {
            i += 1;
        } else if chars[i] == '/' && i + 1 < chars.len() && chars[i + 1] == '/' {
            i = line_feed_at(chars, i);
        } else {
            return i;
        }
        steps -= 1;
    }
    i
}

fn word_end(chars: &[char], from: usize) -> (r: usize)
    requires
        from <= chars@.len(),
    ensures
        from <= r <= chars@.len(),
        chars@.subrange(from as int, r as int) == leading_word(chars@.skip(from as int)),
{
    let mut i: usize = from;
    proof {
        assert(chars@.subrange(from as int, from as int) + leading_word(chars@.skip(from as int))
            =~= leading_word(chars@.skip(from as int)));
    }
    while i < chars.len() && letter(chars[i])
        invariant
            from <= i <= chars@.len(),
            chars@.subrange(from as int, i as int) + leading_word(chars@.skip(i as int))
                == leading_word(chars@.skip(from as int)),
        decreases chars.len() - i,
    {
        proof {
            let rest = chars@.skip(i as int);
            assert(rest[0] == chars@[i as int]);
            assert(rest.skip(1) =~= chars@.skip(i + 1));
            assert(chars@.subrange(from as int, i + 1) =~= chars@.subrange(from as int, i as int)
                + seq![rest[0]]);
            assert(chars@.subrange(from as int, i + 1) + leading_word(rest.skip(1))
                =~= chars@.subrange(from as int, i as int) + leading_word(rest));
        }
        i += 1;
    }
    proof {
        let rest = chars@.skip(i as int);
        if i < chars.len() {
            assert(rest[0] == chars@[i as int]);
        }
        assert(leading_word(rest) =~= Seq::<char>::empty());
        assert(chars@.subrange(from as int, i as int) + leading_word(rest) =~= chars@.subrange(
            from as int,
            i as int,
        ));
    }
    i
}

fn keyword(word: &[char], small: &str, capital: &str) -> (r: bool)
    requires
        small@.len() == capital@.len(),
    ensures
        r == is_keyword(word@, small@, capital@),
{
    let a = chars_of(small);
    let b = chars_of(capital);
    if word.len() != a.len() {
        return false;
    }
    let mut i: usize = 0;
    while i < word.len()
        invariant
            i <= word@.len(),
            a@ == small@,
            b@ == capital@,
            word@.len() == a@.len() == b@.len(),
            forall|j: int| 0 <= j < i ==> #[trigger] word@[j] == small@[j] || word@[j] == capital@[j],
        decreases word.len() - i,
    {
        if word[i] != a[i] && word[i] != b[i] {
            return false;
        }
        i += 1;
    }
    true
}

fn export_follows(text: &str) -> (r: bool)
    ensures
        r == begins_with_export(text@),
{
    let chars = chars_of(text);
    let from: usize = first_word_at(chars.as_slice());
    let to: usize = word_end(chars.as_slice(), from);
    let word = chars_of(text_of(chars.as_slice(), from, to).as_str());
    proof {
        reveal_strlit("экспорт");
        reveal_strlit("ЭКСПОРТ");
        reveal_strlit("export");
        reveal_strlit("EXPORT");
    }
    keyword(word.as_slice(), "экспорт", "ЭКСПОРТ") || keyword(word.as_slice(), "export", "EXPORT")
}

fn has_export_child<N: SyntaxRead>(node: &N, source: &str) -> (r: bool)
    ensures
        r == exported(node.tree(), source@),
{
    if find_child_by_kind(node, "export").is_some() {
        return true;
    }
    match find_child_by_kind(node, "argument_list") {
        Some(args) => export_follows(slice_bytes(source, args.end_byte(), node.end_byte())),
        None => false,
    }
}

fn extract_annotation<N: SyntaxRead>(node: &N, source: &str) -> (r: Option<String>)
    ensures
        opt_text(r) == directive_from(node.tree(), 0, source@),
{
    let n: usize = node.child_count();
    let mut i: usize = 0;
    while i < n
        invariant
            i <= n,
            n == node.tree().children.len(),
            directive_from(node.tree(), 0, source@) == directive_from(
                node.tree(),
                i as int,
                source@,
            ),
        decreases n - i,
    {
        let c = node.child(i);
        if str_eq(c.kind(), "annotation") {
            let name = or_empty_string(kind_text(&c, "identifier", source));
            if !name.as_str().is_empty() {
                let out = concat3("&", name.as_str(), "");
                proof {
                    reveal_strlit("");
                    assert("&"@ + name@ + ""@ == "&"@ + name@);
                }
                return Some(out);
            }
        }
        i += 1;
    }
    None
}

fn override_type_of(name: &str) -> (r: Option<String>)
    ensures
        opt_text(r) == override_kind(name@),
{
    let lower = to_lowercase(name);
    if str_eq(lower.as_str(), "перед") || str_eq(lower.as_str(), "before") {
        Some("Перед".to_owned())
    } else if str_eq(lower.as_str(), "после") || str_eq(lower.as_str(), "after") {
        Some("После".to_owned())
    } else if str_eq(lower.as_str(), "вместо") || str_eq(lower.as_str(), "instead") {
        Some("Вместо".to_owned())
    } else {
        None
    }
}

fn override_target_of<N: SyntaxRead>(node: &N, source: &str) -> (r: Option<String>)
    ensures
        opt_text(r) == override_target(node.tree(), source@),
{
    if let Some(param) = find_child_by_kind(node, "annotation_parameter") {
        if let Some(raw) = kind_text(&param, "string", source) {
            let target = trim_either(raw.as_str(), '"', '"');
            if !target.as_str().is_empty() {
                return Some(target);
            }
        }
    }
    None
}

fn extract_override_info<N: SyntaxRead>(node: &N, source: &str) -> (r: (
    Option<String>,
    Option<String>,
))
    ensures
        (opt_text(r.0), opt_text(r.1)) == override_from(node.tree(), 0, source@),
{
    let n: usize = node.child_count();
    let mut i: usize = 0;
    while i < n
        invariant
            i <= n,
            n == node.tree().children.len(),
            override_from(node.tree(), 0, source@) == override_from(
                node.tree(),
                i as int,
                source@,
            ),
        decreases n - i,
    {
        let c = node.child(i);
        if str_eq(c.kind(), "annotation") {
            if let Some(name) = kind_text(&c, "identifier", source) {
                let kind = override_type_of(name.as_str());
                if kind.is_some() {
                    return (kind, override_target_of(&c, source));
                }
            }
        }
        i += 1;
    }
    (None, None)
}

fn visit_children<N: SyntaxRead>(node: &N, source: &str, depth: usize, out: &mut ParseResult)
    requires
        depth <= MAX_VISIT_DEPTH + 1,
    ensures
        final(out).facts() == old(out).facts().join(
            children_facts(node.tree(), 0, source@, depth as nat),
        ),
        final(out).lines_total == old(out).lines_total,
    decreases node.tree(), 0nat,
{
    broadcast use {lemma_join, lemma_join_none};

    let n: usize = node.child_count();
    let mut i: usize = 0;
    let ghost all = old(out).facts().join(children_facts(node.tree(), 0, source@, depth as nat));
    while i < n
        invariant
            i <= n,
            n == node.tree().children.len(),
            depth <= MAX_VISIT_DEPTH + 1,
            out.lines_total == old(out).lines_total,
            out.facts().join(children_facts(node.tree(), i as int, source@, depth as nat)) == all,
        decreases n - i,
    {
        broadcast use {lemma_join, lemma_join_none};

        let c = node.child(i);
        visit_node(&c, source, depth, out);
        i += 1;
    }
}

fn visit_node<N: SyntaxRead>(node: &N, source: &str, depth: usize, out: &mut ParseResult)
    requires
        depth <= MAX_VISIT_DEPTH + 1,
    ensures
        final(out).facts() == old(out).facts().join(
            node_facts(node.tree(), source@, depth as nat),
        ),
        final(out).lines_total == old(out).lines_total,
    decreases node.tree(), 1nat,
{
    broadcast use {lemma_join, lemma_join_none};

    if depth > MAX_VISIT_DEPTH {
        return;
    }
    let kind = node.kind();
    if str_eq(kind, "proc_declaration") {
        visit_proc_or_func(node, source, true, out);
    } else if str_eq(kind, "func_declaration") {
        visit_proc_or_func(node, source, false, out);
    } else if str_eq(kind, "module_var_block") {
        visit_variables(node, source, out);
    } else if str_eq(kind, "call_statement") {
        visit_call_statement(node, source, None, out);
    } else {
        visit_children(node, source, depth + 1, out);
    }
}

fn visit_proc_or_func<N: SyntaxRead>(
    node: &N,
    source: &str,
    procedure: bool,
    out: &mut ParseResult,
)
    ensures
        final(out).facts() == old(out).facts().join(
            declaration_facts(node.tree(), source@, procedure),
        ),
        final(out).lines_total == old(out).lines_total,
{
    broadcast use {lemma_join, lemma_join_none};

    let name_field = if procedure {
        "proc_name"
    } else {
        "func_name"
    };
    let name = or_empty_string(field_text(node, name_field, source));
    if name.as_str().is_empty() {
        return;
    }
    let export: bool = has_export_child(node, source);
    let args = match kind_text(node, "argument_list", source) {
        Some(a) => if export {
            let mut marked = a;
            marked.append(" Экспорт");
            Some(marked)
        } else {
            Some(a)
        },
        None => if export {
            Some("() Экспорт".to_owned())
        } else {
            None
        },
    };
    let directive = extract_annotation(node, source);
    let over = extract_override_info(node, source);
    let mut parts: Vec<String> = Vec::new();
    parts.push(
        (if procedure {
            "procedure"
        } else {
            "function"
        }).to_owned(),
    );
    if let Some(d) = &directive {
        parts.push(d.clone());
    }
    if export {
        parts.push("export".to_owned());
    }
    if let Some(kind) = &over.0 {
        if let Some(target) = &over.1 {
            let mut text = "override:".to_owned();
            text.append(kind.as_str());
            text.append("(");
            text.append(target.as_str());
            text.append(")");
            parts.push(text);
        }
    }
    let ghost fact = function_fact(node.tree(), source@, procedure);
    proof {
        let what = if procedure {
            "procedure"@
        } else {
            "function"@
        };
        assert(texts(parts@) =~= summary_parts(
            what,
            opt_text(directive),
            export,
            (opt_text(over.0), opt_text(over.1)),
        ));
    }
    let docstring = Some(join(&parts, " "));
    let body = node_text(node, source);
    let f = ParsedFunction {
        name: name.clone(),
        qualified_name: None,
        line_start: line_number(node.start_row()),
        line_end: line_number(node.end_row()),
        args,
        return_type: directive,
        docstring,
        body: body.to_owned(),
        is_async: false,
        node_hash: sha256_hex(body),
        override_type: over.0,
        override_target: over.1,
    };
    assert(f@ == fact);
    out.add_function(f);
    let func = Some(name.as_str());
    let n: usize = node.child_count();
    let mut i: usize = 0;
    let ghost all = old(out).facts().join(declaration_facts(node.tree(), source@, procedure));
    while i < n
        invariant
            i <= n,
            n == node.tree().children.len(),
            opt_str(func) == Some(fact.name),
            out.lines_total == old(out).lines_total,
            out.facts().join(
                declaration_calls(node.tree(), i as int, source@, Some(fact.name)),
            ) == all,
        decreases n - i,
    {
        broadcast use {lemma_join, lemma_join_none};

        let c = node.child(i);
        let kind = c.kind();
        if str_eq(kind, "call_statement") {
            visit_call_statement(&c, source, func, out);
        } else if str_eq(kind, "proc_declaration") || str_eq(kind, "func_declaration") || str_eq(
            kind,
            "argument_list",
        ) || str_eq(kind, "annotation") || str_eq(kind, "export") {
        } else {
            visit_body_for_calls(&c, source, func, 1, out);
        }
        i += 1;
    }
}

fn visit_body_for_calls<N: SyntaxRead>(
    node: &N,
    source: &str,
    func: Option<&str>,
    depth: usize,
    out: &mut ParseResult,
)
    requires
        depth <= MAX_VISIT_DEPTH + 1,
    ensures
        final(out).facts() == old(out).facts().join(
            body_calls(node.tree(), source@, opt_str(func), depth as nat),
        ),
        final(out).lines_total == old(out).lines_total,
    decreases node.tree(),
{
    broadcast use {lemma_join, lemma_join_none};

    if depth > MAX_VISIT_DEPTH {
        return;
    }
    if str_eq(node.kind(), "call_statement") {
        visit_call_statement(node, source, func, out);
        return;
    }
    let n: usize = node.child_count();
    let mut i: usize = 0;
    let ghost all = old(out).facts().join(
        body_calls(node.tree(), source@, opt_str(func), depth as nat),
    );
    while i < n
        invariant
            i <= n,
            n == node.tree().children.len(),
            depth <= MAX_VISIT_DEPTH,
            out.lines_total == old(out).lines_total,
            out.facts().join(
                body_calls_from(
                    node.tree(),
                    i as int,
                    source@,
                    opt_str(func),
                    (depth + 1) as nat,
                ),
            ) == all,
        decreases n - i,
    {
        broadcast use {lemma_join, lemma_join_none};

        let c = node.child(i);
        visit_body_for_calls(&c, source, func, depth + 1, out);
        i += 1;
    }
}

fn visit_call_statement<N: SyntaxRead>(
    node: &N,
    source: &str,
    func: Option<&str>,
    out: &mut ParseResult,
)
    ensures
        final(out).facts() == old(out).facts().join(
            calls_from(node.tree(), 0, source@, opt_str(func)),
        ),
        final(out).lines_total == old(out).lines_total,
{
    broadcast use {lemma_join, lemma_join_none};

    let line: usize = line_number(node.start_row());
    let n: usize = node.child_count();
    let mut i: usize = 0;
    let ghost all = old(out).facts().join(calls_from(node.tree(), 0, source@, opt_str(func)));
    while i < n
        invariant
            i <= n,
            n == node.tree().children.len(),
            line == line_of(node.tree().start_row),
            out.lines_total == old(out).lines_total,
            out.facts().join(calls_from(node.tree(), i as int, source@, opt_str(func))) == all,
        decreases n - i,
    {
        broadcast use {lemma_join, lemma_join_none};

        let c = node.child(i);
        let callee = if str_eq(c.kind(), "method_call") {
            or_empty_string(kind_text(&c, "identifier", source))
        } else if str_eq(c.kind(), "member_access") {
            node_text(&c, source).to_owned()
        } else {
            String::new()
        };
        if !callee.as_str().is_empty() {
            out.add_call(ParsedCall { caller: caller_name(func), callee, line });
        }
        i += 1;
    }
}

fn visit_variables<N: SyntaxRead>(node: &N, source: &str, out: &mut ParseResult)
    ensures
        final(out).facts() == old(out).facts().join(variables_from(node.tree(), 0, source@)),
        final(out).lines_total == old(out).lines_total,
{
    broadcast use {lemma_join, lemma_join_none};

    let n: usize = node.child_count();
    let mut i: usize = 0;
    let ghost all = old(out).facts().join(variables_from(node.tree(), 0, source@));
    while i < n
        invariant
            i <= n,
            n == node.tree().children.len(),
            out.lines_total == old(out).lines_total,
            out.facts().join(variables_from(node.tree(), i as int, source@)) == all,
        decreases n - i,
    {
        broadcast use {lemma_join, lemma_join_none};

        let c = node.child(i);
        if str_eq(c.kind(), "module_var_declaration") {
            visit_module_var(&c, source, out);
        }
        i += 1;
    }
}

fn visit_module_var<N: SyntaxRead>(node: &N, source: &str, out: &mut ParseResult)
    ensures
        final(out).facts() == old(out).facts().join(variable_facts(node.tree(), source@)),
        final(out).lines_total == old(out).lines_total,
{
    broadcast use lemma_join_none;

    let name = or_empty_string(kind_text(node, "identifier", source));
    if name.as_str().is_empty() {
        return;
    }
    let value = if has_export_child(node, source) {
        Some("Экспорт".to_owned())
    } else {
        None
    };
    out.add_variable(ParsedVariable { name, value, line: line_number(node.start_row()) });
}

/// Extracts the facts from the syntax tree of a BSL module.
pub fn extract_bsl<N: SyntaxRead>(root: &N, source: &str) -> (r: ParseResult)
    ensures
        r.facts() == bsl_facts(root.tree(), source@),
        r.lines_total == line_count(source@),
{
    let mut out = empty_parse_result(source);
    visit_children(root, source, 0, &mut out);
    proof {
        let f = bsl_facts(root.tree(), source@);
        assert(Facts::none().join(f) =~= f);
    }
    out
}

/// The syntax tree of a BSL text.
pub uninterp spec fn bsl_syntax(source: Seq<char>) -> SyntaxTree;

/// Parses with the grammar of `tree_sitter_onescript` through `tree_sitter::Parser::parse`. The
/// grammar's version is one that fits, so there is no error. No tree means that the time ran
/// out; a tree is a function of the text. An empty text is reduced to a root without children
/// in two steps, before the clock is looked at.
#[allow(deprecated)]
#[verifier::external_body]
fn parse_bsl_tree(source: &str, timeout_micros: u64) -> (r: Result<
    Option<tree_sitter::Tree>,
    tree_sitter::LanguageError,
>)
    ensures
        r is Ok,
        source@.len() == 0 ==> r->Ok_0 is Some && parsed_tree(r->Ok_0->0).children.len() == 0,
        r matches Ok(Some(tree)) ==> parsed_tree(tree) == bsl_syntax(source@),
{
    let mut parser = tree_sitter::Parser::new();
    parser.set_language(&tree_sitter_onescript::LANGUAGE.into())?;
    parser.set_timeout_micros(timeout_micros);
    Ok(parser.parse(source, None))
}

/// Whether a call of `parse_bsl_tree` with this text and this limit of time ended with a tree, or with
/// none.
pub closed spec fn bsl_outcome(
    source: Seq<char>,
    micros: u64,
    outcome: Option<tree_sitter::Tree>,
) -> bool {
    exists|text: &str|
        text@ == source && #[trigger] call_ensures(parse_bsl_tree, (text, micros), Ok(outcome))
}

/// What is known of a BSL text, given what `tree_sitter` made of it. Where the time ran out
/// there are no facts.
pub fn bsl_result(
    parsed: Result<Option<tree_sitter::Tree>, tree_sitter::LanguageError>,
    source: &str,
) -> (r: Result<ParseResult, ParseError>)
    ensures
        match parsed {
            Ok(Some(tree)) => r is Ok && r->Ok_0.lines_total == line_count(source@)
                && r->Ok_0.facts() == bsl_facts(parsed_tree(tree), source@),
            Ok(None) => r is Ok && r->Ok_0.lines_total == line_count(source@) && r->Ok_0.facts()
                == Facts::none(),
            Err(_) => r == Err::<ParseResult, ParseError>(ParseError::Language),
        },
{
    match parsed {
        Ok(Some(tree)) => {
            let root = TsNode { node: ts_root(&tree) };
            Ok(extract_bsl(&root, source))
        },
        Ok(None) => Ok(empty_parse_result(source)),
        Err(_) => Err(ParseError::Language),
    }
}

/// The parser of BSL modules. The language has neither classes nor imports.
pub struct BslParser;

impl BslParser {
    pub fn new() -> (r: Self)
        ensures
            r == BslParser,
    {
        BslParser
    }

    pub fn language_name(&self) -> (r: &'static str)
        ensures
            r@ == "bsl"@,
    {
        "bsl"
    }

    pub fn file_extensions(&self) -> (r: Vec<&'static str>)
        ensures
            r@.len() == 2,
            r@[0]@ == "bsl"@,
            r@[1]@ == "os"@,
    {
        vec!["bsl", "os"]
    }

    /// Parses a BSL module. One that looks binary or runs over the time stays without facts, and
    /// so does an empty text.
    pub fn parse(&self, source: &str, file_path: &str) -> (r: Result<ParseResult, ParseError>)
        ensures
            r is Ok,
            r->Ok_0.lines_total == line_count(source@),
            r->Ok_0.facts() == Facts::none() || (!binary_text(source@) && r->Ok_0.facts()
                == bsl_facts(bsl_syntax(source@), source@)),
            source@.len() == 0 ==> r->Ok_0.facts() == Facts::none(),
            !binary_text(source@) ==> exists|outcome: Option<tree_sitter::Tree>| #[trigger]
                bsl_outcome(source@, 10_000_000, outcome) && r->Ok_0.facts() == (match outcome {
                    Some(tree) => bsl_facts(parsed_tree(tree), source@),
                    None => Facts::none(),
                }),
    {
        if looks_binary(source) {
            return Ok(empty_parse_result(source));
        }
        let parsed = parse_bsl_tree(source, PARSE_TIMEOUT_MS * 1000);
        assert(bsl_outcome(source@, 10_000_000, parsed->Ok_0));
        bsl_result(parsed, source)
    }
}

} // verus!
