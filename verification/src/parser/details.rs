//! What is read off single nodes of a syntax tree.

use crate::parser::bsl::{
    after_gaps, begins_with_export, bsl_letter, directive_from, from_line_feed, is_export_word,
    is_gap, leading_word, marked_args, override_from, override_kind, override_target,
    summary_parts,
};
use crate::parser::c::{declared_name, declared_name_from, descendant_from};
use crate::parser::c_sharp::using_target;
use crate::parser::php::{base_names, phpdoc};
use crate::parser::places::node_at;
use crate::parser::ruby::required_file;
use crate::parser::swift::{kind_texts, parameters};
use crate::parser::syntax::{kind_index_from, line_of, text_at, SyntaxTree};
use crate::parser::types::{binary_text, line_count, occurrences};
use crate::parser::walk::{
    child_texts, doc_before, doc_start, field_of, first_named, is_doc, kind_of,
    last_named, named_before, named_from, or_empty, qualified, short_value, text_in, DocStyle,
};
use crate::text::{
    begins_with, finishes_with, joined, law_beginnings_and_ends,
    law_trimming_takes_two_characters_away, lemma_encode_concat, trimmed_start,
};
use vstd::prelude::*;
use vstd::string::*;
use vstd::utf8::*;

verus! {

/// Under a field name stands the child of the first field of that name; nothing stands there where
/// no field has the name.
pub proof fn law_field_leads_to_its_child(t: SyntaxTree, name: Seq<char>, i: int)
    requires
        forall|j: int|
            0 <= j < t.fields.len() ==> (#[trigger] t.fields[j]).1 < t.children.len(),
    ensures
        0 <= i < t.fields.len() && t.fields[i].0 == name && (forall|j: int|
            0 <= j < i ==> (#[trigger] t.fields[j]).0 != name) ==> field_of(t, name) == Some(
            t.children[t.fields[i].1 as int],
        ),
        (forall|j: int| 0 <= j < t.fields.len() ==> (#[trigger] t.fields[j]).0 != name)
            ==> field_of(t, name) is None,
{
    lemma_field_index(t, name, i, 0);
}

proof fn lemma_field_index(t: SyntaxTree, name: Seq<char>, i: int, from: int)
    requires
        0 <= from <= t.fields.len(),
        forall|j: int|
            0 <= j < t.fields.len() ==> (#[trigger] t.fields[j]).1 < t.children.len(),
    ensures
        from <= i < t.fields.len() && t.fields[i].0 == name && (forall|j: int|
            from <= j < i ==> (#[trigger] t.fields[j]).0 != name) ==> t.field_index_from(name, from)
            == Some(t.fields[i].1 as int),
        (forall|j: int| from <= j < t.fields.len() ==> (#[trigger] t.fields[j]).0 != name)
            ==> t.field_index_from(name, from) is None,
    decreases t.fields.len() - from,
{
    if from < t.fields.len() {
        lemma_field_index(t, name, i, from + 1);
    }
}

/// Of the children of a kind the first one is found; none is where there is none.
pub proof fn law_first_child_of_a_kind_is_found(t: SyntaxTree, kind: Seq<char>, i: int)
    ensures
        0 <= i < t.children.len() && t.children[i].kind == kind && (forall|j: int|
            0 <= j < i ==> (#[trigger] t.children[j]).kind != kind) ==> kind_of(t, kind) == Some(
            t.children[i],
        ),
        (forall|j: int| 0 <= j < t.children.len() ==> (#[trigger] t.children[j]).kind != kind)
            ==> kind_of(t, kind) is None,
{
    lemma_kind_index(t, kind, i, 0);
}

proof fn lemma_kind_index(t: SyntaxTree, kind: Seq<char>, i: int, from: int)
    requires
        0 <= from <= t.children.len(),
    ensures
        from <= i < t.children.len() && t.children[i].kind == kind && (forall|j: int|
            from <= j < i ==> (#[trigger] t.children[j]).kind != kind) ==> kind_index_from(
            t,
            kind,
            from,
        ) == Some(i),
        (forall|j: int| from <= j < t.children.len() ==> (#[trigger] t.children[j]).kind != kind)
            ==> kind_index_from(t, kind, from) is None,
    decreases t.children.len() - from,
{
    if from < t.children.len() {
        lemma_kind_index(t, kind, i, from + 1);
    }
}

/// The first named child has no named one before it, the last one none behind it; both are there
/// where any child is named.
pub proof fn law_first_and_last_named_child(t: SyntaxTree, i: int)
    ensures
        0 <= i < t.children.len() && t.children[i].named && (forall|j: int|
            0 <= j < i ==> !(#[trigger] t.children[j]).named) ==> first_named(t) == Some(
            t.children[i],
        ),
        0 <= i < t.children.len() && t.children[i].named && (forall|j: int|
            i < j < t.children.len() ==> !(#[trigger] t.children[j]).named) ==> last_named(t)
            == Some(i),
        (forall|j: int| 0 <= j < t.children.len() ==> !(#[trigger] t.children[j]).named)
            ==> first_named(t) is None && last_named(t) is None,
{
    lemma_named_from(t, i, 0);
    lemma_named_before(t, i, t.children.len() as int);
}

proof fn lemma_named_from(t: SyntaxTree, i: int, from: int)
    requires
        0 <= from <= t.children.len(),
    ensures
        from <= i < t.children.len() && t.children[i].named && (forall|j: int|
            from <= j < i ==> !(#[trigger] t.children[j]).named) ==> named_from(t, from) == Some(i),
        (forall|j: int| from <= j < t.children.len() ==> !(#[trigger] t.children[j]).named)
            ==> named_from(t, from) is None,
    decreases t.children.len() - from,
{
    if from < t.children.len() {
        lemma_named_from(t, i, from + 1);
    }
}

proof fn lemma_named_before(t: SyntaxTree, i: int, end: int)
    requires
        0 <= end <= t.children.len(),
    ensures
        0 <= i < end && t.children[i].named && (forall|j: int|
            i < j < end ==> !(#[trigger] t.children[j]).named) ==> named_before(t, end) == Some(i),
        (forall|j: int| 0 <= j < end ==> !(#[trigger] t.children[j]).named) ==> named_before(
            t,
            end,
        ) is None,
    decreases end,
{
    if end > 0 {
        lemma_named_before(t, i, end - 1);
    }
}

/// The documentation of a child is the run of documentation comments right before it, as long as it
/// is: each of its lines is the text of one of them. There is none where no such comment stands
/// right before the child.
pub proof fn law_documentation_is_the_run_of_comments(
    style: DocStyle,
    parent: SyntaxTree,
    start: int,
    i: int,
    source: Seq<char>,
)
    requires
        0 <= start <= i <= parent.children.len(),
        forall|j: int| start <= j < i ==> is_doc(style, #[trigger] parent.children[j], source),
        start > 0 ==> !is_doc(style, parent.children[start - 1], source),
    ensures
        start == i ==> doc_before(style, parent, i, source) is None,
        start < i ==> ({
            let lines = Seq::new(
                (i - start) as nat,
                |k: int| text_at(parent.children[start + k], source),
            );
            doc_before(style, parent, i, source) == Some(joined(lines, "\n"@))
        }),
{
    lemma_doc_start(style, parent, start, i, source);
    if start < i {
        assert(child_texts(parent, start, i, source) =~= Seq::new(
            (i - start) as nat,
            |k: int| text_at(parent.children[start + k], source),
        ));
    }
}

proof fn lemma_doc_start(
    style: DocStyle,
    parent: SyntaxTree,
    start: int,
    i: int,
    source: Seq<char>,
)
    requires
        0 <= start <= i <= parent.children.len(),
        forall|j: int| start <= j < i ==> is_doc(style, #[trigger] parent.children[j], source),
        start > 0 ==> !is_doc(style, parent.children[start - 1], source),
    ensures
        doc_start(style, parent, i, source) == start,
    decreases i - start,
{
    if start < i {
        assert(is_doc(style, parent.children[i - 1], source));
        lemma_doc_start(style, parent, start, i - 1, source);
    }
}

/// Lines are counted from one. Of a value only the first two hundred characters are kept. A member
/// is qualified by its class where it has one.
pub proof fn law_small_details(row: nat, value: Seq<char>, class: Seq<char>, name: Seq<char>)
    requires
        row <= u32::MAX - 1,
    ensures
        line_of(row) == row + 1,
        value.len() <= 200 ==> short_value(Some(value)) == Some(value),
        value.len() > 200 ==> short_value(Some(value)) == Some(value.take(200)),
        short_value(None) is None,
        qualified(None, "."@, name) is None,
        begins_with(qualified(Some(class), "."@, name)->0, class),
        finishes_with(qualified(Some(class), "."@, name)->0, name),
{
    assert(class + "."@ + name =~= class + ("."@ + name));
    law_beginnings_and_ends(class, class, "."@ + name);
    law_beginnings_and_ends(class, name, class + "."@);
}

/// A line feed ends a line: what stands before it makes one line more than what follows. A text
/// without line feeds is one line, and an empty text none.
pub proof fn law_line_feeds_end_lines(line: Seq<char>, rest: Seq<char>)
    requires
        forall|i: int| 0 <= i < line.len() ==> #[trigger] line[i] != '\n',
    ensures
        line_count(line + seq!['\n'] + rest) == 1 + line_count(rest),
        line_count(line) == if line.len() > 0 {
            1nat
        } else {
            0nat
        },
    decreases rest.len(),
{
    let s = line + seq!['\n'] + rest;
    lemma_no_occurrence(line, '\n');
    if line.len() > 0 {
        assert(line.last() == line[line.len() - 1]);
    }
    if rest.len() == 0 {
        assert(s.drop_last() =~= line);
        assert(s.last() == '\n');
    } else {
        let r = rest.drop_last();
        assert(s.drop_last() =~= line + seq!['\n'] + r);
        assert(s.last() == rest.last());
        law_line_feeds_end_lines(line, r);
        lemma_occurrences_behind(line, r);
    }
}

proof fn lemma_no_occurrence(s: Seq<char>, c: char)
    requires
        forall|i: int| 0 <= i < s.len() ==> #[trigger] s[i] != c,
    ensures
        occurrences(s, c) == 0,
    decreases s.len(),
{
    if s.len() > 0 {
        assert(s.last() == s[s.len() - 1]);
        assert forall|i: int| 0 <= i < s.drop_last().len() implies #[trigger] s.drop_last()[i]
            != c by {
            assert(s.drop_last()[i] == s[i]);
        }
        lemma_no_occurrence(s.drop_last(), c);
    }
}

proof fn lemma_occurrences_behind(line: Seq<char>, rest: Seq<char>)
    requires
        forall|i: int| 0 <= i < line.len() ==> #[trigger] line[i] != '\n',
    ensures
        occurrences(line + seq!['\n'] + rest, '\n') == 1 + occurrences(rest, '\n'),
    decreases rest.len(),
{
    let s = line + seq!['\n'] + rest;
    if rest.len() == 0 {
        assert(s.drop_last() =~= line);
        assert(s.last() == '\n');
        lemma_no_occurrence(line, '\n');
    } else {
        assert(s.drop_last() =~= line + seq!['\n'] + rest.drop_last());
        assert(s.last() == rest.last());
        lemma_occurrences_behind(line, rest.drop_last());
    }
}

/// A text with a zero character after fewer than 8192 bytes is binary.
pub proof fn law_early_zero_makes_a_text_binary(head: Seq<char>, tail: Seq<char>)
    requires
        encode_utf8(head).len() < 8192,
    ensures
        binary_text(head + seq!['\0'] + tail),
{
    let zero = seq!['\0'];
    let s = head + zero + tail;
    lemma_encode_concat(head + zero, tail);
    lemma_encode_concat(head, zero);
    is_ascii_chars_encode_utf8(zero);
    assert(encode_utf8(zero)[0] == 0);
    let n = encode_utf8(head).len() as int;
    assert(encode_utf8(s)[n] == 0);
}

/// The name that a C declarator declares is that of a name inside it, and there is one where there
/// is a name inside; an inner declarator with a name comes first.
pub proof fn law_declared_name_is_a_name_inside(t: SyntaxTree, place: Seq<int>, source: Seq<char>)
    ensures
        (node_at(t, place) matches Some(n) && (n.kind == "identifier"@ || n.kind
            == "field_identifier"@ || n.kind == "type_identifier"@)) ==> declared_name(t, source)
            is Some,
        declared_name(t, source) is Some ==> exists|p: Seq<int>|
            #![trigger node_at(t, p)]
            node_at(t, p) matches Some(n) && (n.kind == "identifier"@ || n.kind
                == "field_identifier"@ || n.kind == "type_identifier"@) && text_at(n, source)
                == declared_name(t, source)->0,
        t.kind == "identifier"@ ==> declared_name(t, source) == Some(text_at(t, source)),
        t.kind != "identifier"@ && t.kind != "field_identifier"@ && t.kind != "type_identifier"@
            && (field_of(t, "declarator"@) matches Some(d) && declared_name(d, source) is Some)
            ==> declared_name(t, source) == declared_name(field_of(t, "declarator"@)->0, source),
{
    lemma_name_inside_is_found(t, place, source);
    lemma_found_name_is_inside(t, source);
    lemma_field_in_range(t, "declarator"@, 0);
}

proof fn lemma_field_in_range(t: SyntaxTree, name: Seq<char>, i: int)
    ensures
        t.field_index_from(name, i) matches Some(k) ==> 0 <= k < t.children.len(),
    decreases t.fields.len() - i,
{
    if 0 <= i < t.fields.len() {
        lemma_field_in_range(t, name, i + 1);
    }
}

/// The way to a node goes through a child.
proof fn lemma_first_step(t: SyntaxTree, place: Seq<int>)
    requires
        place.len() > 0,
        node_at(t, place) is Some,
    ensures
        0 <= place[0] < t.children.len(),
        node_at(t, place) == node_at(t.children[place[0]], place.skip(1)),
    decreases place.len(),
{
    let before = place.drop_last();
    if before.len() == 0 {
        assert(place.skip(1) =~= Seq::<int>::empty());
        assert(node_at(t, before) == Some(t));
    } else {
        lemma_first_step(t, before);
        assert(place.skip(1).drop_last() =~= before.skip(1));
        assert(place.skip(1).last() == place.last());
        assert(before[0] == place[0]);
    }
}

/// A way from a child leads from its parent.
proof fn lemma_step_before(t: SyntaxTree, k: int, place: Seq<int>)
    requires
        0 <= k < t.children.len(),
    ensures
        node_at(t, seq![k] + place) == node_at(t.children[k], place),
    decreases place.len(),
{
    let whole = seq![k] + place;
    if place.len() == 0 {
        assert(whole.drop_last() =~= Seq::<int>::empty());
        assert(whole.last() == k);
        assert(node_at(t, whole.drop_last()) == Some(t));
    } else {
        lemma_step_before(t, k, place.drop_last());
        assert(whole.drop_last() =~= seq![k] + place.drop_last());
        assert(whole.last() == place.last());
    }
}

proof fn lemma_name_inside_is_found(t: SyntaxTree, place: Seq<int>, source: Seq<char>)
    ensures
        (node_at(t, place) matches Some(n) && (n.kind == "identifier"@ || n.kind
            == "field_identifier"@ || n.kind == "type_identifier"@)) ==> declared_name(t, source)
            is Some,
    decreases place.len(),
{
    if node_at(t, place) is Some && place.len() > 0 {
        lemma_first_step(t, place);
        lemma_name_inside_is_found(t.children[place[0]], place.skip(1), source);
        if declared_name(t.children[place[0]], source) is Some {
            lemma_found_among_children(t, 0, place[0], source);
        }
    }
}

proof fn lemma_found_among_children(t: SyntaxTree, i: int, k: int, source: Seq<char>)
    requires
        0 <= i <= k < t.children.len(),
        declared_name(t.children[k], source) is Some,
    ensures
        declared_name_from(t, i, source) is Some,
    decreases k - i,
{
    if i < k {
        lemma_found_among_children(t, i + 1, k, source);
    }
}

proof fn lemma_found_name_is_inside(t: SyntaxTree, source: Seq<char>)
    ensures
        declared_name(t, source) is Some ==> exists|p: Seq<int>|
            #![trigger node_at(t, p)]
            node_at(t, p) matches Some(n) && (n.kind == "identifier"@ || n.kind
                == "field_identifier"@ || n.kind == "type_identifier"@) && text_at(n, source)
                == declared_name(t, source)->0,
    decreases t, 1nat, 0nat,
{
    if t.kind == "identifier"@ || t.kind == "field_identifier"@ || t.kind == "type_identifier"@ {
        assert(node_at(t, Seq::<int>::empty()) == Some(t));
    } else {
        lemma_field_in_range(t, "declarator"@, 0);
        lemma_found_child_is_inside(t, 0, source);
        if let Some(k) = t.field_index("declarator"@) {
            if declared_name(t.children[k], source) is Some {
                lemma_found_name_is_inside(t.children[k], source);
                let p = choose|p: Seq<int>|
                    #![trigger node_at(t.children[k], p)]
                    node_at(t.children[k], p) matches Some(n) && (n.kind == "identifier"@ || n.kind
                        == "field_identifier"@ || n.kind == "type_identifier"@) && text_at(
                        n,
                        source,
                    ) == declared_name(t.children[k], source)->0;
                lemma_step_before(t, k, p);
                assert(node_at(t, seq![k] + p) is Some);
            }
        }
    }
}

proof fn lemma_found_child_is_inside(t: SyntaxTree, i: int, source: Seq<char>)
    ensures
        declared_name_from(t, i, source) is Some ==> exists|p: Seq<int>|
            #![trigger node_at(t, p)]
            node_at(t, p) matches Some(n) && (n.kind == "identifier"@ || n.kind
                == "field_identifier"@ || n.kind == "type_identifier"@) && text_at(n, source)
                == declared_name_from(t, i, source)->0,
    decreases t, 0nat, t.children.len() - i,
{
    if 0 <= i < t.children.len() {
        let child = t.children[i];
        if declared_name(child, source) is Some {
            lemma_found_name_is_inside(child, source);
            let p = choose|p: Seq<int>|
                #![trigger node_at(child, p)]
                node_at(child, p) matches Some(n) && (n.kind == "identifier"@ || n.kind
                    == "field_identifier"@ || n.kind == "type_identifier"@) && text_at(n, source)
                    == declared_name(child, source)->0;
            lemma_step_before(t, i, p);
            assert(node_at(t, seq![i] + p) is Some);
        } else {
            lemma_found_child_is_inside(t, i + 1, source);
        }
    }
}

/// A node of a kind inside another is found where there is one, and what is found is one.
pub proof fn law_descendant_of_a_kind_is_found(t: SyntaxTree, kind: Seq<char>, place: Seq<int>)
    ensures
        place.len() > 0 && (node_at(t, place) matches Some(n) && n.kind == kind)
            ==> descendant_from(t, kind, 0) is Some,
        descendant_from(t, kind, 0) matches Some(n) ==> n.kind == kind,
        (forall|i: int| 0 <= i < t.children.len() ==> (#[trigger] t.children[i]).children.len() == 0)
            ==> descendant_from(t, kind, 0) == kind_of(t, kind),
{
    lemma_descendant_is_found(t, kind, place);
    lemma_descendant_has_kind(t, kind, 0);
    if forall|i: int| 0 <= i < t.children.len() ==> (#[trigger] t.children[i]).children.len() == 0 {
        lemma_flat_descendant(t, kind, 0);
    }
}

proof fn lemma_descendant_is_found(t: SyntaxTree, kind: Seq<char>, place: Seq<int>)
    ensures
        place.len() > 0 && (node_at(t, place) matches Some(n) && n.kind == kind)
            ==> descendant_from(t, kind, 0) is Some,
    decreases place.len(),
{
    if place.len() > 0 && node_at(t, place) is Some {
        lemma_first_step(t, place);
        lemma_descendant_is_found(t.children[place[0]], kind, place.skip(1));
        assert(place.len() == 1 ==> node_at(t.children[place[0]], place.skip(1)) == Some(
            t.children[place[0]],
        ));
        if node_at(t, place)->0.kind == kind {
            lemma_descendant_from_child(t, kind, 0, place[0]);
        }
    }
}

proof fn lemma_descendant_from_child(t: SyntaxTree, kind: Seq<char>, i: int, k: int)
    requires
        0 <= i <= k < t.children.len(),
        t.children[k].kind == kind || descendant_from(t.children[k], kind, 0) is Some,
    ensures
        descendant_from(t, kind, i) is Some,
    decreases k - i,
{
    if i < k {
        lemma_descendant_from_child(t, kind, i + 1, k);
    }
}

proof fn lemma_descendant_has_kind(t: SyntaxTree, kind: Seq<char>, i: int)
    ensures
        descendant_from(t, kind, i) matches Some(n) ==> n.kind == kind,
    decreases t, t.children.len() - i,
{
    if 0 <= i < t.children.len() {
        lemma_descendant_has_kind(t.children[i], kind, 0);
        lemma_descendant_has_kind(t, kind, i + 1);
    }
}

proof fn lemma_flat_descendant(t: SyntaxTree, kind: Seq<char>, i: int)
    requires
        0 <= i,
        forall|j: int|
            0 <= j < t.children.len() ==> (#[trigger] t.children[j]).children.len() == 0,
    ensures
        descendant_from(t, kind, i) == (match kind_index_from(t, kind, i) {
            Some(k) => Some(t.children[k]),
            None => None,
        }),
    decreases t.children.len() - i,
{
    if i < t.children.len() {
        let child = t.children[i];
        assert(child.children.len() == 0);
        assert(descendant_from(child, kind, 0) is None);
        lemma_flat_descendant(t, kind, i + 1);
    }
}

/// What a class of PHP extends comes first among its bases, what it implements last; either is there
/// where it is in the text. Its documentation is the comment right before it.
pub proof fn law_php_class_names_its_bases(
    t: SyntaxTree,
    parent: SyntaxTree,
    i: int,
    source: Seq<char>,
)
    ensures
        kind_of(t, "base_clause"@) matches Some(e) ==> base_names(t, source) is Some && begins_with(
            base_names(t, source)->0,
            text_at(e, source),
        ),
        kind_of(t, "class_interface_clause"@) matches Some(e) ==> base_names(t, source) is Some
            && finishes_with(base_names(t, source)->0, text_at(e, source)),
        kind_of(t, "base_clause"@) is None && kind_of(t, "class_interface_clause"@) is None
            ==> base_names(t, source) is None,
        phpdoc(parent, i, source) matches Some(doc) ==> doc == text_at(
            parent.children[i - 1],
            source,
        ) && begins_with(doc, "/**"@),
        0 < i <= parent.children.len() && parent.children[i - 1].kind == "comment"@ && begins_with(
            text_at(parent.children[i - 1], source),
            "/**"@,
        ) ==> phpdoc(parent, i, source) is Some,
{
    let e = text_at(kind_of(t, "base_clause"@)->0, source);
    let i = text_at(kind_of(t, "class_interface_clause"@)->0, source);
    assert(e + " "@ + i =~= e + (" "@ + i));
    law_beginnings_and_ends(e, e, " "@ + i);
    law_beginnings_and_ends(e, i, e + " "@);
    law_beginnings_and_ends(e, e, Seq::empty());
    law_beginnings_and_ends(e, i, Seq::empty());
    assert(e + Seq::<char>::empty() =~= e);
    assert(Seq::<char>::empty() + i =~= i);
}

/// The texts of the children of a kind are listed in order: one more child is listed last where it
/// is of the kind, and not at all where it is not.
pub proof fn law_children_of_a_kind_are_listed(
    t: SyntaxTree,
    child: SyntaxTree,
    kind: Seq<char>,
    source: Seq<char>,
)
    ensures
        ({
            let more = SyntaxTree { children: t.children.push(child), ..t };
            kind_texts(more, kind, 0, source) == if child.kind == kind {
                kind_texts(t, kind, 0, source).push(text_at(child, source))
            } else {
                kind_texts(t, kind, 0, source)
            }
        }),
        t.children.len() == 0 ==> kind_texts(t, kind, 0, source).len() == 0,
{
    lemma_kind_texts(t, child, kind, 0, source);
}

proof fn lemma_kind_texts(
    t: SyntaxTree,
    child: SyntaxTree,
    kind: Seq<char>,
    i: int,
    source: Seq<char>,
)
    requires
        0 <= i <= t.children.len(),
    ensures
        ({
            let more = SyntaxTree { children: t.children.push(child), ..t };
            kind_texts(more, kind, i, source) == if child.kind == kind {
                kind_texts(t, kind, i, source).push(text_at(child, source))
            } else {
                kind_texts(t, kind, i, source)
            }
        }),
    decreases t.children.len() - i,
{
    let more = SyntaxTree { children: t.children.push(child), ..t };
    let text = text_at(child, source);
    if i < t.children.len() {
        lemma_kind_texts(t, child, kind, i + 1, source);
        let own = seq![text_at(t.children[i], source)];
        let rest = kind_texts(t, kind, i + 1, source);
        assert(own + rest.push(text) =~= (own + rest).push(text));
    } else {
        assert(kind_texts(more, kind, i + 1, source) =~= Seq::<Seq<char>>::empty());
        assert(seq![text] + Seq::<Seq<char>>::empty() =~= Seq::<Seq<char>>::empty().push(text));
    }
}

/// The parameters of a Swift function stand in brackets, with commas between them; a function
/// without parameters has none.
pub proof fn law_parameters_stand_in_brackets(t: SyntaxTree, source: Seq<char>)
    ensures
        parameters(t, source) is Some <==> kind_of(t, "parameter"@) is Some,
        parameters(t, source) matches Some(p) ==> p.len() >= 2 && p[0] == '(' && p.last() == ')'
            && p.subrange(1, p.len() - 1) == joined(
            kind_texts(t, "parameter"@, 0, source),
            ", "@,
        ),
{
    lemma_some_of_kind(t, "parameter"@, 0, source);
    reveal_strlit("(");
    reveal_strlit(")");
    if let Some(p) = parameters(t, source) {
        assert(p.subrange(1, p.len() - 1) =~= joined(
            kind_texts(t, "parameter"@, 0, source),
            ", "@,
        ));
    }
}

proof fn lemma_some_of_kind(t: SyntaxTree, kind: Seq<char>, i: int, source: Seq<char>)
    ensures
        kind_texts(t, kind, i, source).len() > 0 <==> kind_index_from(t, kind, i) is Some,
    decreases t.children.len() - i,
{
    if 0 <= i < t.children.len() {
        lemma_some_of_kind(t, kind, i + 1, source);
    }
}

/// A `using` directive brings in its last named child that is not the alias.
pub proof fn law_using_brings_in_the_last_name(t: SyntaxTree, i: int)
    requires
        0 <= i < t.children.len(),
        t.children[i].named,
        t.field_index("name"@) != Some(i),
        forall|j: int|
            i < j < t.children.len() && (#[trigger] t.children[j]).named ==> t.field_index("name"@)
                == Some(j),
    ensures
        using_target(t, t.children.len() as int) == Some(i),
{
    lemma_using_target(t, i, t.children.len() as int);
}

proof fn lemma_using_target(t: SyntaxTree, i: int, end: int)
    requires
        0 <= i < end <= t.children.len(),
        t.children[i].named,
        t.field_index("name"@) != Some(i),
        forall|j: int|
            i < j < t.children.len() && (#[trigger] t.children[j]).named ==> t.field_index("name"@)
                == Some(j),
    ensures
        using_target(t, end) == Some(i),
    decreases end,
{
    if i < end - 1 {
        lemma_using_target(t, i, end - 1);
    }
}

/// The file that a Ruby call brings in is its first argument without the quotes.
pub proof fn law_required_file_has_no_quotes(t: SyntaxTree, source: Seq<char>, file: Seq<char>)
    requires
        field_of(t, "arguments"@) is Some,
        first_named(field_of(t, "arguments"@)->0) is Some,
        file.len() > 0,
        file[0] != '"' && file[0] != '\'' && file.last() != '"' && file.last() != '\'',
        ({
            let text = text_at(first_named(field_of(t, "arguments"@)->0)->0, source);
            text == seq!['"'] + file + seq!['"'] || text == seq!['\''] + file + seq!['\'']
        }),
    ensures
        required_file(t, source) == Some(file),
{
    let text = text_at(first_named(field_of(t, "arguments"@)->0)->0, source);
    let quote = seq![text[0]];
    law_trimming_takes_two_characters_away(quote, file, quote, '"', '\'');
    assert(text =~= quote + file + quote);
}

/// The keyword that exports a procedure may stand behind gaps and comments; it has to be a whole
/// word, in any case.
pub proof fn law_export_may_stand_behind_comments(
    gap: char,
    comment: Seq<char>,
    s: Seq<char>,
    word: Seq<char>,
)
    requires
        is_gap(gap),
        forall|i: int| 0 <= i < comment.len() ==> #[trigger] comment[i] != '\n',
    ensures
        begins_with_export(seq![gap] + s) == begins_with_export(s),
        begins_with_export("//"@ + comment + seq!['\n'] + s) == begins_with_export(s),
        word.len() > 0 && (forall|i: int| 0 <= i < word.len() ==> bsl_letter(#[trigger] word[i]))
            && (s.len() > 0 ==> !bsl_letter(s[0])) ==> begins_with_export(word + s)
            == is_export_word(word),
{
    let a = seq![gap] + s;
    assert(a.skip(1) =~= s);
    assert(after_gaps(a, a.len()) == after_gaps(s, s.len()));
    reveal_strlit("//");
    let line = "//"@ + comment;
    let b = line + seq!['\n'] + s;
    assert(b[0] == '/' && b[1] == '/');
    let feed = seq!['\n'] + s;
    assert forall|i: int| 0 <= i < line.len() implies #[trigger] line[i] != '\n' by {
        if i >= 2 {
            assert(line[i] == comment[i - 2]);
        }
    }
    lemma_from_line_feed(line, feed);
    assert(b =~= line + feed);
    assert(feed.skip(1) =~= s);
    lemma_steps_do_not_matter(feed, (b.len() - 1) as nat, feed.len());
    assert(after_gaps(b, b.len()) == after_gaps(feed, (b.len() - 1) as nat));
    assert(after_gaps(feed, feed.len()) == after_gaps(s, s.len()));
    if word.len() > 0 && (forall|i: int| 0 <= i < word.len() ==> bsl_letter(#[trigger] word[i])) && (
    s.len() > 0 ==> !bsl_letter(s[0])) {
        let w = word + s;
        assert(bsl_letter(word[0]));
        assert(w[0] == word[0]);
        assert(after_gaps(w, w.len()) == w);
        lemma_leading_word(word, s);
    }
}

proof fn lemma_from_line_feed(line: Seq<char>, rest: Seq<char>)
    requires
        forall|i: int| 0 <= i < line.len() ==> #[trigger] line[i] != '\n',
        rest.len() > 0,
        rest[0] == '\n',
    ensures
        from_line_feed(line + rest) == rest,
    decreases line.len(),
{
    let s = line + rest;
    if line.len() == 0 {
        assert(s =~= rest);
    } else {
        let l = line.skip(1);
        assert(s[0] == line[0]);
        assert(s.skip(1) =~= l + rest);
        assert forall|i: int| 0 <= i < l.len() implies #[trigger] l[i] != '\n' by {
            assert(l[i] == line[i + 1]);
        }
        lemma_from_line_feed(l, rest);
    }
}

proof fn lemma_line_feed_is_shorter(s: Seq<char>)
    ensures
        from_line_feed(s).len() <= s.len(),
        s.len() > 0 && s[0] != '\n' ==> from_line_feed(s).len() < s.len(),
    decreases s.len(),
{
    if s.len() > 0 && s[0] != '\n' {
        lemma_line_feed_is_shorter(s.skip(1));
    }
}

proof fn lemma_steps_do_not_matter(s: Seq<char>, m: nat, n: nat)
    requires
        s.len() <= m,
        s.len() <= n,
    ensures
        after_gaps(s, m) == after_gaps(s, n),
    decreases s.len(),
{
    if s.len() > 0 {
        if is_gap(s[0]) {
            lemma_steps_do_not_matter(s.skip(1), (m - 1) as nat, (n - 1) as nat);
        } else if s.len() >= 2 && s[0] == '/' && s[1] == '/' {
            lemma_line_feed_is_shorter(s);
            lemma_steps_do_not_matter(from_line_feed(s), (m - 1) as nat, (n - 1) as nat);
        }
    }
}

proof fn lemma_leading_word(word: Seq<char>, rest: Seq<char>)
    requires
        forall|i: int| 0 <= i < word.len() ==> bsl_letter(#[trigger] word[i]),
        rest.len() > 0 ==> !bsl_letter(rest[0]),
    ensures
        leading_word(word + rest) == word,
    decreases word.len(),
{
    let s = word + rest;
    if word.len() == 0 {
        assert(s =~= rest);
        assert(leading_word(s) =~= word);
    } else {
        let w = word.skip(1);
        assert(bsl_letter(word[0]));
        assert(s[0] == word[0]);
        assert(s.skip(1) =~= w + rest);
        assert forall|i: int| 0 <= i < w.len() implies bsl_letter(#[trigger] w[i]) by {
            assert(w[i] == word[i + 1]);
        }
        lemma_leading_word(w, rest);
        assert(seq![word[0]] + w =~= word);
    }
}

/// The directive of a declaration is its first annotation with a name, and what it overrides is
/// said by the first annotation that says so.
pub proof fn law_first_annotation_counts(t: SyntaxTree, i: int, source: Seq<char>)
    requires
        0 <= i < t.children.len(),
        t.children[i].kind == "annotation"@,
        or_empty(text_in(kind_of(t.children[i], "identifier"@), source)).len() > 0,
    ensures
        ({
            let name = or_empty(text_in(kind_of(t.children[i], "identifier"@), source));
            &&& (forall|j: int|
                0 <= j < i ==> (#[trigger] t.children[j]).kind != "annotation"@) ==> directive_from(
                t,
                0,
                source,
            ) == Some("&"@ + name)
            &&& (forall|j: int|
                0 <= j < i ==> (#[trigger] t.children[j]).kind != "annotation"@) && override_kind(
                name,
            ) is Some ==> override_from(t, 0, source) == (
                override_kind(name),
                override_target(t.children[i], source),
            )
        }),
{
    lemma_first_annotation(t, i, 0, source);
}

proof fn lemma_first_annotation(t: SyntaxTree, i: int, from: int, source: Seq<char>)
    requires
        0 <= from <= i < t.children.len(),
        t.children[i].kind == "annotation"@,
        or_empty(text_in(kind_of(t.children[i], "identifier"@), source)).len() > 0,
    ensures
        ({
            let name = or_empty(text_in(kind_of(t.children[i], "identifier"@), source));
            &&& (forall|j: int|
                0 <= j < i ==> (#[trigger] t.children[j]).kind != "annotation"@) ==> directive_from(
                t,
                from,
                source,
            ) == Some("&"@ + name)
            &&& (forall|j: int|
                0 <= j < i ==> (#[trigger] t.children[j]).kind != "annotation"@) && override_kind(
                name,
            ) is Some ==> override_from(t, from, source) == (
                override_kind(name),
                override_target(t.children[i], source),
            )
        }),
    decreases i - from,
{
    if from < i {
        lemma_first_annotation(t, i, from + 1, source);
    }
}

/// The procedure that an annotation names stands there in quotes.
pub proof fn law_overridden_procedure_stands_in_quotes(
    t: SyntaxTree,
    source: Seq<char>,
    name: Seq<char>,
)
    requires
        kind_of(t, "annotation_parameter"@) is Some,
        kind_of(kind_of(t, "annotation_parameter"@)->0, "string"@) is Some,
        name.len() > 0 ==> name[0] != '"' && name.last() != '"',
        text_at(kind_of(kind_of(t, "annotation_parameter"@)->0, "string"@)->0, source) == seq!['"']
            + name + seq!['"'],
    ensures
        override_target(t, source) == if name.len() > 0 {
            Some(name)
        } else {
            None
        },
{
    let quote = seq!['"'];
    law_trimming_takes_two_characters_away(quote, name, quote, '"', '"');
    if name.len() == 0 {
        let raw = quote + name + quote;
        assert(raw[0] == '"' && raw.skip(1)[0] == '"');
        assert(raw.skip(1).skip(1).len() == 0);
        assert(trimmed_start(raw.skip(1).skip(1), '"', '"').len() == 0);
        assert(trimmed_start(raw.skip(1), '"', '"').len() == 0);
        assert(trimmed_start(raw, '"', '"').len() == 0);
    }
}

/// What is known of a declaration says what it is, then its directive, that it is exported and what
/// it overrides, each of them where it is so. The arguments of an exported one are marked.
pub proof fn law_summary_says_what_is_so(
    what: Seq<char>,
    directive: Option<Seq<char>>,
    export: bool,
    over: (Option<Seq<char>>, Option<Seq<char>>),
    args: Option<Seq<char>>,
)
    ensures
        ({
            let parts = summary_parts(what, directive, export, over);
            let d: int = if directive is Some {
                1
            } else {
                0
            };
            let e: int = if export {
                1
            } else {
                0
            };
            let o: int = if over.0 is Some && over.1 is Some {
                1
            } else {
                0
            };
            &&& parts.len() == 1 + d + e + o
            &&& parts[0] == what
            &&& directive is Some ==> parts[1] == directive->0
            &&& export ==> parts[1 + d] == "export"@
            &&& o == 1 ==> parts.last() == "override:"@ + over.0->0 + "("@ + over.1->0 + ")"@
        }),
        export ==> marked_args(args, export) is Some && finishes_with(
            marked_args(args, export)->0,
            " Экспорт"@,
        ),
        args matches Some(a) ==> marked_args(args, export) is Some && begins_with(
            marked_args(args, export)->0,
            a,
        ),
        !export ==> marked_args(args, export) == args,
{
    law_beginnings_and_ends(what, " Экспорт"@, or_empty(args));
    law_beginnings_and_ends(what, or_empty(args), " Экспорт"@);
    law_beginnings_and_ends(what, or_empty(args), Seq::empty());
    assert(or_empty(args) + Seq::<char>::empty() =~= or_empty(args));
    if args is None {
        reveal_strlit("() Экспорт");
        reveal_strlit(" Экспорт");
        assert("() Экспорт"@ =~= seq!['(', ')'] + " Экспорт"@);
        law_beginnings_and_ends(what, " Экспорт"@, seq!['(', ')']);
    }
}

} // verus!
