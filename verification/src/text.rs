//! Text helpers: comparison, slicing by byte offsets, decimal numbers.

use vstd::prelude::*;
use vstd::string::*;
use vstd::utf8::*;

verus! {

/// `String::push` appends one character.
pub assume_specification[ String::push ](s: &mut String, c: char)
    ensures
        final(s)@ == old(s)@.push(c),
;

/// Two texts with the same bytes are the same text.
pub proof fn lemma_same_bytes_same_text(a: Seq<char>, b: Seq<char>)
    ensures
        (encode_utf8(a) == encode_utf8(b)) <==> (a == b),
{
    encode_utf8_decode_utf8(a);
    encode_utf8_decode_utf8(b);
}

/// Whether two texts are equal.
pub fn str_eq(a: &str, b: &str) -> (r: bool)
    ensures
        r == (a@ == b@),
{
    let x = a.as_bytes();
    let y = b.as_bytes();
    proof {
        lemma_same_bytes_same_text(a@, b@);
    }
    if x.len() != y.len() {
        return false;
    }
    let mut i: usize = 0;
    while i < x.len()
        invariant
            i <= x.len(),
            x.len() == y.len(),
            x@.take(i as int) == y@.take(i as int),
            x@ == encode_utf8(a@),
            y@ == encode_utf8(b@),
            (encode_utf8(a@) == encode_utf8(b@)) <==> (a@ == b@),
        decreases x.len() - i,
    {
        if x[i] != y[i] {
            assert(x@[i as int] != y@[i as int]);
            return false;
        }
        assert(x@.take(i + 1) == x@.take(i as int).push(x@[i as int]));
        assert(y@.take(i + 1) == y@.take(i as int).push(y@[i as int]));
        i += 1;
    }
    assert(x@.take(i as int) == x@);
    assert(y@.take(i as int) == y@);
    true
}

/// The characters of a text, one by one.
pub fn chars_of(s: &str) -> (r: Vec<char>)
    ensures
        r@ == s@,
{
    let mut out: Vec<char> = Vec::new();
    for c in it: s.chars()
        invariant
            out@ == it.seq().take(it.index()),
            it.seq() == s@,
    {
        out.push(c);
        assert(it.seq().take(it.index() + 1) == it.seq().take(it.index()).push(c));
    }
    out
}

/// The text made of the characters `from..to` of `chars`.
pub fn text_of(chars: &[char], from: usize, to: usize) -> (r: String)
    requires
        from <= to <= chars@.len(),
    ensures
        r@ == chars@.subrange(from as int, to as int),
{
    let mut out = String::new();
    let mut i: usize = from;
    while i < to
        invariant
            from <= i <= to <= chars@.len(),
            out@ == chars@.subrange(from as int, i as int),
        decreases to - i,
    {
        out.push(chars[i]);
        assert(chars@.subrange(from as int, i + 1) == chars@.subrange(
            from as int,
            i as int,
        ).push(chars@[i as int]));
        i += 1;
    }
    out
}

/// The characters of `source` between two byte offsets; empty where the offsets
/// do not delimit whole characters of it.
pub open spec fn byte_slice(source: Seq<char>, start: int, end: int) -> Seq<char> {
    let b = encode_utf8(source);
    if 0 <= start <= end <= b.len() && is_char_boundary(b, start) && is_char_boundary(b, end) {
        decode_utf8(b.subrange(start, end))
    } else {
        Seq::empty()
    }
}

/// Cuts `source` at two byte offsets.
pub fn slice_bytes<'a>(source: &'a str, start: usize, end: usize) -> (r: &'a str)
    ensures
        r@ == byte_slice(source@, start as int, end as int),
{
    let n: usize = source.as_bytes().len();
    let ghost b = encode_utf8(source@);
    proof {
        encode_utf8_valid_utf8(source@);
    }
    if start <= end && end <= n && source.is_char_boundary(start) && source.is_char_boundary(end) {
        let head = source.split_at(end).0;
        proof {
            valid_utf8_split(b, end as int);
            encode_utf8_valid_utf8(head@);
            assert(encode_utf8(head@) == b.subrange(0, end as int));
            lemma_boundary_of_prefix(b, start as int, end as int);
        }
        let tail = head.split_at(start).1;
        proof {
            assert(encode_utf8(tail@) == b.subrange(start as int, end as int));
            encode_utf8_decode_utf8(tail@);
        }
        tail
    } else {
        proof {
            reveal_strlit("");
        }
        ""
    }
}

proof fn lemma_boundary_of_prefix(b: Seq<u8>, start: int, end: int)
    requires
        valid_utf8(b),
        0 <= start <= end <= b.len(),
        is_char_boundary(b, start),
        is_char_boundary(b, end),
    ensures
        is_char_boundary(b.subrange(0, end), start),
{
    let head = b.subrange(0, end);
    valid_utf8_split(b, end);
    if start == end {
        is_char_boundary_start_end_of_seq(head);
    } else {
        is_char_boundary_iff_not_is_continuation_byte(b, start);
        is_char_boundary_iff_not_is_continuation_byte(head, start);
    }
}

/// The decimal digits of a number.
pub open spec fn decimal(n: nat) -> Seq<char>
    decreases n,
{
    if n < 10 {
        seq![digit(n)]
    } else {
        decimal(n / 10).push(digit(n % 10))
    }
}

/// The character of one decimal digit.
pub open spec fn digit(n: nat) -> char {
    (48 + n) as char
}

fn digit_char(n: u64) -> (r: char)
    requires
        n < 10,
    ensures
        r == digit(n as nat),
{
    match n {
        0 => '0',
        1 => '1',
        2 => '2',
        3 => '3',
        4 => '4',
        5 => '5',
        6 => '6',
        7 => '7',
        8 => '8',
        _ => '9',
    }
}

/// Appends the decimal digits of `n`.
pub fn push_decimal(out: &mut String, n: u64)
    ensures
        final(out)@ == old(out)@ + decimal(n as nat),
    decreases n,
{
    if n < 10 {
        out.push(digit_char(n));
        assert(old(out)@.push(digit(n as nat)) == old(out)@ + seq![digit(n as nat)]);
    } else {
        push_decimal(out, n / 10);
        out.push(digit_char(n % 10));
        assert((old(out)@ + decimal((n / 10) as nat)).push(digit((n % 10) as nat)) == old(out)@
            + decimal((n / 10) as nat).push(digit((n % 10) as nat)));
    }
}

/// The texts of a list of strings.
pub open spec fn texts(v: Seq<String>) -> Seq<Seq<char>> {
    v.map_values(|s: String| s@)
}

/// The parts one after another, with `sep` between each two.
pub open spec fn joined(parts: Seq<Seq<char>>, sep: Seq<char>) -> Seq<char>
    decreases parts.len(),
{
    if parts.len() == 0 {
        Seq::empty()
    } else if parts.len() == 1 {
        parts[0]
    } else {
        joined(parts.drop_last(), sep) + sep + parts.last()
    }
}

/// Joins the parts with `sep` between each two.
pub fn join(parts: &Vec<String>, sep: &str) -> (r: String)
    ensures
        r@ == joined(texts(parts@), sep@),
{
    let mut out = String::new();
    let mut i: usize = 0;
    while i < parts.len()
        invariant
            i <= parts@.len(),
            out@ == joined(texts(parts@).take(i as int), sep@),
        decreases parts.len() - i,
    {
        proof {
            assert(texts(parts@).take(i + 1).drop_last() == texts(parts@).take(i as int));
        }
        if i > 0 {
            out.append(sep);
        }
        out.append(parts[i].as_str());
        assert(out@ == joined(texts(parts@).take(i + 1), sep@));
        i += 1;
    }
    assert(texts(parts@).take(i as int) == texts(parts@));
    out
}

/// `a`, `sep` and `b` one after another.
pub fn concat3(a: &str, sep: &str, b: &str) -> (r: String)
    ensures
        r@ == a@ + sep@ + b@,
{
    let mut out = String::new();
    out.append(a);
    out.append(sep);
    out.append(b);
    assert(out@ == a@ + sep@ + b@);
    out
}

/// Whether `chars` holds `part` at `at`.
pub open spec fn holds_at(chars: Seq<char>, part: Seq<char>, at: int) -> bool {
    0 <= at && at + part.len() <= chars.len() && chars.subrange(at, at + part.len()) == part
}

/// Whether `chars` holds `part` at `at`.
pub fn part_at(chars: &[char], part: &[char], at: usize) -> (r: bool)
    ensures
        r == holds_at(chars@, part@, at as int),
{
    if at > chars.len() || part.len() > chars.len() - at {
        return false;
    }
    let mut i: usize = 0;
    while i < part.len()
        invariant
            i <= part@.len(),
            at + part@.len() <= chars.len(),
            forall|j: int| 0 <= j < i ==> #[trigger] part@[j] == chars@[at + j],
        decreases part.len() - i,
    {
        if chars[at + i] != part[i] {
            assert(chars@.subrange(at as int, at + part@.len())[i as int] != part@[i as int]);
            return false;
        }
        i += 1;
    }
    assert(chars@.subrange(at as int, at + part@.len()) == part@);
    true
}

/// Whether a text begins with `prefix`.
pub open spec fn begins_with(s: Seq<char>, prefix: Seq<char>) -> bool {
    holds_at(s, prefix, 0)
}

/// Whether a text ends with `suffix`.
pub open spec fn finishes_with(s: Seq<char>, suffix: Seq<char>) -> bool {
    holds_at(s, suffix, s.len() - suffix.len())
}

/// Whether `s` begins with `prefix`.
pub fn starts_with(s: &str, prefix: &str) -> (r: bool)
    ensures
        r == begins_with(s@, prefix@),
{
    let chars = chars_of(s);
    let part = chars_of(prefix);
    part_at(chars.as_slice(), part.as_slice(), 0)
}

/// Whether `s` ends with `suffix`.
pub fn ends_with(s: &str, suffix: &str) -> (r: bool)
    ensures
        r == finishes_with(s@, suffix@),
{
    let chars = chars_of(s);
    let part = chars_of(suffix);
    if part.len() > chars.len() {
        false
    } else {
        part_at(chars.as_slice(), part.as_slice(), chars.len() - part.len())
    }
}

/// A text without the characters `a` and `b` at its beginning.
pub open spec fn trimmed_start(s: Seq<char>, a: char, b: char) -> Seq<char>
    decreases s.len(),
{
    if s.len() > 0 && (s[0] == a || s[0] == b) {
        trimmed_start(s.skip(1), a, b)
    } else {
        s
    }
}

/// A text without the characters `a` and `b` at its end.
pub open spec fn trimmed_end(s: Seq<char>, a: char, b: char) -> Seq<char>
    decreases s.len(),
{
    if s.len() > 0 && (s.last() == a || s.last() == b) {
        trimmed_end(s.drop_last(), a, b)
    } else {
        s
    }
}

/// How many leading characters of `chars` are `a` or `b`.
pub fn leading(chars: &[char], a: char, b: char) -> (r: usize)
    ensures
        r <= chars@.len(),
        trimmed_start(chars@, a, b) == chars@.skip(r as int),
{
    let mut i: usize = 0;
    assert(chars@.skip(0) == chars@);
    while i < chars.len() && (chars[i] == a || chars[i] == b)
        invariant
            i <= chars@.len(),
            trimmed_start(chars@, a, b) == trimmed_start(chars@.skip(i as int), a, b),
        decreases chars.len() - i,
    {
        assert(chars@.skip(i as int).skip(1) == chars@.skip(i + 1));
        i += 1;
    }
    i
}

/// Where the characters that are not trailing `a` or `b` end in `chars`, from `from` on.
pub fn trailing_end(chars: &[char], from: usize, a: char, b: char) -> (r: usize)
    requires
        from <= chars@.len(),
    ensures
        from <= r <= chars@.len(),
        trimmed_end(chars@.skip(from as int), a, b) == chars@.subrange(from as int, r as int),
{
    let mut end: usize = chars.len();
    assert(chars@.skip(from as int) == chars@.subrange(from as int, end as int));
    while end > from && (chars[end - 1] == a || chars[end - 1] == b)
        invariant
            from <= end <= chars@.len(),
            trimmed_end(chars@.skip(from as int), a, b) == trimmed_end(
                chars@.subrange(from as int, end as int),
                a,
                b,
            ),
        decreases end,
    {
        assert(chars@.subrange(from as int, end as int).drop_last() == chars@.subrange(
            from as int,
            end - 1,
        ));
        end -= 1;
    }
    end
}

/// A text without the characters `a` and `b` at either end.
pub fn trim_either(s: &str, a: char, b: char) -> (r: String)
    ensures
        r@ == trimmed_end(trimmed_start(s@, a, b), a, b),
{
    let chars = chars_of(s);
    let from: usize = leading(chars.as_slice(), a, b);
    let to: usize = trailing_end(chars.as_slice(), from, a, b);
    text_of(chars.as_slice(), from, to)
}

/// The first `n` characters of a text, or all of it where it is shorter.
pub open spec fn first_chars(s: Seq<char>, n: int) -> Seq<char> {
    if s.len() > n {
        s.take(n)
    } else {
        s
    }
}

/// The first `n` characters of a text, or all of it where it is shorter.
pub fn take_chars(s: &str, n: usize) -> (r: String)
    ensures
        r@ == first_chars(s@, n as int),
{
    let chars = chars_of(s);
    let to: usize = if chars.len() > n {
        n
    } else {
        chars.len()
    };
    let out = text_of(chars.as_slice(), 0, to);
    assert(out@ == first_chars(s@, n as int));
    out
}

/// Whether a text holds a character.
pub fn contains_char(s: &str, c: char) -> (r: bool)
    ensures
        r == s@.contains(c),
{
    let chars = chars_of(s);
    let mut i: usize = 0;
    while i < chars.len()
        invariant
            i <= chars@.len(),
            chars@ == s@,
            forall|j: int| 0 <= j < i ==> chars@[j] != c,
        decreases chars.len() - i,
    {
        if chars[i] == c {
            assert(s@[i as int] == c);
            return true;
        }
        i += 1;
    }
    false
}

/// A text with each `from` replaced by `to`.
pub open spec fn replaced(s: Seq<char>, from: char, to: char) -> Seq<char> {
    s.map_values(
        |c: char|
            if c == from {
                to
            } else {
                c
            },
    )
}

/// Replaces each `from` by `to`.
pub fn replace_char(s: &str, from: char, to: char) -> (r: String)
    ensures
        r@ == replaced(s@, from, to),
{
    let chars = chars_of(s);
    let mut out = String::new();
    let mut i: usize = 0;
    while i < chars.len()
        invariant
            i <= chars@.len(),
            chars@ == s@,
            out@ == replaced(s@.take(i as int), from, to),
        decreases chars.len() - i,
    {
        let c: char = if chars[i] == from {
            to
        } else {
            chars[i]
        };
        out.push(c);
        assert(out@ == replaced(s@.take(i + 1), from, to));
        i += 1;
    }
    assert(s@.take(i as int) == s@);
    out
}

/// The lowercase form of a text that is not only of ASCII characters.
pub uninterp spec fn unicode_lowercase(s: Seq<char>) -> Seq<char>;

/// The lowercase form of an ASCII character.
pub open spec fn ascii_lower(c: char) -> char {
    if 'A' <= c <= 'Z' {
        (c as u32 + 32) as char
    } else {
        c
    }
}

/// The lowercase form of a text.
pub open spec fn lowercase(s: Seq<char>) -> Seq<char> {
    if is_ascii_chars(s) {
        s.map_values(|c: char| ascii_lower(c))
    } else {
        unicode_lowercase(s)
    }
}

/// Calls `str::to_lowercase`. In a text of ASCII characters only the Latin capitals change.
#[verifier::external_body]
pub(crate) fn to_lowercase(s: &str) -> (r: String)
    ensures
        is_ascii_chars(s@) ==> r@ == s@.map_values(|c: char| ascii_lower(c)),
        !is_ascii_chars(s@) ==> r@ == unicode_lowercase(s@),
{
    s.to_lowercase()
}

/// Whether a text is in a list of strings.
pub open spec fn lists(v: Seq<String>, s: Seq<char>) -> bool {
    exists|i: int| 0 <= i < v.len() && (#[trigger] v[i])@ == s
}

/// A list with one more string holds that string too.
pub proof fn lemma_lists_push(v: Seq<String>, s: String, t: Seq<char>)
    ensures
        lists(v.push(s), t) <==> (lists(v, t) || s@ == t),
{
    let w = v.push(s);
    if lists(v, t) {
        let i = choose|i: int| 0 <= i < v.len() && (#[trigger] v[i])@ == t;
        assert(w[i]@ == t);
    }
    if s@ == t {
        assert(w[v.len() as int]@ == t);
    }
    if lists(w, t) {
        let i = choose|i: int| 0 <= i < w.len() && (#[trigger] w[i])@ == t;
        if i < v.len() {
            assert(v[i]@ == t);
        }
    }
}

/// Whether a text is in a list of strings.
pub fn in_list(v: &Vec<String>, s: &str) -> (r: bool)
    ensures
        r == lists(v@, s@),
{
    let mut i: usize = 0;
    while i < v.len()
        invariant
            i <= v@.len(),
            forall|j: int| 0 <= j < i ==> (#[trigger] v@[j])@ != s@,
        decreases v.len() - i,
    {
        if str_eq(v[i].as_str(), s) {
            return true;
        }
        i += 1;
    }
    false
}

/// Whether a character is white space: it has the property `White_Space` of Unicode.
pub open spec fn whitespace(c: char) -> bool {
    let n = c as u32;
    9 <= n <= 13 || n == 0x20 || n == 0x85 || n == 0xA0 || n == 0x1680 || 0x2000 <= n <= 0x200A || n
        == 0x2028 || n == 0x2029 || n == 0x202F || n == 0x205F || n == 0x3000
}

/// Calls `char::is_whitespace`: whether a character has the property `White_Space` of Unicode.
#[verifier::external_body]
fn char_is_whitespace(c: char) -> (r: bool)
    ensures
        r == whitespace(c),
{
    c.is_whitespace()
}

/// A text without the white space that it begins with.
pub open spec fn without_leading_space(s: Seq<char>) -> Seq<char>
    decreases s.len(),
{
    if s.len() > 0 && whitespace(s[0]) {
        without_leading_space(s.skip(1))
    } else {
        s
    }
}

/// A text without the white space that it ends with.
pub open spec fn without_trailing_space(s: Seq<char>) -> Seq<char>
    decreases s.len(),
{
    if s.len() > 0 && whitespace(s.last()) {
        without_trailing_space(s.drop_last())
    } else {
        s
    }
}

/// A text without the white space around it.
pub open spec fn trimmed(s: Seq<char>) -> Seq<char> {
    without_trailing_space(without_leading_space(s))
}

/// A text without the white space around it.
pub fn trim(s: &str) -> (r: String)
    ensures
        r@ == trimmed(s@),
{
    let chars = chars_of(s);
    let mut b: usize = 0;
    proof {
        assert(s@.skip(0) =~= s@);
    }
    while b < chars.len() && char_is_whitespace(chars[b])
        invariant
            b <= chars@.len(),
            chars@ == s@,
            without_leading_space(s@) == without_leading_space(s@.skip(b as int)),
        decreases chars.len() - b,
    {
        proof {
            assert(s@.skip(b as int).skip(1) =~= s@.skip(b + 1));
        }
        b += 1;
    }
    let ghost inner = s@.skip(b as int);
    let mut e: usize = chars.len();
    proof {
        assert(inner =~= s@.subrange(b as int, e as int));
    }
    while e > b && char_is_whitespace(chars[e - 1])
        invariant
            b <= e <= chars@.len(),
            chars@ == s@,
            without_trailing_space(inner) == without_trailing_space(
                s@.subrange(b as int, e as int),
            ),
        decreases e,
    {
        proof {
            assert(s@.subrange(b as int, e as int).drop_last() =~= s@.subrange(
                b as int,
                e - 1,
            ));
        }
        e -= 1;
    }
    text_of(chars.as_slice(), b, e)
}

/// Whether two texts are the same but for the case of ASCII letters.
pub open spec fn same_ignoring_case(a: Seq<char>, b: Seq<char>) -> bool {
    a.len() == b.len() && forall|i: int|
        0 <= i < a.len() ==> ascii_lower(#[trigger] a[i]) == ascii_lower(b[i])
}

fn char_ascii_lower(c: char) -> (r: char)
    ensures
        r == ascii_lower(c),
{
    if 'A' <= c && c <= 'Z' {
        ((c as u8) + 32) as char
    } else {
        c
    }
}

/// Whether two texts are the same but for the case of ASCII letters.
pub fn eq_ignore_case(a: &str, b: &str) -> (r: bool)
    ensures
        r == same_ignoring_case(a@, b@),
{
    let x = chars_of(a);
    let y = chars_of(b);
    if x.len() != y.len() {
        return false;
    }
    let mut i: usize = 0;
    while i < x.len()
        invariant
            i <= x@.len(),
            x@ == a@,
            y@ == b@,
            x@.len() == y@.len(),
            forall|j: int| 0 <= j < i ==> ascii_lower(#[trigger] a@[j]) == ascii_lower(b@[j]),
        decreases x.len() - i,
    {
        if char_ascii_lower(x[i]) != char_ascii_lower(y[i]) {
            assert(ascii_lower(a@[i as int]) != ascii_lower(b@[i as int]));
            return false;
        }
        i += 1;
    }
    true
}

/// The number that a text of decimal digits stands for.
pub open spec fn number_in(digits: Seq<char>) -> int
    decreases digits.len(),
{
    if digits.len() == 0 {
        0
    } else {
        10 * number_in(digits.drop_last()) + (digits.last() as int - '0' as int)
    }
}

/// The digits of a number are read back as that number. They are decimal digits, and the first of
/// several is no zero.
pub proof fn law_decimal_is_read_back(n: nat)
    ensures
        number_in(decimal(n)) == n,
        decimal(n).len() >= 1,
        forall|i: int| 0 <= i < decimal(n).len() ==> '0' <= #[trigger] decimal(n)[i] <= '9',
        n > 0 ==> decimal(n)[0] != '0',
        n == 0 ==> decimal(n) == seq!['0'],
    decreases n,
{
    let d = decimal(n);
    if n < 10 {
        assert(d.drop_last() =~= Seq::<char>::empty());
        assert(number_in(d.drop_last()) == 0);
    } else {
        law_decimal_is_read_back(n / 10);
        assert(d.drop_last() =~= decimal(n / 10));
        assert(d.last() as int == 48 + n % 10);
        assert forall|i: int| 0 <= i < d.len() implies '0' <= #[trigger] d[i] <= '9' by {
            if i < d.len() - 1 {
                assert(d[i] == decimal(n / 10)[i]);
            }
        }
        assert(d[0] == decimal(n / 10)[0]);
    }
}

/// Two lists of parts are joined to what the first and the second are joined to, with the separator
/// between them. A single part stays as it is, and no parts give the empty text.
pub proof fn law_joined_lists_are_joined(
    first: Seq<Seq<char>>,
    second: Seq<Seq<char>>,
    part: Seq<char>,
    sep: Seq<char>,
)
    ensures
        first.len() > 0 && second.len() > 0 ==> joined(first + second, sep) == joined(first, sep)
            + sep + joined(second, sep),
        joined(seq![part], sep) == part,
        joined(Seq::<Seq<char>>::empty(), sep) == Seq::<char>::empty(),
    decreases second.len(),
{
    if first.len() > 0 && second.len() > 0 {
        let all = first + second;
        let rest = second.drop_last();
        assert(all.drop_last() =~= first + rest);
        if second.len() == 1 {
            assert(first + rest =~= first);
        } else {
            law_joined_lists_are_joined(first, rest, part, sep);
            assert(joined(all, sep) =~= joined(first, sep) + sep + joined(second, sep));
        }
    }
}

/// Trimming takes white space away on both sides, and nothing else: what is left neither begins nor
/// ends with white space.
pub proof fn law_trimming_takes_white_space_away(s: Seq<char>) -> (r: (int, int))
    ensures
        0 <= r.0 <= r.1 <= s.len(),
        trimmed(s) == s.subrange(r.0, r.1),
        forall|i: int| 0 <= i < r.0 || r.1 <= i < s.len() ==> whitespace(#[trigger] s[i]),
        r.0 < r.1 ==> !whitespace(s[r.0]) && !whitespace(s[r.1 - 1]),
{
    let from = lemma_leading_space(s);
    let rest = s.skip(from);
    let to = lemma_trailing_space(rest);
    assert(rest.take(to) =~= s.subrange(from, from + to));
    assert forall|i: int| from + to <= i < s.len() implies whitespace(#[trigger] s[i]) by {
        assert(s[i] == rest[i - from]);
    }
    if to > 0 {
        assert(rest[0] == s[from] && rest[to - 1] == s[from + to - 1]);
    }
    (from, from + to)
}

proof fn lemma_leading_space(s: Seq<char>) -> (from: int)
    ensures
        0 <= from <= s.len(),
        without_leading_space(s) == s.skip(from),
        forall|i: int| 0 <= i < from ==> whitespace(#[trigger] s[i]),
        from < s.len() ==> !whitespace(s[from]),
    decreases s.len(),
{
    if s.len() > 0 && whitespace(s[0]) {
        let t = s.skip(1);
        let n = lemma_leading_space(t);
        assert(t.skip(n) =~= s.skip(n + 1));
        assert forall|i: int| 0 <= i < n + 1 implies whitespace(#[trigger] s[i]) by {
            if i > 0 {
                assert(t[i - 1] == s[i]);
            }
        }
        n + 1
    } else {
        assert(s.skip(0) =~= s);
        0
    }
}

proof fn lemma_trailing_space(s: Seq<char>) -> (to: int)
    ensures
        0 <= to <= s.len(),
        without_trailing_space(s) == s.take(to),
        forall|i: int| to <= i < s.len() ==> whitespace(#[trigger] s[i]),
        to > 0 ==> !whitespace(s[to - 1]),
    decreases s.len(),
{
    if s.len() > 0 && whitespace(s.last()) {
        let t = s.drop_last();
        let n = lemma_trailing_space(t);
        assert(t.take(n) =~= s.take(n));
        assert forall|i: int| n <= i < s.len() implies whitespace(#[trigger] s[i]) by {
            if i < s.len() - 1 {
                assert(t[i] == s[i]);
            }
        }
        n
    } else {
        assert(s.take(s.len() as int) =~= s);
        s.len() as int
    }
}

/// What was trimmed of two characters on both sides is what stands between the first and the last
/// character that is neither of them.
pub proof fn law_trimming_takes_two_characters_away(
    lead: Seq<char>,
    core: Seq<char>,
    tail: Seq<char>,
    a: char,
    b: char,
)
    requires
        forall|i: int| 0 <= i < lead.len() ==> #[trigger] lead[i] == a || lead[i] == b,
        forall|i: int| 0 <= i < tail.len() ==> #[trigger] tail[i] == a || tail[i] == b,
        core.len() > 0 ==> core[0] != a && core[0] != b && core.last() != a && core.last() != b,
    ensures
        core.len() > 0 ==> trimmed_start(lead + core + tail, a, b) == core + tail,
        trimmed_end(core + tail, a, b) == core,
    decreases lead.len() + tail.len(),
{
    let s = lead + core + tail;
    if tail.len() > 0 {
        let t = tail.drop_last();
        assert((core + tail).drop_last() =~= core + t);
        assert((core + tail).last() == tail.last());
        law_trimming_takes_two_characters_away(lead, core, t, a, b);
    } else {
        assert(core + tail =~= core);
    }
    if core.len() > 0 {
        if lead.len() > 0 {
            let l = lead.skip(1);
            assert forall|i: int| 0 <= i < l.len() implies #[trigger] l[i] == a || l[i] == b by {
                assert(l[i] == lead[i + 1]);
            }
            assert(s.skip(1) =~= l + core + tail);
            assert(s[0] == lead[0]);
            law_trimming_takes_two_characters_away(l, core, tail, a, b);
        } else {
            assert(s =~= core + tail);
            assert(s[0] == core[0]);
        }
    }
}

/// The first characters of a text are a beginning of it, as long as asked for or the whole text.
pub proof fn law_first_characters_begin_the_text(s: Seq<char>, n: nat)
    ensures
        first_chars(s, n as int).len() == if n < s.len() {
            n
        } else {
            s.len()
        },
        begins_with(s, first_chars(s, n as int)),
{
    assert(s.subrange(0, first_chars(s, n as int).len() as int) =~= first_chars(s, n as int));
}

/// After a replacement, each place holds the character it held, or the new one in place of the old.
pub proof fn law_only_one_character_is_replaced(s: Seq<char>, from: char, to: char)
    ensures
        replaced(s, from, to).len() == s.len(),
        forall|i: int|
            0 <= i < s.len() ==> (if s[i] == from {
                #[trigger] replaced(s, from, to)[i] == to
            } else {
                replaced(s, from, to)[i] == s[i]
            }),
{
}

/// A text begins and ends with a part exactly where something stands behind or before that part.
pub proof fn law_beginnings_and_ends(s: Seq<char>, part: Seq<char>, rest: Seq<char>)
    ensures
        begins_with(part + rest, part),
        finishes_with(rest + part, part),
        begins_with(s, part) ==> s == part + s.skip(part.len() as int),
        finishes_with(s, part) ==> s == s.take(s.len() - part.len()) + part,
{
    assert((part + rest).subrange(0, part.len() as int) =~= part);
    assert((rest + part).subrange(rest.len() as int, (rest + part).len() as int) =~= part);
    if begins_with(s, part) {
        assert(s =~= s.subrange(0, part.len() as int) + s.skip(part.len() as int));
    }
    if finishes_with(s, part) {
        assert(s =~= s.take(s.len() - part.len()) + s.subrange(
            s.len() - part.len(),
            s.len() as int,
        ));
    }
}

/// The part of a text between two byte offsets has as many bytes as lie between them, and it stands
/// there.
pub proof fn law_part_by_bytes_stands_in_the_text(
    before: Seq<char>,
    part: Seq<char>,
    after: Seq<char>,
)
    ensures
        ({
            let start = encode_utf8(before).len() as int;
            let end = start + encode_utf8(part).len();
            byte_slice(before + part + after, start, end) == part
        }),
{
    let source = before + part + after;
    let start = encode_utf8(before).len() as int;
    let end = start + encode_utf8(part).len();
    let b = encode_utf8(source);
    lemma_encode_concat(before, part);
    lemma_encode_concat(before + part, after);
    lemma_encode_concat(before, part + after);
    lemma_encode_concat(part, after);
    assert(before + (part + after) =~= source);
    assert(b.subrange(start, end) =~= encode_utf8(part));
    encode_utf8_decode_utf8(part);
}

/// The bytes of two texts stand one after the other, and a character begins where the second does.
pub(crate) proof fn lemma_encode_concat(a: Seq<char>, b: Seq<char>)
    ensures
        encode_utf8(a + b) == encode_utf8(a) + encode_utf8(b),
        is_char_boundary(encode_utf8(a + b), encode_utf8(a).len() as int),
    decreases a.len(),
{
    let ab = a + b;
    let bytes = encode_utf8(ab);
    encode_utf8_valid_utf8(ab);
    if a.len() == 0 {
        assert(ab =~= b);
        assert(encode_utf8(a) + encode_utf8(b) =~= encode_utf8(b));
    } else {
        let t = a.drop_first();
        assert(ab.drop_first() =~= t + b);
        lemma_encode_concat(t, b);
        encode_utf8_first_scalar(ab);
        let head = encode_scalar(a[0] as u32);
        assert(bytes =~= head + encode_utf8(t + b));
        assert(bytes =~= encode_utf8(a) + encode_utf8(b));
        assert(pop_first_scalar(bytes) =~= encode_utf8(t + b));
        assert(encode_utf8(a).len() == head.len() + encode_utf8(t).len());
    }
}

/// Only the capitals of ASCII have another lower case among ASCII characters: the letter that stands
/// 32 places behind. Texts are the same but for case exactly where their lower cases are.
pub proof fn law_capitals_have_small_letters(c: char, a: Seq<char>, b: Seq<char>)
    ensures
        65 <= c as u32 <= 90 ==> ascii_lower(c) as int == c as int + 32,
        !(65 <= c as u32 <= 90) ==> ascii_lower(c) == c,
        is_ascii_chars(a) && is_ascii_chars(b) ==> (same_ignoring_case(a, b) <==> lowercase(a)
            == lowercase(b)),
        same_ignoring_case(a, b) == same_ignoring_case(b, a),
{
    if is_ascii_chars(a) && is_ascii_chars(b) {
        if lowercase(a) == lowercase(b) {
            assert(lowercase(a).len() == a.len() && lowercase(b).len() == b.len());
            assert forall|i: int| 0 <= i < a.len() implies ascii_lower(#[trigger] a[i])
                == ascii_lower(b[i]) by {
                assert(lowercase(a)[i] == ascii_lower(a[i]));
                assert(lowercase(b)[i] == ascii_lower(b[i]));
            }
        }
        if same_ignoring_case(a, b) {
            assert(lowercase(a) =~= lowercase(b));
        }
    }
}

} // verus!
