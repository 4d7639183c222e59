//! Heredocs of Ruby texts, as far as the grammar's scanner has room for them.
//!
//! Between two tokens the scanner keeps its state in 1024 bytes: two counts, five bytes for each
//! string that is open, and four bytes and the word for each heredoc that is open. The length of
//! a word is kept in one byte. It leaves the state out where it does not fit, but comes to
//! 1025 bytes where strings and heredocs take exactly 1023, and then ends the process; so it does
//! where a word is longer than 255 characters. Which strings and heredocs are open at once
//! depends on how a text with errors is read, so any of them are taken to be.

use crate::text::chars_of;
use vstd::prelude::*;

verus! {

/// The longest word of a heredoc.
pub const WORD_MAX: usize = 255;

/// What strings and heredocs must not take together.
pub const STATE_LIMIT: u128 = 1023;

/// Whether a character may be part of a bare word. Outside ASCII that is for the C library to say,
/// so all of them may.
pub open spec fn word_char(c: char) -> bool {
    '0' <= c <= '9' || 'a' <= c <= 'z' || 'A' <= c <= 'Z' || c == '_' || c as u32 >= 128
}

/// How many characters of a bare word stand from `i` on.
pub open spec fn bare_len(s: Seq<char>, i: int) -> nat
    decreases s.len() - i,
{
    if 0 <= i < s.len() && word_char(s[i]) {
        1 + bare_len(s, i + 1)
    } else {
        0
    }
}

/// How many characters stand from `i` on before the next quote, or before the end.
pub open spec fn quoted_len(s: Seq<char>, i: int, quote: char) -> nat
    decreases s.len() - i,
{
    if 0 <= i < s.len() && s[i] != quote {
        1 + quoted_len(s, i + 1, quote)
    } else {
        0
    }
}

/// Whether a word may stand in this quote.
pub open spec fn is_quote(c: char) -> bool {
    c == '\'' || c == '"' || c == '`'
}

/// How long the word of the heredoc is that may begin at `p`; nothing where none does.
pub open spec fn word_len(s: Seq<char>, p: int) -> nat {
    if 0 <= p && p + 2 < s.len() && s[p] == '<' && s[p + 1] == '<' {
        let k = if s[p + 2] == '-' || s[p + 2] == '~' {
            p + 3
        } else {
            p + 2
        };
        if k < s.len() && is_quote(s[k]) {
            quoted_len(s, k + 1, s[k])
        } else {
            bare_len(s, k)
        }
    } else {
        0
    }
}

/// How many bytes the heredoc takes that may begin at `p`.
pub open spec fn heredoc_bytes(s: Seq<char>, p: int) -> nat {
    if word_len(s, p) > 0 {
        4 + word_len(s, p)
    } else {
        0
    }
}

/// How many bytes all heredocs take together that may begin before `n`.
pub open spec fn all_heredoc_bytes(s: Seq<char>, n: int) -> nat
    decreases n,
{
    if n <= 0 {
        0
    } else {
        all_heredoc_bytes(s, n - 1) + heredoc_bytes(s, n - 1)
    }
}

/// Whether a string may begin with this character.
pub open spec fn opens_string(c: char) -> bool {
    c == '\'' || c == '"' || c == '`' || c == '/' || c == '%'
}

/// How many strings may begin before `n`.
pub open spec fn openers(s: Seq<char>, n: int) -> nat
    decreases n,
{
    if n <= 0 {
        0
    } else {
        openers(s, n - 1) + if opens_string(s[n - 1]) {
            1nat
        } else {
            0nat
        }
    }
}

/// Whether some of the heredocs that may begin before `n` take together so many bytes that `r` is
/// left when they are divided by five.
pub open spec fn leaves(s: Seq<char>, n: int, r: int) -> bool
    decreases n,
{
    if n <= 0 {
        r == 0
    } else {
        leaves(s, n - 1, r) || leaves(s, n - 1, (r - heredoc_bytes(s, n - 1)) % 5)
    }
}

/// Whether no word is too long.
pub open spec fn words_fit(s: Seq<char>) -> bool {
    forall|p: int| 0 <= p < s.len() ==> #[trigger] word_len(s, p) <= 255
}

/// Whether the scanner has room for the heredocs of a text, whichever of them and of its strings
/// are open at once: no word is too long, and either there is room for all of them, or no choice
/// of heredocs comes to the one size that the scanner fails at, whatever strings it adds.
pub open spec fn heredocs_fit(s: Seq<char>) -> bool {
    &&& words_fit(s)
    &&& 5 * openers(s, s.len() as int) + all_heredoc_bytes(s, s.len() as int) < 1023 || !leaves(
        s,
        s.len() as int,
        3,
    )
}

/// How many bytes those heredocs take that begin before `n` at one of the chosen places.
pub open spec fn chosen_bytes(s: Seq<char>, n: int, chosen: Set<int>) -> nat
    decreases n,
{
    if n <= 0 {
        0
    } else {
        chosen_bytes(s, n - 1, chosen) + if chosen.contains(n - 1) {
            heredoc_bytes(s, n - 1)
        } else {
            0
        }
    }
}

/// Where the heredocs of a text fit, no number of open strings and no choice of open heredocs
/// takes the one size that the scanner fails at, and no heredoc has too long a word.
pub proof fn law_state_stays_in_its_room(s: Seq<char>, open_strings: nat, open: Set<int>, p: int)
    requires
        heredocs_fit(s),
        open_strings <= openers(s, s.len() as int),
        0 <= p < s.len(),
    ensures
        5 * open_strings + chosen_bytes(s, s.len() as int, open) != 1023,
        word_len(s, p) <= 255,
{
    lemma_chosen(s, s.len() as int, open);
}

proof fn lemma_chosen(s: Seq<char>, n: int, chosen: Set<int>)
    requires
        0 <= n,
    ensures
        chosen_bytes(s, n, chosen) <= all_heredoc_bytes(s, n),
        leaves(s, n, (chosen_bytes(s, n, chosen) % 5) as int),
    decreases n,
{
    if n > 0 {
        lemma_chosen(s, n - 1, chosen);
        let before = chosen_bytes(s, n - 1, chosen);
        let own = heredoc_bytes(s, n - 1);
        if chosen.contains(n - 1) {
            assert((((before + own) % 5) - own) % 5 == before % 5);
        }
    }
}

fn may_be_in_word(c: char) -> (r: bool)
    ensures
        r == word_char(c),
{
    ('0' <= c && c <= '9') || ('a' <= c && c <= 'z') || ('A' <= c && c <= 'Z') || c == '_' || c
        as u32 >= 128
}

/// The length of a word, but no more than one above the longest.
spec fn capped(n: nat) -> nat {
    if n > 256 {
        256
    } else {
        n
    }
}

fn bare_word(chars: &[char], from: usize) -> (r: usize)
    requires
        from <= chars@.len(),
    ensures
        r == capped(bare_len(chars@, from as int)),
{
    let mut n: usize = 0;
    while n <= WORD_MAX && n < chars.len() - from && may_be_in_word(chars[from + n])
        invariant
            n <= 256,
            from + n <= chars@.len(),
            bare_len(chars@, from as int) == n + bare_len(chars@, from + n),
        decreases 256 - n,
    {
        n += 1;
    }
    n
}

fn quoted_word(chars: &[char], from: usize, quote: char) -> (r: usize)
    requires
        from <= chars@.len(),
    ensures
        r == capped(quoted_len(chars@, from as int, quote)),
{
    let mut n: usize = 0;
    while n <= WORD_MAX && n < chars.len() - from && chars[from + n] != quote
        invariant
            n <= 256,
            from + n <= chars@.len(),
            quoted_len(chars@, from as int, quote) == n + quoted_len(chars@, from + n, quote),
        decreases 256 - n,
    {
        n += 1;
    }
    n
}

fn word_size(chars: &[char], p: usize) -> (r: usize)
    requires
        p < chars@.len(),
    ensures
        r == capped(word_len(chars@, p as int)),
{
    if chars.len() - p <= 2 || chars[p] != '<' || chars[p + 1] != '<' {
        return 0;
    }
    let k: usize = if chars[p + 2] == '-' || chars[p + 2] == '~' {
        p + 3
    } else {
        p + 2
    };
    if k < chars.len() && (chars[k] == '\'' || chars[k] == '"' || chars[k] == '`') {
        quoted_word(chars, k + 1, chars[k])
    } else {
        bare_word(chars, k)
    }
}

/// Whether the scanner has room for the heredocs of a text.
pub fn heredocs_have_room(source: &str) -> (r: bool)
    ensures
        r == heredocs_fit(source@),
{
    let chars = chars_of(source);
    let ghost s = source@;
    let mut bytes: u128 = 0;
    let mut reached: Vec<bool> = vec![true, false, false, false, false];
    let mut i: usize = 0;
    while i < chars.len()
        invariant
            i <= chars@.len(),
            chars@ == s,
            s == source@,
            bytes == 5 * openers(s, i as int) + all_heredoc_bytes(s, i as int),
            bytes <= 264 * i,
            forall|p: int| 0 <= p < i ==> #[trigger] word_len(s, p) <= 255,
            reached@.len() == 5,
            forall|r: int| 0 <= r < 5 ==> #[trigger] reached@[r] == leaves(s, i as int, r),
        decreases chars.len() - i,
    {
        let n: usize = word_size(chars.as_slice(), i);
        if n > WORD_MAX {
            assert(word_len(s, i as int) > 255);
            return false;
        }
        let c: char = chars[i];
        if c == '\'' || c == '"' || c == '`' || c == '/' || c == '%' {
            bytes = bytes + 5;
        }
        if n > 0 {
            bytes = bytes + 4 + n as u128;
            let own: usize = (4 + n) % 5;
            let mut next: Vec<bool> = Vec::new();
            let mut r: usize = 0;
            while r < 5
                invariant
                    r <= 5,
                    own == (4 + n) % 5,
                    n == word_len(s, i as int),
                    n > 0,
                    reached@.len() == 5,
                    forall|x: int| 0 <= x < 5 ==> #[trigger] reached@[x] == leaves(s, i as int, x),
                    next@.len() == r,
                    forall|x: int| 0 <= x < r ==> #[trigger] next@[x] == leaves(s, i + 1, x),
                decreases 5 - r,
            {
                let back: usize = (r + 5 - own) % 5;
                proof {
                    assert(heredoc_bytes(s, i as int) == 4 + n);
                    assert(back == (r - (4 + n)) % 5);
                    assert(reached@[back as int] == leaves(s, i as int, back as int));
                }
                next.push(reached[r] || reached[back]);
                r += 1;
            }
            reached = next;
        } else {
            proof {
                assert forall|x: int| 0 <= x < 5 implies #[trigger] reached@[x] == leaves(
                    s,
                    i + 1,
                    x,
                ) by {
                    assert(heredoc_bytes(s, i as int) == 0);
                    assert(x % 5 == x);
                }
            }
        }
        i += 1;
    }
    bytes < STATE_LIMIT || !reached[3]
}

/// A text is turned away only for a reason: a word is too long, or all strings and heredocs together
/// come to 1023 bytes or more and some of the heredocs take a number of bytes that with open strings
/// may come to exactly 1023.
pub proof fn law_text_is_turned_away_only_for_a_reason(s: Seq<char>)
    requires
        !heredocs_fit(s),
    ensures
        (exists|p: int| 0 <= p < s.len() && #[trigger] word_len(s, p) > 255) || (5 * openers(
            s,
            s.len() as int,
        ) + all_heredoc_bytes(s, s.len() as int) >= 1023 && exists|open: Set<int>|
            #[trigger] chosen_bytes(s, s.len() as int, open) % 5 == 3),
{
    if words_fit(s) {
        let open = lemma_some_choice(s, s.len() as int, 3);
        assert(chosen_bytes(s, s.len() as int, open) % 5 == 3);
    }
}

proof fn lemma_some_choice(s: Seq<char>, n: int, r: int) -> (open: Set<int>)
    requires
        0 <= r < 5,
        leaves(s, n, r),
    ensures
        chosen_bytes(s, n, open) % 5 == r,
        forall|p: int| #[trigger] open.contains(p) ==> p < n,
    decreases n,
{
    if n <= 0 {
        Set::empty()
    } else if leaves(s, n - 1, r) {
        let open = lemma_some_choice(s, n - 1, r);
        assert(!open.contains(n - 1));
        open
    } else {
        let own = heredoc_bytes(s, n - 1);
        let before = lemma_some_choice(s, n - 1, (r - own) % 5);
        let open = before.insert(n - 1);
        lemma_same_choice(s, n - 1, before, open);
        assert((chosen_bytes(s, n - 1, before) + own) % 5 == r);
        open
    }
}

proof fn lemma_same_choice(s: Seq<char>, n: int, a: Set<int>, b: Set<int>)
    requires
        forall|p: int| p < n ==> #[trigger] a.contains(p) == b.contains(p),
    ensures
        chosen_bytes(s, n, a) == chosen_bytes(s, n, b),
    decreases n,
{
    if n > 0 {
        assert(a.contains(n - 1) == b.contains(n - 1));
        lemma_same_choice(s, n - 1, a, b);
    }
}

/// A text without heredocs is never turned away.
pub proof fn law_text_without_heredocs_fits(s: Seq<char>)
    requires
        forall|p: int| 0 <= p && p + 1 < s.len() ==> !(#[trigger] s[p] == '<' && s[p + 1] == '<'),
    ensures
        heredocs_fit(s),
{
    assert forall|p: int| 0 <= p < s.len() implies #[trigger] word_len(s, p) == 0 by {}
    lemma_nothing_left(s, s.len() as int, 3);
}

proof fn lemma_nothing_left(s: Seq<char>, n: int, r: int)
    requires
        0 <= n <= s.len(),
        0 < r < 5,
        forall|p: int| 0 <= p < s.len() ==> #[trigger] word_len(s, p) == 0,
    ensures
        !leaves(s, n, r),
    decreases n,
{
    if n > 0 {
        assert(heredoc_bytes(s, n - 1) == 0);
        lemma_nothing_left(s, n - 1, r);
    }
}

/// The word of a heredoc is measured: a bare one as far as its letters go, one in quotes up to the
/// closing quote. It may stand behind a dash or a tilde.
pub proof fn law_word_of_a_heredoc_is_measured(
    head: Seq<char>,
    word: Seq<char>,
    quote: char,
    rest: Seq<char>,
)
    requires
        word.len() > 0,
    ensures
        (forall|i: int| 0 <= i < word.len() ==> word_char(#[trigger] word[i])) && (rest.len() > 0
            ==> !word_char(rest[0])) ==> word_len(head + seq!['<', '<'] + word + rest, head.len() as int)
            == word.len() && word_len(head + seq!['<', '<', '~'] + word + rest, head.len() as int)
            == word.len() && word_len(head + seq!['<', '<', '-'] + word + rest, head.len() as int)
            == word.len(),
        (quote == '"' || quote == '\'' || quote == '`') && (forall|i: int|
            0 <= i < word.len() ==> #[trigger] word[i] != quote) ==> word_len(
            head + seq!['<', '<', quote] + word + seq![quote] + rest,
            head.len() as int,
        ) == word.len(),
{
    let n = head.len() as int;
    if (forall|i: int| 0 <= i < word.len() ==> word_char(#[trigger] word[i])) && (rest.len() > 0
        ==> !word_char(rest[0])) {
        let a = head + seq!['<', '<'] + word + rest;
        let b = head + seq!['<', '<', '~'] + word + rest;
        let c = head + seq!['<', '<', '-'] + word + rest;
        assert(word_char(word[0]));
        assert(a[n] == '<' && a[n + 1] == '<' && a[n + 2] == word[0]);
        assert(b[n] == '<' && b[n + 1] == '<' && b[n + 2] == '~' && b[n + 3] == word[0]);
        assert(c[n] == '<' && c[n + 1] == '<' && c[n + 2] == '-' && c[n + 3] == word[0]);
        lemma_bare_len(a, n + 2, word, rest, 0);
        lemma_bare_len(b, n + 3, word, rest, 0);
        lemma_bare_len(c, n + 3, word, rest, 0);
    }
    if (quote == '"' || quote == '\'' || quote == '`') && (forall|i: int|
        0 <= i < word.len() ==> #[trigger] word[i] != quote) {
        let d = head + seq!['<', '<', quote] + word + seq![quote] + rest;
        assert(d[n] == '<' && d[n + 1] == '<' && d[n + 2] == quote);
        lemma_quoted_len(d, n + 3, word, quote, 0);
    }
}

proof fn lemma_bare_len(s: Seq<char>, at: int, word: Seq<char>, rest: Seq<char>, i: int)
    requires
        0 <= at,
        s.len() == at + word.len() + rest.len(),
        forall|j: int| 0 <= j < word.len() ==> s[at + j] == #[trigger] word[j],
        rest.len() > 0 ==> s[at + word.len()] == rest[0],
        forall|j: int| 0 <= j < word.len() ==> word_char(#[trigger] word[j]),
        rest.len() > 0 ==> !word_char(rest[0]),
        0 <= i <= word.len(),
    ensures
        bare_len(s, at + i) == word.len() - i,
    decreases word.len() - i,
{
    if i < word.len() {
        assert(word_char(word[i]));
        lemma_bare_len(s, at, word, rest, i + 1);
    }
}

proof fn lemma_quoted_len(s: Seq<char>, at: int, word: Seq<char>, quote: char, i: int)
    requires
        0 <= at,
        s.len() > at + word.len(),
        forall|j: int| 0 <= j < word.len() ==> s[at + j] == #[trigger] word[j],
        s[at + word.len()] == quote,
        forall|j: int| 0 <= j < word.len() ==> #[trigger] word[j] != quote,
        0 <= i <= word.len(),
    ensures
        quoted_len(s, at + i, quote) == word.len() - i,
    decreases word.len() - i,
{
    if i < word.len() {
        assert(word[i] != quote);
        lemma_quoted_len(s, at, word, quote, i + 1);
    }
}

} // verus!
