//! The parts of a path that is written as text, with `/` between its parts.

use crate::text::{chars_of, text_of};
use vstd::prelude::*;

verus! {

/// Where the part that ends before `n` begins.
pub open spec fn part_start(s: Seq<char>, n: int) -> int
    decreases n,
{
    if n <= 0 {
        0
    } else if s[n - 1] == '/' {
        n
    } else {
        part_start(s, n - 1)
    }
}

/// A part begins where it says.
proof fn lemma_part_start(s: Seq<char>, n: int)
    requires
        0 <= n <= s.len(),
    ensures
        0 <= part_start(s, n) <= n,
    decreases n,
{
    if n > 0 && s[n - 1] != '/' {
        lemma_part_start(s, n - 1);
    }
}

/// Where the last part of `s.take(n)` stands that is neither empty nor a single dot.
pub open spec fn last_part(s: Seq<char>, n: int) -> Option<(int, int)>
    decreases n,
{
    if n <= 0 || n > s.len() {
        None
    } else {
        let b = part_start(s, n);
        if b < 0 || b >= n {
            last_part(s, n - 1)
        } else if b == n - 1 && s[b] == '.' {
            last_part(s, b)
        } else {
            Some((b, n))
        }
    }
}

/// The name of the file that a path leads to: its last part. Parts that are empty or a single
/// dot do not count, and two dots are no name.
pub open spec fn file_name(path: Seq<char>) -> Option<Seq<char>> {
    match last_part(path, path.len() as int) {
        Some((b, e)) => if path.subrange(b, e) == seq!['.', '.'] {
            None
        } else {
            Some(path.subrange(b, e))
        },
        None => None,
    }
}

/// Where the last dot of `s.take(n)` stands.
pub open spec fn last_dot(s: Seq<char>, n: int) -> Option<int>
    decreases n,
{
    if n <= 0 {
        None
    } else if s[n - 1] == '.' {
        Some(n - 1)
    } else {
        last_dot(s, n - 1)
    }
}

/// What stands behind the last dot of a file's name. A name that begins with its only dot has
/// no extension.
pub open spec fn extension(path: Seq<char>) -> Option<Seq<char>> {
    match file_name(path) {
        Some(name) => match last_dot(name, name.len() as int) {
            Some(k) => if k > 0 {
                Some(name.skip(k + 1))
            } else {
                None
            },
            None => None,
        },
        None => None,
    }
}

/// A part lies within the path.
proof fn lemma_last_part(s: Seq<char>, n: int)
    ensures
        last_part(s, n) matches Some((b, e)) ==> 0 <= b < e <= s.len(),
    decreases n,
{
    if 0 < n <= s.len() {
        let b = part_start(s, n);
        lemma_part_start(s, n);
        if b >= n {
            lemma_last_part(s, n - 1);
        } else if b == n - 1 && s[b] == '.' {
            lemma_last_part(s, b);
        }
    }
}

fn start_of_part(chars: &[char], n: usize) -> (r: usize)
    requires
        n <= chars@.len(),
    ensures
        r == part_start(chars@, n as int),
        r <= n,
{
    let mut i: usize = n;
    while i > 0 && chars[i - 1] != '/'
        invariant
            i <= n <= chars@.len(),
            part_start(chars@, n as int) == part_start(chars@, i as int),
        decreases i,
    {
        i -= 1;
    }
    i
}

fn find_last_part(chars: &[char]) -> (r: Option<(usize, usize)>)
    ensures
        match r {
            Some((b, e)) => last_part(chars@, chars@.len() as int) == Some((b as int, e as int))
                && b < e <= chars@.len(),
            None => last_part(chars@, chars@.len() as int) is None,
        },
{
    let mut n: usize = chars.len();
    while n > 0
        invariant
            n <= chars@.len(),
            last_part(chars@, chars@.len() as int) == last_part(chars@, n as int),
        decreases n,
    {
        let b: usize = start_of_part(chars, n);
        if b >= n {
            n -= 1;
        } else if b == n - 1 && chars[b] == '.' {
            n = b;
        } else {
            return Some((b, n));
        }
    }
    None
}

/// The name of the file that a path leads to.
pub fn path_file_name(path: &str) -> (r: Option<String>)
    ensures
        match r {
            Some(name) => file_name(path@) == Some(name@),
            None => file_name(path@) is None,
        },
{
    let chars = chars_of(path);
    match find_last_part(chars.as_slice()) {
        Some((b, e)) => {
            let dots: bool = e - b == 2 && chars[b] == '.' && chars[b + 1] == '.';
            proof {
                let part = path@.subrange(b as int, e as int);
                if dots {
                    assert(part =~= seq!['.', '.']);
                } else if part == seq!['.', '.'] {
                    assert(part.len() == 2);
                    assert(part[0] == '.' && part[1] == '.');
                    assert(chars@[b as int] == part[0] && chars@[b + 1] == part[1]);
                }
            }
            if dots {
                None
            } else {
                Some(text_of(chars.as_slice(), b, e))
            }
        },
        None => None,
    }
}

/// What stands behind the last dot of the name of the file that a path leads to.
pub fn path_extension(path: &str) -> (r: Option<String>)
    ensures
        match r {
            Some(e) => extension(path@) == Some(e@),
            None => extension(path@) is None,
        },
{
    let name = match path_file_name(path) {
        Some(name) => name,
        None => {
            return None;
        },
    };
    let chars = chars_of(name.as_str());
    let mut n: usize = chars.len();
    while n > 0 && chars[n - 1] != '.'
        invariant
            n <= chars@.len(),
            last_dot(chars@, chars@.len() as int) == last_dot(chars@, n as int),
        decreases n,
    {
        n -= 1;
    }
    if n <= 1 {
        return None;
    }
    proof {
        assert(name@.skip(n as int) =~= name@.subrange(n as int, name@.len() as int));
    }
    Some(text_of(chars.as_slice(), n, chars.len()))
}

/// The name of a file is what follows the last slash of its path.
pub proof fn law_file_name_follows_the_last_slash(dir: Seq<char>, name: Seq<char>)
    requires
        name.len() > 0,
        forall|i: int| 0 <= i < name.len() ==> #[trigger] name[i] != '/',
        name != seq!['.'],
        name != seq!['.', '.'],
    ensures
        file_name(dir + seq!['/'] + name) == Some(name),
        file_name(name) == Some(name),
{
    let path = dir + seq!['/'] + name;
    assert(path.skip(dir.len() as int + 1) =~= name);
    assert(name.skip(0) =~= name);
    lemma_name_at(path, dir.len() as int + 1, name);
    lemma_name_at(name, 0, name);
}

proof fn lemma_name_at(path: Seq<char>, b: int, name: Seq<char>)
    requires
        0 <= b,
        path.len() == b + name.len(),
        path.skip(b) == name,
        b > 0 ==> path[b - 1] == '/',
        name.len() > 0,
        forall|i: int| 0 <= i < name.len() ==> #[trigger] name[i] != '/',
        name != seq!['.'],
        name != seq!['.', '.'],
    ensures
        file_name(path) == Some(name),
{
    assert forall|i: int| b <= i < path.len() implies #[trigger] path[i] != '/' by {
        assert(path.skip(b)[i - b] == path[i]);
        assert(name[i - b] != '/');
    }
    lemma_part_from(path, b, path.len() as int);
    assert(path.subrange(b, path.len() as int) =~= path.skip(b));
    if b == path.len() - 1 && path[b] == '.' {
        assert(path.skip(b)[0] == '.');
        assert(name =~= seq!['.']);
    }
}

proof fn lemma_part_from(s: Seq<char>, b: int, n: int)
    requires
        0 <= b <= n <= s.len(),
        b > 0 ==> s[b - 1] == '/',
        forall|i: int| b <= i < n ==> #[trigger] s[i] != '/',
    ensures
        part_start(s, n) == b,
    decreases n,
{
    if n > b {
        lemma_part_from(s, b, n - 1);
    }
}

/// The extension of a file is what follows the last dot of its name, where something stands before
/// that dot.
pub proof fn law_extension_follows_the_last_dot(path: Seq<char>, stem: Seq<char>, ext: Seq<char>)
    requires
        stem.len() > 0,
        forall|i: int| 0 <= i < ext.len() ==> #[trigger] ext[i] != '.',
        file_name(path) == Some(stem + seq!['.'] + ext),
    ensures
        extension(path) == Some(ext),
{
    let name = stem + seq!['.'] + ext;
    let k = stem.len() as int;
    assert(name[k] == '.');
    assert forall|i: int| k < i < name.len() implies #[trigger] name[i] != '.' by {
        assert(name[i] == ext[i - k - 1]);
    }
    lemma_dot_at(name, k, name.len() as int);
    assert(name.skip(k + 1) =~= ext);
}

proof fn lemma_dot_at(s: Seq<char>, k: int, n: int)
    requires
        0 <= k < n <= s.len(),
        s[k] == '.',
        forall|i: int| k < i < n ==> #[trigger] s[i] != '.',
    ensures
        last_dot(s, n) == Some(k),
    decreases n,
{
    if n - 1 > k {
        lemma_dot_at(s, k, n - 1);
    }
}

/// A file whose name has no dot, or only one that it begins with, has no extension.
pub proof fn law_no_extension_without_a_dot(path: Seq<char>, name: Seq<char>)
    requires
        file_name(path) == Some(name),
        forall|i: int| 0 < i < name.len() ==> #[trigger] name[i] != '.',
    ensures
        extension(path) is None,
{
    lemma_no_dot(name, name.len() as int);
}

proof fn lemma_no_dot(s: Seq<char>, n: int)
    requires
        0 <= n <= s.len(),
        forall|i: int| 0 < i < n ==> #[trigger] s[i] != '.',
    ensures
        last_dot(s, n) is None || last_dot(s, n) == Some(0int),
    decreases n,
{
    if n > 0 {
        lemma_no_dot(s, n - 1);
    }
}

} // verus!
