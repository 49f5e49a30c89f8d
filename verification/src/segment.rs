//! Locating the url-encoded data segment of a string.
//!
//! An input such as `https://host/path?a=1&b=2` is split at its first `?`:
//! everything up to and including that `?` is the prefix, and what follows,
//! with any further leading `?` characters stripped, is the data segment.
//! A string without `?` is all data segment and has an empty prefix.

use vstd::prelude::*;
use vstd::string::StrSliceExecFns;

verus! {

/// Index of the first occurrence of `c` in `s`, or `-1` if `c` does not occur.
pub open spec fn find_char(s: Seq<char>, c: char) -> int
    decreases s.len(),
{
    if s.len() == 0 {
        -1
    } else if s[0] == c {
        0
    } else {
        let r = find_char(s.drop_first(), c);
        if r == -1 {
            -1
        } else {
            r + 1
        }
    }
}

/// `find_char` returns `-1` exactly when `c` is absent, and otherwise the
/// least index holding `c`.
pub proof fn lemma_find_char(s: Seq<char>, c: char)
    ensures
        find_char(s, c) == -1 ==> forall|i: int| 0 <= i < s.len() ==> s[i] != c,
        find_char(s, c) != -1 ==> 0 <= find_char(s, c) < s.len() && s[find_char(s, c)] == c
            && (forall|i: int| 0 <= i < find_char(s, c) ==> s[i] != c),
    decreases s.len(),
{
    if s.len() == 0 {
    } else if s[0] == c {
    } else {
        let rest = s.drop_first();
        lemma_find_char(rest, c);
        let r = find_char(rest, c);
        if r == -1 {
            assert(find_char(s, c) == -1);
            assert forall|i: int| 0 <= i < s.len() implies s[i] != c by {
                if i > 0 {
                    assert(rest[i - 1] != c);
                }
            }
        } else {
            assert(find_char(s, c) == r + 1);
            assert(s[r + 1] == rest[r]);
            assert forall|i: int| 0 <= i < r + 1 implies s[i] != c by {
                if i > 0 {
                    assert(rest[i - 1] != c);
                }
            }
        }
    }
}

/// If `c` first occurs at index `i`, then `find_char` returns `i`.
pub proof fn lemma_find_char_at(s: Seq<char>, c: char, i: int)
    requires
        0 <= i < s.len(),
        s[i] == c,
        forall|j: int| 0 <= j < i ==> s[j] != c,
    ensures
        find_char(s, c) == i,
    decreases i,
{
    if i == 0 {
    } else {
        assert(s.drop_first()[i - 1] == c);
        assert(forall|j: int| 0 <= j < i - 1 ==> s.drop_first()[j] == s[j + 1]);
        lemma_find_char_at(s.drop_first(), c, i - 1);
    }
}

/// If `c` does not occur in `s`, then `find_char` returns `-1`.
pub proof fn lemma_find_char_none(s: Seq<char>, c: char)
    requires
        forall|i: int| 0 <= i < s.len() ==> s[i] != c,
    ensures
        find_char(s, c) == -1,
{
    lemma_find_char(s, c);
}

/// `s` with every leading occurrence of `c` removed.
pub open spec fn strip_leading(s: Seq<char>, c: char) -> Seq<char>
    decreases s.len(),
{
    if s.len() > 0 && s[0] == c {
        strip_leading(s.drop_first(), c)
    } else {
        s
    }
}

/// Stripping leading `c` characters is the same as skipping past the first
/// index that does not hold `c`.
pub proof fn lemma_strip_leading(s: Seq<char>, c: char, j: int)
    requires
        0 <= j <= s.len(),
        forall|i: int| 0 <= i < j ==> s[i] == c,
        j < s.len() ==> s[j] != c,
    ensures
        strip_leading(s, c) == s.skip(j),
    decreases j,
{
    if j == 0 {
        assert(s.skip(0) =~= s);
    } else {
        assert(forall|i: int| 0 <= i < s.drop_first().len() ==> s.drop_first()[i] == s[i + 1]);
        lemma_strip_leading(s.drop_first(), c, j - 1);
        assert(s.drop_first().skip(j - 1) =~= s.skip(j));
    }
}

/// The prefix kept verbatim for re-serialization: everything up to and
/// including the first `?`, or empty if there is none.
pub open spec fn spec_prefix(s: Seq<char>) -> Seq<char> {
    let i = find_char(s, '?');
    if i == -1 {
        Seq::empty()
    } else {
        s.take(i + 1)
    }
}

/// The data segment: everything after the first `?` with any further leading
/// `?` characters stripped, or the whole string if there is no `?`.
pub open spec fn spec_data_segment(s: Seq<char>) -> Seq<char> {
    let i = find_char(s, '?');
    if i == -1 {
        s
    } else {
        strip_leading(s.skip(i + 1), '?')
    }
}

/// Index of the first occurrence of `c` in `s`, as an executable search.
pub fn find_char_in_str(s: &str, c: char) -> (r: Option<usize>)
    ensures
        r is None ==> find_char(s@, c) == -1,
        r is Some ==> find_char(s@, c) == r->0 as int,
{
    let n = s.unicode_len();
    let mut i: usize = 0;
    while i < n
        invariant
            0 <= i <= n,
            n == s@.len(),
            forall|j: int| 0 <= j < i ==> s@[j] != c,
        decreases n - i,
    {
        if s.get_char(i) == c {
            proof {
                lemma_find_char_at(s@, c, i as int);
            }
            return Some(i);
        }
        i = i + 1;
    }
    proof {
        lemma_find_char_none(s@, c);
    }
    None
}

/// Returns the data segment of `s`: what follows the first `?` (with any
/// extra leading `?` stripped), or `s` itself when it holds no `?`.
pub fn extract_url_encoded_string(s: &str) -> (r: &str)
    ensures
        r@ == spec_data_segment(s@),
{
    let n = s.unicode_len();
    match find_char_in_str(s, '?') {
        None => s,
        Some(i) => {
            proof {
                lemma_find_char(s@, '?');
            }
            extract_url_encoded_string_from(s, i, n)
        },
    }
}

/// Splits `s` into `(prefix, data_segment)`: the prefix runs up to and
/// including the first `?` (empty when there is none), and the data segment
/// is what `extract_url_encoded_string` returns.
pub fn split_url_encoded_string(s: &str) -> (r: (&str, &str))
    ensures
        r.0@ == spec_prefix(s@),
        r.1@ == spec_data_segment(s@),
{
    let n = s.unicode_len();
    match find_char_in_str(s, '?') {
        None => {
            proof {
                reveal_strlit("");
                assert(""@ =~= Seq::<char>::empty());
            }
            ("", s)
        },
        Some(i) => {
            proof {
                lemma_find_char(s@, '?');
            }
            let prefix = s.substring_char(0, i + 1);
            let rest = extract_url_encoded_string_from(s, i, n);
            proof {
                assert(s@.subrange(0, i + 1) =~= s@.take(i + 1));
            }
            (prefix, rest)
        },
    }
}

/// Strips leading `?` characters from position `i` onward, where `i` is the
/// index of the first `?` of `s`.
fn extract_url_encoded_string_from(s: &str, i: usize, n: usize) -> (r: &str)
    requires
        i < n,
        n == s@.len(),
        s@[i as int] == '?',
    ensures
        r@ == strip_leading(s@.skip(i + 1), '?'),
{
    let mut j: usize = i + 1;
    loop
        invariant
            i < j <= n,
            n == s@.len(),
            forall|k: int| i < k < j ==> s@[k] == '?',
        ensures
            i < j <= n,
            forall|k: int| i < k < j ==> s@[k] == '?',
            j < n ==> s@[j as int] != '?',
        decreases n - j,
    {
        if j == n {
            break;
        }
        if s.get_char(j) != '?' {
            break;
        }
        j = j + 1;
    }
    let r = s.substring_char(j, n);
    proof {
        let rest = s@.skip(i + 1);
        assert(forall|k: int| 0 <= k < rest.len() ==> rest[k] == s@[k + i + 1]);
        lemma_strip_leading(rest, '?', j - (i + 1));
        assert(rest.skip(j - (i + 1)) =~= s@.subrange(j as int, n as int));
    }
    r
}

} // verus!
