//! Splitting a string at the first occurrence of a separator character and
//! parsing the two halves.

use vstd::prelude::*;
use vstd::string::StrSliceExecFns;

verus! {

/// A type that can be parsed from a string, fallibly.
///
/// `parse_spec` is the mathematical description of which character sequences
/// parse to which values; `parse_from_str` is the executable parser, bound by
/// its contract to agree with `parse_spec` on every input.
pub trait ParseFromStr: Sized {
    spec fn parse_spec(s: Seq<char>) -> Option<Self>;

    fn parse_from_str(s: &str) -> (r: Option<Self>)
        ensures
            r == Self::parse_spec(s@),
    ;
}

/// Index of the first occurrence of `sep` in `s`, if any.
pub open spec fn find_sep(s: Seq<char>, sep: char) -> Option<int>
    decreases s.len(),
{
    if s.len() == 0 {
        None
    } else if s[0] == sep {
        Some(0)
    } else {
        match find_sep(s.subrange(1, s.len() as int), sep) {
            Some(i) => Some(i + 1),
            None => None,
        }
    }
}

/// What `parse_pair` returns: `None` when `sep` does not occur in `s`;
/// otherwise the two halves around the first occurrence of `sep`, parsed as
/// `T`, provided both parses succeed.
pub open spec fn pair_of_str<T: ParseFromStr>(s: Seq<char>, sep: char) -> Option<(T, T)> {
    match find_sep(s, sep) {
        None => None,
        Some(i) => {
            let left = T::parse_spec(s.subrange(0, i));
            let right = T::parse_spec(s.subrange(i + 1, s.len() as int));
            match (left, right) {
                (Some(l), Some(r)) => Some((l, r)),
                _ => None,
            }
        },
    }
}

proof fn lemma_find_sep_at(s: Seq<char>, sep: char, i: int)
    requires
        0 <= i < s.len(),
        s[i] == sep,
        forall|j: int| 0 <= j < i ==> s[j] != sep,
    ensures
        find_sep(s, sep) == Some(i),
    decreases s.len(),
{
    if i == 0 {
    } else {
        let t = s.subrange(1, s.len() as int);
        assert forall|j: int| 0 <= j < i - 1 implies t[j] != sep by {
            assert(t[j] == s[j + 1]);
        }
        lemma_find_sep_at(t, sep, i - 1);
    }
}

proof fn lemma_find_sep_absent(s: Seq<char>, sep: char)
    requires
        forall|j: int| 0 <= j < s.len() ==> s[j] != sep,
    ensures
        find_sep(s, sep) is None,
    decreases s.len(),
{
    if s.len() > 0 {
        let t = s.subrange(1, s.len() as int);
        assert forall|j: int| 0 <= j < t.len() implies t[j] != sep by {
            assert(t[j] == s[j + 1]);
        }
        lemma_find_sep_absent(t, sep);
    }
}

/// Splits `s` into the substrings before and after the first occurrence of
/// `separator` (the separator itself belongs to neither half); `None` when
/// the separator is absent.
pub fn split_at_sep<'a>(s: &'a str, separator: char) -> (r: Option<(&'a str, &'a str)>)
    ensures
        match (r, find_sep(s@, separator)) {
            (None, None) => true,
            (Some(lr), Some(i)) => lr.0@ == s@.subrange(0, i) && lr.1@ == s@.subrange(
                i + 1,
                s@.len() as int,
            ),
            _ => false,
        },
{
    let n = s.unicode_len();
    let mut i: usize = 0;
    while i < n
        invariant
            i <= n,
            n == s@.len(),
            forall|j: int| 0 <= j < i ==> s@[j] != separator,
        decreases n - i,
    {
        if s.get_char(i) == separator {
            proof {
                lemma_find_sep_at(s@, separator, i as int);
            }
            let left = s.substring_char(0, i);
            let right = s.substring_char(i + 1, n);
            return Some((left, right));
        }
        i = i + 1;
    }
    proof {
        lemma_find_sep_absent(s@, separator);
    }
    None
}

/// Splits `s` at the first occurrence of `separator` and parses both halves
/// as `T`.  Returns `None` when the separator is absent or either half fails
/// to parse.
pub fn parse_pair<T: ParseFromStr>(s: &str, separator: char) -> (r: Option<(T, T)>)
    ensures
        r == pair_of_str::<T>(s@, separator),
{
    match split_at_sep(s, separator) {
        Some((left, right)) => {
            let l = T::parse_from_str(left);
            let r = T::parse_from_str(right);
            match (l, r) {
                (Some(lv), Some(rv)) => Some((lv, rv)),
                _ => None,
            }
        },
        None => None,
    }
}

} // verus!
