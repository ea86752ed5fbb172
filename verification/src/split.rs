//! Splitting of character sequences: on a single character, on a multi-character
//! pattern (leftmost matches, taken greedily), and on a character whose
//! occurrences can be escaped by a preceding backslash.

use vstd::prelude::*;
use crate::chars::{find_char, lemma_find_char};

verus! {

/// `pat` occurs in `s` at position `i`.
pub open spec fn matches_at(s: Seq<char>, pat: Seq<char>, i: int) -> bool {
    0 <= i && i + pat.len() <= s.len() && s.subrange(i, i + pat.len()) == pat
}

/// Index of the leftmost occurrence of `pat` in `s`, or -1.
pub open spec fn find_str(s: Seq<char>, pat: Seq<char>) -> int
    decreases s.len(),
{
    if pat.len() == 0 {
        0
    } else if s.len() < pat.len() {
        -1
    } else if s.take(pat.len() as int) == pat {
        0
    } else {
        let r = find_str(s.skip(1), pat);
        if r == -1 {
            -1
        } else {
            r + 1
        }
    }
}

pub proof fn lemma_find_str(s: Seq<char>, pat: Seq<char>)
    requires
        pat.len() > 0,
    ensures
        find_str(s, pat) == -1 ==> (forall|i: int| !matches_at(s, pat, i)),
        find_str(s, pat) != -1 ==> 0 <= find_str(s, pat) && find_str(s, pat) + pat.len()
            <= s.len() && matches_at(s, pat, find_str(s, pat)) && (forall|i: int|
            0 <= i < find_str(s, pat) ==> !matches_at(s, pat, i)),
    decreases s.len(),
{
    if s.len() < pat.len() {
        assert forall|i: int| !matches_at(s, pat, i) by {}
    } else if s.take(pat.len() as int) == pat {
        assert(s.subrange(0, pat.len() as int) =~= s.take(pat.len() as int));
    } else {
        lemma_find_str(s.skip(1), pat);
        assert(s.subrange(0, pat.len() as int) =~= s.take(pat.len() as int));
        assert forall|i: int| 1 <= i && matches_at(s, pat, i) implies matches_at(
            s.skip(1),
            pat,
            i - 1,
        ) by {
            assert(s.skip(1).subrange(i - 1, i - 1 + pat.len()) =~= s.subrange(
                i,
                i + pat.len(),
            ));
        }
        assert forall|i: int| 0 <= i && matches_at(s.skip(1), pat, i) implies matches_at(
            s,
            pat,
            i + 1,
        ) by {
            assert(s.subrange(i + 1, i + 1 + pat.len()) =~= s.skip(1).subrange(
                i,
                i + pat.len(),
            ));
        }
        let r = find_str(s.skip(1), pat);
        if r == -1 {
            assert forall|i: int| !matches_at(s, pat, i) by {
                if 1 <= i && matches_at(s, pat, i) {
                    assert(matches_at(s.skip(1), pat, i - 1));
                }
            }
        } else {
            assert(matches_at(s, pat, r + 1));
            assert forall|i: int| 0 <= i < r + 1 implies !matches_at(s, pat, i) by {
                if 1 <= i && matches_at(s, pat, i) {
                    assert(matches_at(s.skip(1), pat, i - 1));
                }
            }
        }
    }
}

/// The segments of `s` between occurrences of `c`, in order.
pub open spec fn split_char(s: Seq<char>, c: char) -> Seq<Seq<char>>
    decreases s.len(),
{
    let r = find_char(s, c);
    if r < 0 || r >= s.len() {
        seq![s]
    } else {
        seq![s.take(r)] + split_char(s.skip(r + 1), c)
    }
}

/// The segments of `s` between leftmost, greedily taken occurrences of `pat`;
/// a single segment holding all of `s` when `pat` is empty or absent.
pub open spec fn split_str(s: Seq<char>, pat: Seq<char>) -> Seq<Seq<char>>
    decreases s.len(),
{
    if pat.len() == 0 {
        seq![s]
    } else {
        let r = find_str(s, pat);
        if r < 0 || r + pat.len() > s.len() {
            seq![s]
        } else {
            seq![s.take(r)] + split_str(s.skip(r + pat.len()), pat)
        }
    }
}

/// An occurrence of `c` at position `i` that is not escaped by a backslash
/// right before it.
pub open spec fn unescaped_at(s: Seq<char>, c: char, i: int) -> bool {
    0 <= i < s.len() && s[i] == c && (i == 0 || s[i - 1] != '\\')
}

/// Index of the first unescaped occurrence of `c` at or after `from`, or -1.
pub open spec fn first_unescaped(s: Seq<char>, c: char, from: int) -> int
    decreases s.len() - from,
{
    if from < 0 || from >= s.len() {
        -1
    } else if unescaped_at(s, c, from) {
        from
    } else {
        first_unescaped(s, c, from + 1)
    }
}

pub proof fn lemma_first_unescaped(s: Seq<char>, c: char, from: int)
    requires
        0 <= from,
    ensures
        first_unescaped(s, c, from) == -1 ==> (forall|j: int|
            from <= j < s.len() ==> !unescaped_at(s, c, j)),
        first_unescaped(s, c, from) != -1 ==> from <= first_unescaped(s, c, from) < s.len()
            && unescaped_at(s, c, first_unescaped(s, c, from)) && (forall|j: int|
            from <= j < first_unescaped(s, c, from) ==> !unescaped_at(s, c, j)),
    decreases s.len() - from,
{
    if from < s.len() && !unescaped_at(s, c, from) {
        lemma_first_unescaped(s, c, from + 1);
    }
}

/// The segments of `s` between unescaped occurrences of `c`. The escaping
/// backslashes are kept in the segments, and an occurrence at the very start
/// of a segment always counts as unescaped.
pub open spec fn esc_split(s: Seq<char>, c: char) -> Seq<Seq<char>>
    decreases s.len(),
{
    let r = first_unescaped(s, c, 0);
    if r < 0 || r >= s.len() {
        seq![s]
    } else {
        seq![s.take(r)] + esc_split(s.skip(r + 1), c)
    }
}

/// Position of the leftmost occurrence of `pat` in `s`, scanning character by
/// character.
pub fn find_str_str(s: &str, pat: &str) -> (r: Option<usize>)
    requires
        pat@.len() > 0,
    ensures
        match r {
            Some(i) => find_str(s@, pat@) == i,
            None => find_str(s@, pat@) == -1,
        },
{
    proof {
        lemma_find_str(s@, pat@);
    }
    let len = s.unicode_len();
    let plen = pat.unicode_len();
    if plen > len {
        return None;
    }
    let mut i: usize = 0;
    while i <= len - plen
        invariant
            0 <= i <= len - plen + 1,
            plen <= len,
            len == s@.len(),
            plen == pat@.len(),
            forall|ii: int| 0 <= ii < i ==> !matches_at(s@, pat@, ii),
            find_str(s@, pat@) == -1 ==> (forall|ii: int| !matches_at(s@, pat@, ii)),
            find_str(s@, pat@) != -1 ==> 0 <= find_str(s@, pat@) && find_str(s@, pat@)
                + pat@.len() <= s@.len() && matches_at(s@, pat@, find_str(s@, pat@)) && (
            forall|ii: int| 0 <= ii < find_str(s@, pat@) ==> !matches_at(s@, pat@, ii)),
        decreases len - i,
    {
        let mut j: usize = 0;
        let mut hit = true;
        while hit && j < plen
            invariant
                0 <= j <= plen,
                i + plen <= len,
                len == s@.len(),
                plen == pat@.len(),
                hit ==> (forall|jj: int| 0 <= jj < j ==> s@[i + jj] == pat@[jj]),
                !hit ==> !matches_at(s@, pat@, i as int),
            decreases (if hit {
                plen + 1 - j
            } else {
                0
            }),
        {
            if s.get_char(i + j) != pat.get_char(j) {
                hit = false;
                proof {
                    assert(s@.subrange(i as int, i + plen)[j as int] == s@[i + j]);
                    assert(s@.subrange(i as int, i + plen) != pat@);
                }
            } else {
                j = j + 1;
            }
        }
        if hit {
            proof {
                assert(s@.subrange(i as int, i + plen) =~= pat@);
                assert(matches_at(s@, pat@, i as int));
            }
            return Some(i);
        }
        proof {
            assert(!matches_at(s@, pat@, i as int));
        }
        i = i + 1;
    }
    proof {
        assert forall|ii: int| !matches_at(s@, pat@, ii) by {
            if 0 <= ii && ii + pat@.len() <= s@.len() {
                assert(ii < i);
            }
        }
    }
    None
}

/// Position of the first unescaped occurrence of `c` in `s`.
pub fn first_unescaped_str(s: &str, c: char) -> (r: Option<usize>)
    ensures
        match r {
            Some(i) => first_unescaped(s@, c, 0) == i,
            None => first_unescaped(s@, c, 0) == -1,
        },
{
    proof {
        lemma_first_unescaped(s@, c, 0);
    }
    let len = s.unicode_len();
    let mut i: usize = 0;
    while i < len
        invariant
            0 <= i <= len,
            len == s@.len(),
            forall|j: int| 0 <= j < i ==> !unescaped_at(s@, c, j),
            first_unescaped(s@, c, 0) == -1 ==> (forall|j: int|
                0 <= j < s@.len() ==> !unescaped_at(s@, c, j)),
            first_unescaped(s@, c, 0) != -1 ==> 0 <= first_unescaped(s@, c, 0) < s@.len()
                && unescaped_at(s@, c, first_unescaped(s@, c, 0)) && (forall|j: int|
                0 <= j < first_unescaped(s@, c, 0) ==> !unescaped_at(s@, c, j)),
        decreases len - i,
    {
        if s.get_char(i) == c && (i == 0 || s.get_char(i - 1) != '\\') {
            proof {
                assert(unescaped_at(s@, c, i as int));
            }
            return Some(i);
        }
        proof {
            assert(!unescaped_at(s@, c, i as int));
        }
        i = i + 1;
    }
    None
}

/// The pieces of `s` between occurrences of `c`, as owned strings.
pub fn split_char_str(s: &str, c: char) -> (r: Vec<String>)
    ensures
        r@.len() == split_char(s@, c).len(),
        forall|i: int| 0 <= i < r@.len() ==> r@[i]@ == split_char(s@, c)[i],
    decreases s@.len(),
{
    proof {
        lemma_find_char(s@, c);
    }
    let len = s.unicode_len();
    match crate::chars::find_char_str(s, c) {
        None => {
            let mut v: Vec<String> = Vec::new();
            v.push(String::from_str(s));
            v
        },
        Some(k) => {
            let head = String::from_str(s.substring_char(0, k));
            let tail = s.substring_char(k + 1, len);
            proof {
                assert(tail@ =~= s@.skip(k + 1));
            }
            let mut rest = split_char_str(tail, c);
            let mut v: Vec<String> = Vec::new();
            v.push(head);
            v.append(&mut rest);
            proof {
                assert(head@ =~= s@.take(k as int));
            }
            v
        },
    }
}

/// The pieces of `s` between occurrences of the pattern `pat`, as owned
/// strings; all of `s` as a single piece when `pat` is empty.
pub fn split_str_str(s: &str, pat: &str) -> (r: Vec<String>)
    ensures
        r@.len() == split_str(s@, pat@).len(),
        forall|i: int| 0 <= i < r@.len() ==> r@[i]@ == split_str(s@, pat@)[i],
    decreases s@.len(),
{
    let len = s.unicode_len();
    let plen = pat.unicode_len();
    if plen == 0 {
        let mut v: Vec<String> = Vec::new();
        v.push(String::from_str(s));
        return v;
    }
    proof {
        lemma_find_str(s@, pat@);
    }
    match find_str_str(s, pat) {
        None => {
            let mut v: Vec<String> = Vec::new();
            v.push(String::from_str(s));
            v
        },
        Some(k) => {
            let head = String::from_str(s.substring_char(0, k));
            let tail = s.substring_char(k + plen, len);
            proof {
                assert(tail@ =~= s@.skip(k + plen));
            }
            let mut rest = split_str_str(tail, pat);
            let mut v: Vec<String> = Vec::new();
            v.push(head);
            v.append(&mut rest);
            proof {
                assert(head@ =~= s@.take(k as int));
            }
            v
        },
    }
}

/// The pieces of `s` between occurrences of `*ch` that are not escaped by a
/// backslash directly before them; the backslashes stay in the pieces.
pub fn split_with_escaped<'a>(s: &'a str, ch: &char) -> (r: Vec<&'a str>)
    ensures
        r@.len() == esc_split(s@, *ch).len(),
        forall|i: int| 0 <= i < r@.len() ==> r@[i]@ == esc_split(s@, *ch)[i],
    decreases s@.len(),
{
    proof {
        lemma_first_unescaped(s@, *ch, 0);
    }
    let len = s.unicode_len();
    match first_unescaped_str(s, *ch) {
        None => {
            let mut v: Vec<&'a str> = Vec::new();
            v.push(s);
            v
        },
        Some(k) => {
            let head = s.substring_char(0, k);
            let tail = s.substring_char(k + 1, len);
            proof {
                assert(tail@ =~= s@.skip(k + 1));
            }
            let mut rest = split_with_escaped(tail, ch);
            let mut v: Vec<&'a str> = Vec::new();
            v.push(head);
            v.append(&mut rest);
            proof {
                assert(head@ =~= s@.take(k as int));
            }
            v
        },
    }
}

} // verus!
