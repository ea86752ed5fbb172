//! Character-level groundwork: whitespace, counting, first/last occurrence,
//! trimming, and space-delimited token extraction, each with a spec-level
//! definition over `Seq<char>` and an executable counterpart proved against it.

use vstd::prelude::*;

verus! {

/// The Unicode whitespace characters, as trimming understands them.
pub open spec fn is_ws(c: char) -> bool {
    c == '\u{9}' || c == '\u{a}' || c == '\u{b}' || c == '\u{c}' || c == '\u{d}' || c == ' '
        || c == '\u{85}' || c == '\u{a0}' || c == '\u{1680}' || c == '\u{2000}'
        || c == '\u{2001}' || c == '\u{2002}' || c == '\u{2003}' || c == '\u{2004}'
        || c == '\u{2005}' || c == '\u{2006}' || c == '\u{2007}' || c == '\u{2008}'
        || c == '\u{2009}' || c == '\u{200a}' || c == '\u{2028}' || c == '\u{2029}'
        || c == '\u{202f}' || c == '\u{205f}' || c == '\u{3000}'
}

pub fn is_ws_char(c: char) -> (r: bool)
    ensures
        r == is_ws(c),
{
    c == '\u{9}' || c == '\u{a}' || c == '\u{b}' || c == '\u{c}' || c == '\u{d}' || c == ' '
        || c == '\u{85}' || c == '\u{a0}' || c == '\u{1680}' || c == '\u{2000}'
        || c == '\u{2001}' || c == '\u{2002}' || c == '\u{2003}' || c == '\u{2004}'
        || c == '\u{2005}' || c == '\u{2006}' || c == '\u{2007}' || c == '\u{2008}'
        || c == '\u{2009}' || c == '\u{200a}' || c == '\u{2028}' || c == '\u{2029}'
        || c == '\u{202f}' || c == '\u{205f}' || c == '\u{3000}'
}

/// How often `c` occurs in `s`.
pub open spec fn count_char(s: Seq<char>, c: char) -> nat
    decreases s.len(),
{
    if s.len() == 0 {
        0
    } else {
        count_char(s.drop_last(), c) + (if s.last() == c { 1nat } else { 0nat })
    }
}

pub proof fn lemma_count_char_le(s: Seq<char>, c: char)
    ensures
        count_char(s, c) <= s.len(),
    decreases s.len(),
{
    if s.len() > 0 {
        lemma_count_char_le(s.drop_last(), c);
    }
}

pub proof fn lemma_count_char_zero(s: Seq<char>, c: char)
    ensures
        (count_char(s, c) == 0) <==> (forall|i: int| 0 <= i < s.len() ==> s[i] != c),
    decreases s.len(),
{
    if s.len() > 0 {
        lemma_count_char_zero(s.drop_last(), c);
        if count_char(s, c) == 0 {
            assert forall|i: int| 0 <= i < s.len() implies s[i] != c by {
                if i < s.len() - 1 {
                    assert(s.drop_last()[i] == s[i]);
                }
            }
        } else {
            if s.last() != c {
                let j = choose|j: int| 0 <= j < s.drop_last().len() && s.drop_last()[j] == c;
                assert(s[j] == c);
            }
        }
    }
}

pub fn count_char_str(s: &str, c: char) -> (n: usize)
    ensures
        n == count_char(s@, c),
{
    let len = s.unicode_len();
    let mut n: usize = 0;
    let mut i: usize = 0;
    proof {
        lemma_count_char_le(s@, c);
    }
    while i < len
        invariant
            0 <= i <= len,
            len == s@.len(),
            n == count_char(s@.take(i as int), c),
            n <= i,
        decreases len - i,
    {
        let ch = s.get_char(i);
        proof {
            assert(s@.take(i + 1).drop_last() =~= s@.take(i as int));
            assert(s@.take(i + 1).last() == s@[i as int]);
        }
        if ch == c {
            n = n + 1;
        }
        i = i + 1;
    }
    proof {
        assert(s@.take(len as int) =~= s@);
    }
    n
}

/// Index of the first occurrence of `c` in `s`, or -1.
pub open spec fn find_char(s: Seq<char>, c: char) -> int
    decreases s.len(),
{
    if s.len() == 0 {
        -1
    } else if s[0] == c {
        0
    } else {
        let r = find_char(s.skip(1), c);
        if r == -1 {
            -1
        } else {
            r + 1
        }
    }
}

pub proof fn lemma_find_char(s: Seq<char>, c: char)
    ensures
        find_char(s, c) == -1 ==> (forall|i: int| 0 <= i < s.len() ==> s[i] != c),
        find_char(s, c) != -1 ==> 0 <= find_char(s, c) < s.len() && s[find_char(s, c)] == c
            && (forall|i: int| 0 <= i < find_char(s, c) ==> s[i] != c),
    decreases s.len(),
{
    if s.len() > 0 && s[0] != c {
        lemma_find_char(s.skip(1), c);
        let r = find_char(s.skip(1), c);
        if r == -1 {
            assert forall|i: int| 0 <= i < s.len() implies s[i] != c by {
                if i > 0 {
                    assert(s.skip(1)[i - 1] == s[i]);
                }
            }
        } else {
            assert(s.skip(1)[r] == s[r + 1]);
            assert forall|i: int| 0 <= i < r + 1 implies s[i] != c by {
                if i > 0 {
                    assert(s.skip(1)[i - 1] == s[i]);
                }
            }
        }
    }
}

/// Index of the last occurrence of `c` in `s`, or -1.
pub open spec fn last_char(s: Seq<char>, c: char) -> int
    decreases s.len(),
{
    if s.len() == 0 {
        -1
    } else if s.last() == c {
        s.len() - 1
    } else {
        last_char(s.drop_last(), c)
    }
}

pub proof fn lemma_last_char(s: Seq<char>, c: char)
    ensures
        last_char(s, c) == -1 ==> (forall|i: int| 0 <= i < s.len() ==> s[i] != c),
        last_char(s, c) != -1 ==> 0 <= last_char(s, c) < s.len() && s[last_char(s, c)] == c
            && (forall|i: int| last_char(s, c) < i < s.len() ==> s[i] != c),
    decreases s.len(),
{
    if s.len() > 0 && s.last() != c {
        lemma_last_char(s.drop_last(), c);
        assert(forall|i: int| 0 <= i < s.drop_last().len() ==> s.drop_last()[i] == s[i]);
    }
}

pub fn find_char_str(s: &str, c: char) -> (r: Option<usize>)
    ensures
        match r {
            Some(i) => find_char(s@, c) == i,
            None => find_char(s@, c) == -1,
        },
{
    let len = s.unicode_len();
    let mut i: usize = 0;
    proof {
        lemma_find_char(s@, c);
    }
    while i < len
        invariant
            0 <= i <= len,
            len == s@.len(),
            forall|j: int| 0 <= j < i ==> s@[j] != c,
            find_char(s@, c) == -1 ==> (forall|j: int| 0 <= j < s@.len() ==> s@[j] != c),
            find_char(s@, c) != -1 ==> 0 <= find_char(s@, c) < s@.len()
                && s@[find_char(s@, c)] == c
                && (forall|j: int| 0 <= j < find_char(s@, c) ==> s@[j] != c),
        decreases len - i,
    {
        if s.get_char(i) == c {
            return Some(i);
        }
        i = i + 1;
    }
    None
}

pub fn last_char_str(s: &str, c: char) -> (r: Option<usize>)
    ensures
        match r {
            Some(i) => last_char(s@, c) == i,
            None => last_char(s@, c) == -1,
        },
{
    let len = s.unicode_len();
    let mut i: usize = len;
    proof {
        lemma_last_char(s@, c);
    }
    while i > 0
        invariant
            0 <= i <= len,
            len == s@.len(),
            forall|j: int| i <= j < len ==> s@[j] != c,
            last_char(s@, c) == -1 ==> (forall|j: int| 0 <= j < s@.len() ==> s@[j] != c),
            last_char(s@, c) != -1 ==> 0 <= last_char(s@, c) < s@.len()
                && s@[last_char(s@, c)] == c
                && (forall|j: int| last_char(s@, c) < j < s@.len() ==> s@[j] != c),
        decreases i,
    {
        i = i - 1;
        if s.get_char(i) == c {
            return Some(i);
        }
    }
    None
}

/// `s` with leading whitespace removed.
pub open spec fn trim_left(s: Seq<char>) -> Seq<char>
    decreases s.len(),
{
    if s.len() > 0 && is_ws(s[0]) {
        trim_left(s.skip(1))
    } else {
        s
    }
}

/// `s` with trailing whitespace removed.
pub open spec fn trim_right(s: Seq<char>) -> Seq<char>
    decreases s.len(),
{
    if s.len() > 0 && is_ws(s.last()) {
        trim_right(s.drop_last())
    } else {
        s
    }
}

/// `s` with leading and trailing whitespace removed.
pub open spec fn trim(s: Seq<char>) -> Seq<char> {
    trim_right(trim_left(s))
}

proof fn lemma_trim_left_skip(s: Seq<char>, k: int)
    requires
        0 <= k <= s.len(),
        forall|j: int| 0 <= j < k ==> is_ws(s[j]),
        k == s.len() || !is_ws(s[k]),
    ensures
        trim_left(s) == s.skip(k),
    decreases k,
{
    if k == 0 {
        assert(s.skip(0) =~= s);
    } else {
        lemma_trim_left_skip(s.skip(1), k - 1);
        assert(s.skip(1).skip(k - 1) =~= s.skip(k));
    }
}

proof fn lemma_trim_right_take(s: Seq<char>, k: int)
    requires
        0 <= k <= s.len(),
        forall|j: int| k <= j < s.len() ==> is_ws(s[j]),
        k == 0 || !is_ws(s[k - 1]),
    ensures
        trim_right(s) == s.take(k),
    decreases s.len() - k,
{
    if k == s.len() {
        assert(s.take(k) =~= s);
    } else {
        lemma_trim_right_take(s.drop_last(), k);
        assert(s.drop_last().take(k) =~= s.take(k));
    }
}

pub fn trim_str(s: &str) -> (r: &str)
    ensures
        r@ == trim(s@),
{
    let len = s.unicode_len();
    let mut a: usize = 0;
    loop
        invariant
            0 <= a <= len,
            len == s@.len(),
            forall|j: int| 0 <= j < a ==> is_ws(s@[j]),
        ensures
            0 <= a <= len,
            forall|j: int| 0 <= j < a ==> is_ws(s@[j]),
            a == len || !is_ws(s@[a as int]),
        decreases len - a,
    {
        if a >= len {
            break;
        }
        if !is_ws_char(s.get_char(a)) {
            break;
        }
        a = a + 1;
    }
    if a == len {
        // all whitespace
        proof {
            lemma_trim_left_skip(s@, len as int);
            assert(s@.skip(len as int) =~= Seq::<char>::empty());
        }
        let r = s.substring_char(len, len);
        proof {
            assert(r@ =~= trim(s@));
        }
        return r;
    }
    let mut b: usize = len;
    loop
        invariant
            a < len,
            a + 1 <= b <= len,
            len == s@.len(),
            !is_ws(s@[a as int]),
            forall|j: int| b <= j < len ==> is_ws(s@[j]),
        ensures
            a + 1 <= b <= len,
            forall|j: int| b <= j < len ==> is_ws(s@[j]),
            !is_ws(s@[b as int - 1]),
        decreases b,
    {
        if !is_ws_char(s.get_char(b - 1)) {
            break;
        }
        // s@[a] is not whitespace, so here b - 1 > a and b stays above a
        b = b - 1;
    }
    proof {
        lemma_trim_left_skip(s@, a as int);
        let t = s@.skip(a as int);
        assert forall|j: int| b - a <= j < t.len() implies is_ws(t[j]) by {
            assert(t[j] == s@[j + a]);
        }
        assert(t[b - a - 1] == s@[b as int - 1]);
        lemma_trim_right_take(t, b - a);
        assert(t.take(b - a) =~= s@.subrange(a as int, b as int));
    }
    let r = s.substring_char(a, b);
    r
}

/// Compares two string slices character by character.
pub fn str_eq(a: &str, b: &str) -> (r: bool)
    ensures
        r == (a@ == b@),
{
    let alen = a.unicode_len();
    let blen = b.unicode_len();
    if alen != blen {
        return false;
    }
    let mut i: usize = 0;
    while i < alen
        invariant
            0 <= i <= alen,
            alen == a@.len(),
            alen == b@.len(),
            forall|j: int| 0 <= j < i ==> a@[j] == b@[j],
        decreases alen - i,
    {
        if a.get_char(i) != b.get_char(i) {
            return false;
        }
        i = i + 1;
    }
    proof {
        assert(a@ =~= b@);
    }
    true
}

/// The text after the last space of `s`, or all of `s` when it has none:
/// the last space-delimited token.
pub open spec fn last_token(s: Seq<char>) -> Seq<char> {
    if last_char(s, ' ') == -1 {
        s
    } else {
        s.skip(last_char(s, ' ') + 1)
    }
}

/// The text before the last space of `s`, or empty when it has none:
/// everything but the last space-delimited token.
pub open spec fn before_last_token(s: Seq<char>) -> Seq<char> {
    if last_char(s, ' ') == -1 {
        Seq::empty()
    } else {
        s.take(last_char(s, ' '))
    }
}

pub fn last_token_str(s: &str) -> (r: &str)
    ensures
        r@ == last_token(s@),
{
    proof {
        lemma_last_char(s@, ' ');
    }
    let len = s.unicode_len();
    match last_char_str(s, ' ') {
        Some(k) => s.substring_char(k + 1, len),
        None => s,
    }
}

pub fn before_last_token_str(s: &str) -> (r: &str)
    ensures
        r@ == before_last_token(s@),
{
    proof {
        lemma_last_char(s@, ' ');
    }
    match last_char_str(s, ' ') {
        Some(k) => s.substring_char(0, k),
        None => {
            let r = s.substring_char(0, 0);
            proof {
                assert(r@ =~= Seq::<char>::empty());
            }
            r
        },
    }
}

} // verus!
