//! Tokenization of the event-attribute text into key/value pairs — by tabs,
//! by a header-declared delimiter, or by unescaped `=` with whitespace-driven
//! key extraction — and the folding of `<name>Label`/`<name>` pairs.

use vstd::prelude::*;
use crate::chars::{
    find_char, lemma_find_char, trim, trim_str, last_token, before_last_token, last_token_str,
    before_last_token_str,
};
use crate::split::{
    split_char, split_str, esc_split, split_char_str, split_str_str, split_with_escaped,
    find_str, find_str_str,
};
use crate::fields::{
    Fields, LeefMap, al_index_of, al_get, al_insert, al_remove, al_contains, lemma_al_index_of,
};

verus! {

/// The two-character sequence backslash-t, the spelled-out tab.
pub open spec fn backslash_t() -> Seq<char> {
    seq!['\\', 't']
}

/// The attribute text calls for the tab strategy: it holds a real tab or a
/// spelled-out one.
pub open spec fn has_tab_marker(s: Seq<char>) -> bool {
    find_char(s, '\t') >= 0 || find_str(s, backslash_t()) >= 0
}

/// The attribute tokens of the tab strategy: split on real tabs, or on the
/// spelled-out tab when real tabs yield a single token.
pub open spec fn tab_tokens(s: Seq<char>) -> Seq<Seq<char>> {
    let t1 = split_char(s, '\t');
    if t1.len() > 1 {
        t1
    } else {
        split_str(s, backslash_t())
    }
}

/// A token split once at its first `=` into key and value; a token without
/// `=` yields nothing.
pub open spec fn kv_of_token(t: Seq<char>) -> Option<(Seq<char>, Seq<char>)> {
    let r = find_char(t, '=');
    if r < 0 {
        None
    } else {
        Some((t.take(r), t.skip(r + 1)))
    }
}

/// Keyed insertion of each token's pair, in order, later keys overwriting
/// earlier ones.
pub open spec fn fold_tokens(toks: Seq<Seq<char>>) -> Fields
    decreases toks.len(),
{
    if toks.len() == 0 {
        Seq::empty()
    } else {
        let m = fold_tokens(toks.drop_last());
        match kv_of_token(toks.last()) {
            Some(kv) => al_insert(m, kv.0, kv.1),
            None => m,
        }
    }
}

/// The insertions of the first `n` overlapping segment pairs of the
/// whitespace strategy: for the pair (A, B), the key is the last
/// space-delimited token of A and the value is B short of its last token.
pub open spec fn ws_pairs(segs: Seq<Seq<char>>, n: int) -> Fields
    decreases n,
{
    if n <= 0 {
        Seq::empty()
    } else {
        al_insert(ws_pairs(segs, n - 1), last_token(segs[n - 1]), before_last_token(segs[n]))
    }
}

/// The whitespace strategy over the trimmed attribute text: split on
/// unescaped `=`, pair up neighbouring segments, then give the last key the
/// whole final segment as its value.
pub open spec fn ws_fields(raw: Seq<char>) -> Fields {
    let segs = esc_split(trim(raw), '=');
    if segs.len() < 2 {
        Seq::empty()
    } else {
        let base = ws_pairs(segs, segs.len() - 1);
        let lk = last_token(segs[segs.len() - 2]);
        if lk.len() > 0 {
            al_insert(base, lk, segs.last())
        } else {
            base
        }
    }
}

pub open spec fn label_suffix() -> Seq<char> {
    seq!['L', 'a', 'b', 'e', 'l']
}

/// The key ends in `Label`.
pub open spec fn is_label_key(k: Seq<char>) -> bool {
    k.len() >= 5 && k.skip(k.len() - 5) == label_suffix()
}

/// The key short of its `Label` suffix.
pub open spec fn stem_of(k: Seq<char>) -> Seq<char> {
    k.take(k.len() - 5)
}

/// The stems found among the first `n` entries: keys ending in `Label` whose
/// stem is itself a key of `al`.
pub open spec fn stems_upto(al: Fields, n: int) -> Seq<Seq<char>>
    decreases n,
{
    if n <= 0 {
        Seq::empty()
    } else {
        let prev = stems_upto(al, n - 1);
        let k = al[n - 1].0;
        if is_label_key(k) && al_contains(al, stem_of(k)) {
            prev.push(stem_of(k))
        } else {
            prev
        }
    }
}

pub open spec fn stems_of(al: Fields) -> Seq<Seq<char>> {
    stems_upto(al, al.len() as int)
}

/// `s` with every space removed.
pub open spec fn strip_spaces(s: Seq<char>) -> Seq<char>
    decreases s.len(),
{
    if s.len() == 0 {
        s
    } else {
        let p = strip_spaces(s.drop_last());
        if s.last() == ' ' {
            p
        } else {
            p.push(s.last())
        }
    }
}

/// One folding step for stem `e`: when both `<e>Label` and `<e>` are present,
/// both leave the mapping and the value of the label entry, its spaces
/// stripped, becomes the key of the stem entry's value.
pub open spec fn fold_step(al: Fields, e: Seq<char>) -> Fields {
    let lk = e + label_suffix();
    if al_contains(al, lk) && al_contains(al, e) {
        let lv = al[al_index_of(al, lk)].1;
        let sv = al[al_index_of(al, e)].1;
        al_insert(al_remove(al_remove(al, lk), e), strip_spaces(lv), sv)
    } else {
        al
    }
}

pub open spec fn fold_labels_upto(al: Fields, st: Seq<Seq<char>>, n: int) -> Fields
    decreases n,
{
    if n <= 0 {
        al
    } else {
        fold_step(fold_labels_upto(al, st, n - 1), st[n - 1])
    }
}

/// The label folding pass over the whole mapping: the stems are collected
/// from the entries in order, then folded one after the other.
pub open spec fn fold_labels(al: Fields) -> Fields {
    fold_labels_upto(al, stems_of(al), stems_of(al).len() as int)
}

/// What the attribute text yields: the tokens of the chosen strategy, folded
/// into a mapping, with the label pass applied.
pub open spec fn attrs_fields(raw: Seq<char>, delim: Option<Seq<char>>) -> Fields {
    let base = if has_tab_marker(raw) {
        fold_tokens(tab_tokens(raw))
    } else {
        match delim {
            Some(d) => fold_tokens(split_str(raw, d)),
            None => ws_fields(raw),
        }
    };
    fold_labels(base)
}

/// Removing the entry of one key leaves what any other key maps to untouched.
pub proof fn lemma_al_remove_other(al: Fields, k1: Seq<char>, k2: Seq<char>)
    requires
        k1 != k2,
    ensures
        al_get(al_remove(al, k1), k2) == al_get(al, k2),
        al_contains(al_remove(al, k1), k2) == al_contains(al, k2),
{
    lemma_al_index_of(al, k1);
    lemma_al_index_of(al, k2);
    let b = al_remove(al, k1);
    lemma_al_index_of(b, k2);
    if al_index_of(al, k1) != -1 {
        let r = al_index_of(al, k1);
        assert(b =~= al.remove(r));
        assert(b.len() == al.len() - 1);
        assert(forall|j: int| 0 <= j < r ==> b[j] == al[j]);
        assert(forall|j: int| r <= j < b.len() ==> b[j] == al[j + 1]);
        let i2 = al_index_of(al, k2);
        let j2 = al_index_of(b, k2);
        if i2 == -1 {
            if j2 != -1 {
                // the matching entry of b is an entry of al
                if j2 < r {
                    assert(al[j2].0 == k2);
                } else {
                    assert(al[j2 + 1].0 == k2);
                }
            }
        } else {
            assert(al[r].0 == k1);
            if i2 < r {
                assert(b[i2].0 == k2);
                if j2 == -1 {
                    assert(b[i2].0 != k2);
                }
                if j2 < i2 {
                    assert(al[j2].0 == b[j2].0);
                    assert(al[j2].0 != k2);
                }
                if j2 > i2 {
                    assert(b[i2].0 != k2);
                }
                assert(j2 == i2);
                assert(b[j2].1 == al[i2].1);
            } else {
                // i2 > r, since the keys at r and i2 differ
                assert(b[i2 - 1] == al[i2]);
                if j2 == -1 {
                    assert(b[i2 - 1].0 != k2);
                }
                assert(j2 <= i2 - 1);
                if j2 < i2 - 1 {
                    if j2 < r {
                        assert(al[j2].0 != k2);
                    } else {
                        assert(al[j2 + 1].0 != k2);
                        assert(b[j2].0 != k2);
                    }
                }
                assert(j2 == i2 - 1);
                assert(b[j2].1 == al[i2].1);
            }
        }
    }
}

/// Strips every space out of `s`.
pub fn strip_spaces_str(s: &str) -> (r: String)
    ensures
        r@ == strip_spaces(s@),
{
    let len = s.unicode_len();
    let mut r = String::new();
    let mut i: usize = 0;
    while i < len
        invariant
            0 <= i <= len,
            len == s@.len(),
            r@ == strip_spaces(s@.take(i as int)),
        decreases len - i,
    {
        proof {
            assert(s@.take(i + 1).drop_last() =~= s@.take(i as int));
            assert(s@.take(i + 1).last() == s@[i as int]);
        }
        if s.get_char(i) != ' ' {
            let piece = s.substring_char(i, i + 1);
            proof {
                assert(piece@ =~= seq![s@[i as int]]);
            }
            r.append(piece);
            proof {
                assert(r@ =~= strip_spaces(s@.take(i + 1)));
            }
        }
        i = i + 1;
    }
    proof {
        assert(s@.take(len as int) =~= s@);
    }
    r
}

/// Whether `k` ends in the letters `Label`.
fn is_label_key_str(k: &str) -> (r: bool)
    ensures
        r == is_label_key(k@),
{
    let len = k.unicode_len();
    if len < 5 {
        return false;
    }
    let r = k.get_char(len - 5) == 'L' && k.get_char(len - 4) == 'a' && k.get_char(len - 3) == 'b'
        && k.get_char(len - 2) == 'e' && k.get_char(len - 1) == 'l';
    proof {
        if r {
            assert(k@.skip(len - 5) =~= label_suffix());
        } else {
            if k@.skip(len - 5) == label_suffix() {
                assert(k@.skip(len - 5)[0] == k@[len - 5]);
                assert(k@.skip(len - 5)[1] == k@[len - 4]);
                assert(k@.skip(len - 5)[2] == k@[len - 3]);
                assert(k@.skip(len - 5)[3] == k@[len - 2]);
                assert(k@.skip(len - 5)[4] == k@[len - 1]);
            }
        }
    }
    r
}

/// Applies the label folding pass to `m`.
fn fold_labels_map(m: &mut LeefMap)
    requires
        old(m).wf(),
    ensures
        final(m)@ == fold_labels(old(m)@),
        final(m).wf(),
{
    let ghost al0 = m@;
    let n = m.len();
    let mut stems: Vec<String> = Vec::new();
    let mut i: usize = 0;
    while i < n
        invariant
            0 <= i <= n,
            n == m@.len(),
            m@ == al0,
            m.wf(),
            stems@.len() == stems_upto(al0, i as int).len(),
            forall|x: int| 0 <= x < stems@.len() ==> stems@[x]@ == stems_upto(al0, i as int)[x],
        decreases n - i,
    {
        let k = m.key_at(i);
        let klen = k.as_str().unicode_len();
        if is_label_key_str(k.as_str()) {
            let stem = String::from_str(k.as_str().substring_char(0, klen - 5));
            proof {
                assert(stem@ =~= stem_of(al0[i as int].0));
            }
            if m.contains_key(stem.as_str()) {
                stems.push(stem);
            }
        }
        i = i + 1;
    }
    let ghost st = stems_of(al0);
    proof {
        assert(st == stems_upto(al0, al0.len() as int));
    }
    let sn = stems.len();
    let mut j: usize = 0;
    while j < sn
        invariant
            0 <= j <= sn,
            sn == st.len(),
            forall|x: int| 0 <= x < sn ==> stems@[x]@ == st[x],
            stems@.len() == sn,
            m@ == fold_labels_upto(al0, st, j as int),
            m.wf(),
        decreases sn - j,
    {
        let e = &stems[j];
        let mut lk = e.clone();
        lk.append("Label");
        proof {
            reveal_strlit("Label");
            assert("Label"@ =~= label_suffix());
            assert(lk@ == e@ + label_suffix());
            assert(lk@.len() == e@.len() + 5);
        }
        if m.contains_key(lk.as_str()) && m.contains_key(e.as_str()) {
            let ghost before = m@;
            proof {
                lemma_al_index_of(before, lk@);
                lemma_al_index_of(before, e@);
                lemma_al_remove_other(before, lk@, e@);
            }
            let lv = match m.remove(lk.as_str()) {
                Some(x) => x,
                None => {
                    proof {
                        assert(false);
                    }
                    String::new()
                },
            };
            let sv = match m.remove(e.as_str()) {
                Some(x) => x,
                None => {
                    proof {
                        assert(false);
                    }
                    String::new()
                },
            };
            proof {
                lemma_al_index_of(before, lk@);
                assert(lv@ == before[al_index_of(before, lk@)].1);
                assert(sv@ == before[al_index_of(before, e@)].1);
            }
            let stripped = strip_spaces_str(lv.as_str());
            m.insert(stripped, sv);
            proof {
                assert(m@ =~= fold_step(before, st[j as int]));
            }
        } else {
            proof {
                assert(m@ == fold_step(m@, st[j as int]));
            }
        }
        j = j + 1;
    }
}

/// Splits the event-attribute text into its key/value mapping: by tabs when a
/// tab or a spelled-out tab occurs, by the declared delimiter when the header
/// carried one, and otherwise by unescaped `=` with space-delimited keys;
/// `<name>Label`/`<name>` pairs are folded afterwards.
pub fn parse_leef_event_attributes(s: &str, delim: Option<&str>) -> (r: LeefMap)
    ensures
        r@ == attrs_fields(
            s@,
            match delim {
                Some(d) => Some(d@),
                None => None,
            },
        ),
        r.wf(),
{
    let tab_pat = "\\t";
    proof {
        reveal_strlit("\\t");
        assert(tab_pat@ =~= backslash_t());
        lemma_find_char(s@, '\t');
    }
    let has_tab = match crate::chars::find_char_str(s, '\t') {
        Some(_) => true,
        None => find_str_str(s, tab_pat).is_some(),
    };
    let mut m: LeefMap;
    if has_tab {
        let tv = split_char_str(s, '\t');
        let toks: Vec<String> = if tv.len() > 1 {
            tv
        } else {
            split_str_str(s, tab_pat)
        };
        let ghost tks = tab_tokens(s@);
        m = fold_token_vec(&toks, Ghost(tks));
    } else {
        match delim {
            Some(d) => {
                let toks = split_str_str(s, d);
                let ghost tks = split_str(s@, d@);
                m = fold_token_vec(&toks, Ghost(tks));
            },
            None => {
                m = ws_fields_map(s);
            },
        }
    }
    fold_labels_map(&mut m);
    m
}

/// Folds a vector of tokens into a mapping, one `=`-split pair per token.
fn fold_token_vec(toks: &Vec<String>, Ghost(tks): Ghost<Seq<Seq<char>>>) -> (r: LeefMap)
    requires
        toks@.len() == tks.len(),
        forall|i: int| 0 <= i < toks@.len() ==> toks@[i]@ == tks[i],
    ensures
        r@ == fold_tokens(tks),
        r.wf(),
{
    let mut m = LeefMap::new();
    let n = toks.len();
    let mut i: usize = 0;
    while i < n
        invariant
            0 <= i <= n,
            n == tks.len(),
            toks@.len() == n,
            forall|x: int| 0 <= x < n ==> toks@[x]@ == tks[x],
            m@ == fold_tokens(tks.take(i as int)),
            m.wf(),
        decreases n - i,
    {
        let t = &toks[i];
        let tlen = t.as_str().unicode_len();
        proof {
            assert(tks.take(i + 1).drop_last() =~= tks.take(i as int));
            assert(tks.take(i + 1).last() == tks[i as int]);
            lemma_find_char(t@, '=');
        }
        match crate::chars::find_char_str(t.as_str(), '=') {
            Some(k) => {
                let key = String::from_str(t.as_str().substring_char(0, k));
                let val = String::from_str(t.as_str().substring_char(k + 1, tlen));
                proof {
                    assert(key@ =~= tks[i as int].take(find_char(tks[i as int], '=')));
                    assert(val@ =~= tks[i as int].skip(find_char(tks[i as int], '=') + 1));
                }
                m.insert(key, val);
            },
            None => {},
        }
        i = i + 1;
    }
    proof {
        assert(tks.take(n as int) =~= tks);
    }
    m
}

/// The whitespace strategy: unescaped-`=` segments, paired up.
fn ws_fields_map(s: &str) -> (r: LeefMap)
    ensures
        r@ == ws_fields(s@),
        r.wf(),
{
    let t = trim_str(s);
    let segs = split_with_escaped(t, &'=');
    let ghost sv = esc_split(trim(s@), '=');
    let n = segs.len();
    let mut m = LeefMap::new();
    if n < 2 {
        return m;
    }
    let mut i: usize = 0;
    while i < n - 1
        invariant
            0 <= i <= n - 1,
            2 <= n,
            n == sv.len(),
            segs@.len() == n,
            forall|x: int| 0 <= x < n ==> segs@[x]@ == sv[x],
            m@ == ws_pairs(sv, i as int),
            m.wf(),
        decreases n - i,
    {
        let key = String::from_str(last_token_str(segs[i]));
        let val = String::from_str(before_last_token_str(segs[i + 1]));
        m.insert(key, val);
        i = i + 1;
    }
    let lk = last_token_str(segs[n - 2]);
    if lk.unicode_len() > 0 {
        m.insert(String::from_str(lk), String::from_str(segs[n - 1]));
    }
    m
}

} // verus!
