//! The laws the parser obeys, stated over the spec-level pipeline and proved
//! once and for all.

use vstd::prelude::*;
use crate::chars::{count_char, last_char, trim};
use crate::error::Error;
use crate::fields::{Fields, al_insert, al_get, al_contains, al_index_of, lemma_al_index_of};
use crate::parse::{parse_spec, has_marker, leef_segments, payload_of};

verus! {

/// Parsing fails with `NotLeef` exactly on the lines without a
/// case-insensitive `LEEF:1.0|` or `LEEF:2.0|` marker.
pub proof fn lemma_not_leef(s: Seq<char>, preserve: bool)
    ensures
        (parse_spec(s, preserve) == Err::<Fields, Error>(Error::NotLeef)) <==> !has_marker(s),
{
}

/// A marked line with fewer than five pipes fails with `MalformedLeef`; and
/// every `MalformedLeef` outcome comes from a marked line whose pipes run
/// short — under five in the whole line, or none in the payload.
pub proof fn lemma_malformed_leef(s: Seq<char>, preserve: bool)
    ensures
        has_marker(s) && count_char(s, '|') < 5 ==> parse_spec(s, preserve) == Err::<
            Fields,
            Error,
        >(Error::MalformedLeef),
        (parse_spec(s, preserve) == Err::<Fields, Error>(Error::MalformedLeef)) <==> (has_marker(s)
            && (count_char(s, '|') < 5 || leef_segments(s).len() == 0 || last_char(
            payload_of(s),
            '|',
        ) < 0)),
{
}

/// Parsing succeeds exactly on the marked lines with five pipes or more
/// whose payload — the text after the last `LEEF:` piece — holds a pipe of
/// its own.
pub proof fn lemma_parse_success(s: Seq<char>, preserve: bool)
    ensures
        (parse_spec(s, preserve) is Ok) <==> (has_marker(s) && count_char(s, '|') >= 5
            && leef_segments(s).len() > 0 && last_char(payload_of(s), '|') >= 0),
{
}

/// Parsing is a function of the line alone: the same input parsed twice
/// yields the very same mapping, there is no hidden state.
pub proof fn lemma_parse_idempotent(s: Seq<char>, preserve: bool, m1: Fields, m2: Fields)
    requires
        parse_spec(s, preserve) == Ok::<Fields, Error>(m1),
        parse_spec(s, preserve) == Ok::<Fields, Error>(m2),
    ensures
        m1 == m2,
{
}

/// Inserting a key makes it present with the given value, and grows the
/// mapping by exactly one entry when the key was absent.
pub proof fn lemma_al_insert_get(al: Fields, k: Seq<char>, v: Seq<char>)
    ensures
        al_get(al_insert(al, k, v), k) == Some(v),
        al_insert(al, k, v).len() == (if al_contains(al, k) {
            al.len()
        } else {
            al.len() + 1
        }),
{
    lemma_al_index_of(al, k);
    let b = al_insert(al, k, v);
    lemma_al_index_of(b, k);
    let i = al_index_of(al, k);
    let j = al_index_of(b, k);
    if i == -1 {
        assert(b =~= al.push((k, v)));
        assert(b[al.len() as int].0 == k);
        if j == -1 {
            assert(b[al.len() as int].0 != k);
        }
        if j < al.len() {
            assert(al[j] == b[j]);
        }
        assert(j == al.len());
    } else {
        assert(b[i].0 == k);
        if j == -1 {
            assert(b[i].0 != k);
        }
        if j < i {
            assert(al[j] == b[j]);
        }
        if j > i {
            assert(b[i].0 != k);
        }
        assert(j == i);
    }
}

/// Asking for the raw line changes the outcome in one way only: the same
/// mapping, with the trimmed original inserted under `rawEvent` — one extra
/// entry whenever that key was not already among the parsed fields.
pub proof fn lemma_preserve_original(s: Seq<char>, m: Fields)
    requires
        parse_spec(s, false) == Ok::<Fields, Error>(m),
    ensures
        parse_spec(s, true) == Ok::<Fields, Error>(al_insert(m, "rawEvent"@, trim(s))),
        al_get(al_insert(m, "rawEvent"@, trim(s)), "rawEvent"@) == Some(trim(s)),
        !al_contains(m, "rawEvent"@) ==> al_insert(m, "rawEvent"@, trim(s)).len() == m.len() + 1,
{
    lemma_al_insert_get(m, "rawEvent"@, trim(s));
}

} // verus!
