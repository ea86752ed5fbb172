//! The parsing pipeline: marker detection, envelope stripping, header
//! extraction, and the assembly of the flat output mapping.

use vstd::prelude::*;
use crate::chars::{
    count_char, count_char_str, find_char, find_char_str, lemma_find_char, last_char,
    last_char_str, lemma_last_char, trim, trim_str,
};
use crate::split::{split_char, split_char_str, split_str, split_str_str};
use crate::fields::{Fields, LeefMap, al_get, al_insert};
use crate::attrs::{attrs_fields, parse_leef_event_attributes};
use crate::num::{parse_i16, parse_i16_str, dec_str, dec_str_exec};
use crate::error::Error;

verus! {

/// A case-insensitive `LEEF:1.0|` or `LEEF:2.0|` marker stands at position
/// `i` of `s`.
pub open spec fn is_marker_at(s: Seq<char>, i: int) -> bool {
    0 <= i && i + 9 <= s.len() && (s[i] == 'l' || s[i] == 'L') && (s[i + 1] == 'e' || s[i + 1]
        == 'E') && (s[i + 2] == 'e' || s[i + 2] == 'E') && (s[i + 3] == 'f' || s[i + 3] == 'F')
        && s[i + 4] == ':' && (s[i + 5] == '1' || s[i + 5] == '2') && s[i + 6] == '.' && s[i + 7]
        == '0' && s[i + 8] == '|'
}

/// `s` holds a case-insensitive `LEEF:1.0|` or `LEEF:2.0|` marker somewhere.
pub open spec fn has_marker(s: Seq<char>) -> bool {
    exists|i: int| is_marker_at(s, i)
}

/// The upper-case marker prefix the line is cut apart on.
pub open spec fn leef_pat() -> Seq<char> {
    seq!['L', 'E', 'E', 'F', ':']
}

/// The nonempty segments of `ss`, kept in order.
pub open spec fn nonempty_segs(ss: Seq<Seq<char>>) -> Seq<Seq<char>>
    decreases ss.len(),
{
    if ss.len() == 0 {
        Seq::empty()
    } else {
        let p = nonempty_segs(ss.drop_last());
        if ss.last().len() > 0 {
            p.push(ss.last())
        } else {
            p
        }
    }
}

/// The nonempty pieces of the line between exact `LEEF:` prefixes.
pub open spec fn leef_segments(s: Seq<char>) -> Seq<Seq<char>> {
    nonempty_segs(split_str(s, leef_pat()))
}

/// The LEEF payload: the last nonempty piece.
pub open spec fn payload_of(s: Seq<char>) -> Seq<char> {
    let segs = leef_segments(s);
    if segs.len() == 0 {
        Seq::empty()
    } else {
        segs.last()
    }
}

/// What the syslog envelope contributes: facility and severity rendered in
/// decimal, a timestamp, and a host, each only when derived.
pub ghost struct EnvSpec {
    pub facility: Option<Seq<char>>,
    pub priority: Option<Seq<char>>,
    pub at: Option<Seq<char>>,
    pub ahost: Option<Seq<char>>,
}

pub open spec fn empty_env() -> EnvSpec {
    EnvSpec { facility: None, priority: None, at: None, ahost: None }
}

/// The permissive heuristic telling a timestamp from a host name: a dash, or
/// both a colon and a dash, or any space at all reads as a timestamp.
pub open spec fn is_datetime(s: Seq<char>) -> bool {
    (find_char(s, ':') >= 0 && find_char(s, '-') >= 0) || find_char(s, '-') >= 0 || count_char(
        s,
        ' ',
    ) >= 1
}

/// A lone token is a timestamp or a host, by the heuristic. The result is
/// the pair (timestamp, host).
pub open spec fn classify_single(d: Seq<char>) -> (Option<Seq<char>>, Option<Seq<char>>) {
    if is_datetime(d) {
        (Some(d), None)
    } else {
        (None, Some(d))
    }
}

/// Host and timestamp read off the envelope text after the priority, driven
/// by its space count; the result is the pair (timestamp, host).
pub open spec fn host_time(d: Seq<char>) -> (Option<Seq<char>>, Option<Seq<char>>) {
    let sc = count_char(d, ' ');
    if sc == 1 {
        let k = last_char(d, ' ');
        let right = d.skip(k + 1);
        let left = d.take(k);
        if right.len() > 0 && left.len() > 0 {
            (Some(left), Some(right))
        } else if right.len() > 0 {
            classify_single(right)
        } else if left.len() > 0 {
            classify_single(left)
        } else {
            (None, None)
        }
    } else if sc == 2 {
        (Some(d), None)
    } else if sc > 2 {
        let k = last_char(d, ' ');
        let right = d.skip(k + 1);
        let left = d.take(k);
        if right.len() > 0 && left.len() > 0 {
            (Some(left), Some(right))
        } else if right.len() > 0 {
            (Some(right), Some(right))
        } else if left.len() > 0 {
            (Some(left), Some(left))
        } else {
            (None, None)
        }
    } else {
        classify_single(d)
    }
}

/// What the trimmed envelope text yields: a `<NNN>` prefix that parses as a
/// 16-bit number gives facility (the number shifted right by three) and
/// severity (its lowest three bits), both in decimal; the rest is read as
/// host and timestamp.
pub open spec fn envelope(env: Seq<char>) -> EnvSpec {
    if env.len() > 0 && env[0] == '<' && find_char(env, '>') >= 0 {
        let g = find_char(env, '>');
        let pri = parse_i16(env.subrange(1, g));
        let data = env.skip(g + 1);
        let ht = host_time(data);
        match pri {
            Some(p) => EnvSpec {
                facility: Some(dec_str(p / 8)),
                priority: Some(dec_str(p % 8)),
                at: ht.0,
                ahost: ht.1,
            },
            None => EnvSpec { facility: None, priority: None, at: ht.0, ahost: ht.1 },
        }
    } else {
        let ht = host_time(env);
        EnvSpec { facility: None, priority: None, at: ht.0, ahost: ht.1 }
    }
}

/// The envelope of the line: present only when exactly two nonempty pieces
/// stand around the `LEEF:` markers.
pub open spec fn env_of(s: Seq<char>) -> EnvSpec {
    let segs = leef_segments(s);
    if segs.len() == 2 {
        envelope(trim(segs[0]))
    } else {
        empty_env()
    }
}

/// The five fixed header names, assigned in order to the trimmed pieces of
/// the header text after its version piece; names beyond the supplied pieces
/// stay absent.
pub open spec fn header_fields(hp: Seq<char>) -> Fields {
    let fs = split_char(hp, '|');
    let al0 = Seq::<(Seq<char>, Seq<char>)>::empty();
    let al1 = if fs.len() >= 2 {
        al_insert(al0, "deviceVendor"@, trim(fs[1]))
    } else {
        al0
    };
    let al2 = if fs.len() >= 3 {
        al_insert(al1, "deviceProduct"@, trim(fs[2]))
    } else {
        al1
    };
    let al3 = if fs.len() >= 4 {
        al_insert(al2, "deviceVersion"@, trim(fs[3]))
    } else {
        al2
    };
    let al4 = if fs.len() >= 5 {
        al_insert(al3, "eventId"@, trim(fs[4]))
    } else {
        al3
    };
    let al5 = if fs.len() >= 6 {
        al_insert(al4, "delimiter"@, trim(fs[5]))
    } else {
        al4
    };
    al5
}

/// The header mapping of the line: the payload up to its last pipe.
pub open spec fn header_of(s: Seq<char>) -> Fields {
    header_fields(payload_of(s).take(last_char(payload_of(s), '|')))
}

/// The unparsed attribute text of the line: the payload after its last pipe.
pub open spec fn attrs_raw_of(s: Seq<char>) -> Seq<char> {
    payload_of(s).skip(last_char(payload_of(s), '|') + 1)
}

/// Insertion of every entry of `extra` into `base`, in order.
pub open spec fn al_extend(base: Fields, extra: Fields) -> Fields
    decreases extra.len(),
{
    if extra.len() == 0 {
        base
    } else {
        al_insert(al_extend(base, extra.drop_last()), extra.last().0, extra.last().1)
    }
}

/// The output mapping of a line that passed all checks: header fields, then
/// host, timestamp, facility and severity where derived, then the parsed
/// attributes, then the trimmed raw line when asked for.
pub open spec fn parse_ok(s: Seq<char>, preserve: bool) -> Fields {
    let hdr = header_of(s);
    let e = env_of(s);
    let m1 = match e.ahost {
        Some(h) => al_insert(hdr, "ahost"@, h),
        None => hdr,
    };
    let m2 = match e.at {
        Some(t) => al_insert(m1, "at"@, t),
        None => m1,
    };
    let m3 = match e.facility {
        Some(f) => al_insert(m2, "syslog_facility"@, f),
        None => m2,
    };
    let m4 = match e.priority {
        Some(p) => al_insert(m3, "syslog_priority"@, p),
        None => m3,
    };
    let araw = attrs_raw_of(s);
    let m5 = if araw.len() > 0 {
        al_extend(m4, attrs_fields(araw, al_get(header_of(s), "delimiter"@)))
    } else {
        m4
    };
    if preserve {
        al_insert(m5, "rawEvent"@, trim(s))
    } else {
        m5
    }
}

/// What parsing makes of a line: `NotLeef` without a marker, `MalformedLeef`
/// when fewer than five pipes appear or the payload has none, and otherwise
/// the assembled mapping.
pub open spec fn parse_spec(s: Seq<char>, preserve: bool) -> Result<Fields, Error> {
    if !has_marker(s) {
        Err(Error::NotLeef)
    } else if count_char(s, '|') < 5 {
        Err(Error::MalformedLeef)
    } else if leef_segments(s).len() == 0 {
        Err(Error::MalformedLeef)
    } else if last_char(payload_of(s), '|') < 0 {
        Err(Error::MalformedLeef)
    } else {
        Ok(parse_ok(s, preserve))
    }
}

/// Whether the marker stands anywhere in `s`.
pub fn has_marker_str(s: &str) -> (r: bool)
    ensures
        r == has_marker(s@),
{
    let len = s.unicode_len();
    if len < 9 {
        return false;
    }
    let mut i: usize = 0;
    while i <= len - 9
        invariant
            0 <= i <= len - 9 + 1,
            9 <= len,
            len == s@.len(),
            forall|ii: int| 0 <= ii < i ==> !is_marker_at(s@, ii),
        decreases len - i,
    {
        let c0 = s.get_char(i);
        let c1 = s.get_char(i + 1);
        let c2 = s.get_char(i + 2);
        let c3 = s.get_char(i + 3);
        let c4 = s.get_char(i + 4);
        let c5 = s.get_char(i + 5);
        let c6 = s.get_char(i + 6);
        let c7 = s.get_char(i + 7);
        let c8 = s.get_char(i + 8);
        if (c0 == 'l' || c0 == 'L') && (c1 == 'e' || c1 == 'E') && (c2 == 'e' || c2 == 'E') && (c3
            == 'f' || c3 == 'F') && c4 == ':' && (c5 == '1' || c5 == '2') && c6 == '.' && c7 == '0'
            && c8 == '|' {
            proof {
                assert(is_marker_at(s@, i as int));
            }
            return true;
        }
        proof {
            assert(!is_marker_at(s@, i as int));
        }
        i = i + 1;
    }
    proof {
        assert forall|ii: int| !is_marker_at(s@, ii) by {
            if 0 <= ii && ii + 9 <= s@.len() {
                assert(ii < i);
            }
        }
    }
    false
}

/// The quick look that tells a timestamp from a host name. The check is
/// deliberately loose: any dash, or any space, reads as a timestamp.
pub fn is_datetime_str(s: &str) -> (r: bool)
    ensures
        r == is_datetime(s@),
{
    let has_colon = find_char_str(s, ':').is_some();
    let has_dash = find_char_str(s, '-').is_some();
    proof {
        lemma_find_char(s@, ':');
        lemma_find_char(s@, '-');
    }
    (has_colon && has_dash) || has_dash || count_char_str(s, ' ') >= 1
}

/// A line split into what the downstream assembly needs.
pub struct LeefLine {
    pub syslog_facility: Option<String>,
    pub syslog_priority: Option<String>,
    pub at: Option<String>,
    pub ahost: Option<String>,
    pub leef_header: LeefMap,
    pub leef_event_attributes: String,
}

pub open spec fn opt_view(o: Option<String>) -> Option<Seq<char>> {
    match o {
        Some(x) => Some(x@),
        None => None,
    }
}

/// The facility is the priority number shifted right by three, the severity
/// its lowest three bits — arithmetic shift and mask, computed here as
/// flooring division and nonnegative remainder.
fn fac_pri(p: i32) -> (r: (i32, i32))
    requires
        -32768 <= p <= 32767,
    ensures
        r.0 == p as int / 8,
        r.1 == p as int % 8,
        -4096 <= r.0 <= 4095,
        0 <= r.1 <= 7,
{
    if p >= 0 {
        let pu = p as u32;
        let q = pu / 8;
        let b = pu % 8;
        proof {
            vstd::arithmetic::div_mod::lemma_fundamental_div_mod(pu as int, 8);
            vstd::arithmetic::div_mod::lemma_fundamental_div_mod_converse_div(
                p as int,
                8,
                q as int,
                b as int,
            );
            vstd::arithmetic::div_mod::lemma_fundamental_div_mod_converse_mod(
                p as int,
                8,
                q as int,
                b as int,
            );
        }
        (q as i32, b as i32)
    } else {
        let np = (0 - p) as u32;
        let a = np / 8;
        let b = np % 8;
        proof {
            vstd::arithmetic::div_mod::lemma_fundamental_div_mod(np as int, 8);
        }
        if b == 0 {
            proof {
                vstd::arithmetic::div_mod::lemma_fundamental_div_mod_converse_div(
                    p as int,
                    8,
                    -(a as int),
                    0,
                );
                vstd::arithmetic::div_mod::lemma_fundamental_div_mod_converse_mod(
                    p as int,
                    8,
                    -(a as int),
                    0,
                );
            }
            (0 - (a as i32), 0)
        } else {
            proof {
                vstd::arithmetic::div_mod::lemma_fundamental_div_mod_converse_div(
                    p as int,
                    8,
                    -(a as int) - 1,
                    8 - b as int,
                );
                vstd::arithmetic::div_mod::lemma_fundamental_div_mod_converse_mod(
                    p as int,
                    8,
                    -(a as int) - 1,
                    8 - b as int,
                );
            }
            (0 - (a as i32) - 1, 8 - (b as i32))
        }
    }
}

/// Reads the host and timestamp out of the envelope text after the priority.
/// Returns (timestamp, host).
fn host_time_str(d: &str) -> (r: (Option<String>, Option<String>))
    ensures
        opt_view(r.0) == host_time(d@).0,
        opt_view(r.1) == host_time(d@).1,
{
    let len = d.unicode_len();
    let sc = count_char_str(d, ' ');
    proof {
        lemma_last_char(d@, ' ');
    }
    if sc == 1 || sc > 2 {
        let k = match last_char_str(d, ' ') {
            Some(k) => k,
            None => {
                proof {
                    crate::chars::lemma_count_char_zero(d@, ' ');
                }
                0
            },
        };
        let right = d.substring_char(k + 1, len);
        let left = d.substring_char(0, k);
        let rlen = right.unicode_len();
        let llen = left.unicode_len();
        if sc == 1 {
            if rlen > 0 && llen > 0 {
                (Some(String::from_str(left)), Some(String::from_str(right)))
            } else if rlen > 0 {
                classify_single_str(right)
            } else if llen > 0 {
                classify_single_str(left)
            } else {
                (None, None)
            }
        } else {
            if rlen > 0 && llen > 0 {
                (Some(String::from_str(left)), Some(String::from_str(right)))
            } else if rlen > 0 {
                (Some(String::from_str(right)), Some(String::from_str(right)))
            } else if llen > 0 {
                (Some(String::from_str(left)), Some(String::from_str(left)))
            } else {
                (None, None)
            }
        }
    } else if sc == 2 {
        (Some(String::from_str(d)), None)
    } else {
        classify_single_str(d)
    }
}

/// Classifies a lone token as timestamp or host. Returns (timestamp, host).
fn classify_single_str(d: &str) -> (r: (Option<String>, Option<String>))
    ensures
        opt_view(r.0) == classify_single(d@).0,
        opt_view(r.1) == classify_single(d@).1,
{
    if is_datetime_str(d) {
        (Some(String::from_str(d)), None)
    } else {
        (None, Some(String::from_str(d)))
    }
}

/// Splits the line into header mapping, envelope fields and attribute text.
/// It fails exactly where the whole parse fails: no marker, or fewer than
/// five pipes, or a payload without a pipe.
pub fn parse_leef_line(s: &str) -> (r: Result<LeefLine, Error>)
    ensures
        match r {
            Ok(l) => has_marker(s@) && count_char(s@, '|') >= 5 && leef_segments(s@).len() > 0
                && last_char(payload_of(s@), '|') >= 0 && l.leef_header@ == header_of(s@)
                && l.leef_header.wf() && opt_view(l.ahost) == env_of(s@).ahost && opt_view(l.at)
                == env_of(s@).at && opt_view(l.syslog_facility) == env_of(s@).facility && opt_view(
                l.syslog_priority,
            ) == env_of(s@).priority && l.leef_event_attributes@ == attrs_raw_of(s@),
            Err(e) => parse_spec(s@, true) == Err::<Fields, Error>(e) && parse_spec(s@, false)
                == Err::<Fields, Error>(e),
        },
{
    if !has_marker_str(s) {
        return Err(Error::NotLeef);
    }
    if count_char_str(s, '|') < 5 {
        return Err(Error::MalformedLeef);
    }
    let pat = "LEEF:";
    proof {
        reveal_strlit("LEEF:");
        assert(pat@ =~= leef_pat());
    }
    let parts = split_str_str(s, pat);
    let ghost pseq = split_str(s@, leef_pat());
    let mut segs: Vec<String> = Vec::new();
    let pn = parts.len();
    let mut i: usize = 0;
    while i < pn
        invariant
            0 <= i <= pn,
            pn == pseq.len(),
            parts@.len() == pn,
            forall|x: int| 0 <= x < pn ==> parts@[x]@ == pseq[x],
            segs@.len() == nonempty_segs(pseq.take(i as int)).len(),
            forall|x: int| 0 <= x < segs@.len() ==> segs@[x]@ == nonempty_segs(
                pseq.take(i as int),
            )[x],
        decreases pn - i,
    {
        proof {
            assert(pseq.take(i + 1).drop_last() =~= pseq.take(i as int));
            assert(pseq.take(i + 1).last() == pseq[i as int]);
        }
        if parts[i].as_str().unicode_len() > 0 {
            segs.push(parts[i].clone());
        }
        i = i + 1;
    }
    proof {
        assert(pseq.take(pn as int) =~= pseq);
    }
    let sn = segs.len();
    if sn == 0 {
        return Err(Error::MalformedLeef);
    }
    let payload = &segs[sn - 1];
    proof {
        assert(payload@ == payload_of(s@));
        lemma_last_char(payload@, '|');
    }
    let plen = payload.as_str().unicode_len();
    let j = match last_char_str(payload.as_str(), '|') {
        None => {
            return Err(Error::MalformedLeef);
        },
        Some(j) => j,
    };
    let header_part = payload.as_str().substring_char(0, j);
    let attrs_raw = String::from_str(payload.as_str().substring_char(j + 1, plen));
    proof {
        assert(header_part@ == payload_of(s@).take(last_char(payload_of(s@), '|')));
        assert(attrs_raw@ == attrs_raw_of(s@));
    }
    let fs = split_char_str(header_part, '|');
    let ghost fseq = split_char(header_part@, '|');
    let nfields = fs.len();
    let mut hdr = LeefMap::new();
    if nfields >= 2 {
        hdr.insert(
            String::from_str("deviceVendor"),
            String::from_str(trim_str(fs[1].as_str())),
        );
    }
    if nfields >= 3 {
        hdr.insert(
            String::from_str("deviceProduct"),
            String::from_str(trim_str(fs[2].as_str())),
        );
    }
    if nfields >= 4 {
        hdr.insert(
            String::from_str("deviceVersion"),
            String::from_str(trim_str(fs[3].as_str())),
        );
    }
    if nfields >= 5 {
        hdr.insert(String::from_str("eventId"), String::from_str(trim_str(fs[4].as_str())));
    }
    if nfields >= 6 {
        hdr.insert(String::from_str("delimiter"), String::from_str(trim_str(fs[5].as_str())));
    }
    proof {
        assert(hdr@ =~= header_of(s@));
    }
    let mut facility: Option<String> = None;
    let mut priority: Option<String> = None;
    let mut at: Option<String> = None;
    let mut ahost: Option<String> = None;
    if sn == 2 {
        let env = trim_str(segs[0].as_str());
        let elen = env.unicode_len();
        proof {
            lemma_find_char(env@, '>');
        }
        if elen > 0 && env.get_char(0) == '<' && find_char_str(env, '>').is_some() {
            let g = match find_char_str(env, '>') {
                Some(g) => g,
                None => {
                    proof {
                        assert(false);
                    }
                    0
                },
            };
            let pri_str = env.substring_char(1, g);
            let data = env.substring_char(g + 1, elen);
            proof {
                assert(pri_str@ == env@.subrange(1, g as int));
                assert(data@ == env@.skip(g as int + 1));
            }
            match parse_i16_str(pri_str) {
                Some(p) => {
                    let fp = fac_pri(p);
                    facility = Some(dec_str_exec(fp.0));
                    priority = Some(dec_str_exec(fp.1));
                },
                None => {},
            }
            let ht = host_time_str(data);
            at = ht.0;
            ahost = ht.1;
        } else {
            let ht = host_time_str(env);
            at = ht.0;
            ahost = ht.1;
        }
        proof {
            assert(env@ == trim(leef_segments(s@)[0]));
        }
    }
    Ok(
        LeefLine {
            syslog_facility: facility,
            syslog_priority: priority,
            at,
            ahost,
            leef_header: hdr,
            leef_event_attributes: attrs_raw,
        },
    )
}

/// Parses one LEEF line, optionally syslog-wrapped, into its flat mapping.
/// `preserve_orig` adds the trimmed original line under `rawEvent`.
pub fn leef_to_map(leef_str: &str, preserve_orig: bool) -> (r: Result<LeefMap, Error>)
    ensures
        match r {
            Ok(m) => parse_spec(leef_str@, preserve_orig) == Ok::<Fields, Error>(m@) && m.wf(),
            Err(e) => parse_spec(leef_str@, preserve_orig) == Err::<Fields, Error>(e),
        },
{
    let line = match parse_leef_line(leef_str) {
        Err(e) => {
            return Err(e);
        },
        Ok(l) => l,
    };
    let delim_owned: Option<String> = match line.leef_header.get("delimiter") {
        Some(v) => Some(v.clone()),
        None => None,
    };
    let mut map = line.leef_header;
    match line.ahost {
        Some(h) => {
            map.insert(String::from_str("ahost"), h);
        },
        None => {},
    }
    match line.at {
        Some(t) => {
            map.insert(String::from_str("at"), t);
        },
        None => {},
    }
    match line.syslog_facility {
        Some(f) => {
            map.insert(String::from_str("syslog_facility"), f);
        },
        None => {},
    }
    match line.syslog_priority {
        Some(p) => {
            map.insert(String::from_str("syslog_priority"), p);
        },
        None => {},
    }
    let ghost m4 = map@;
    if line.leef_event_attributes.as_str().unicode_len() > 0 {
        let attrs = parse_leef_event_attributes(
            line.leef_event_attributes.as_str(),
            match &delim_owned {
                Some(d) => Some(d.as_str()),
                None => None,
            },
        );
        let ghost aseq = attrs@;
        let an = attrs.len();
        let mut x: usize = 0;
        while x < an
            invariant
                0 <= x <= an,
                an == aseq.len(),
                attrs@ == aseq,
                map@ == al_extend(m4, aseq.take(x as int)),
                map.wf(),
            decreases an - x,
        {
            proof {
                assert(aseq.take(x + 1).drop_last() =~= aseq.take(x as int));
                assert(aseq.take(x + 1).last() == aseq[x as int]);
            }
            let k = attrs.key_at(x).clone();
            let v = attrs.value_at(x).clone();
            map.insert(k, v);
            x = x + 1;
        }
        proof {
            assert(aseq.take(an as int) =~= aseq);
        }
    }
    if preserve_orig {
        map.insert(String::from_str("rawEvent"), String::from_str(trim_str(leef_str)));
    }
    proof {
        assert(map@ == parse_ok(leef_str@, preserve_orig));
    }
    Ok(map)
}

} // verus!
