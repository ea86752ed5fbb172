//! Decimal numbers in the syslog envelope: parsing the `<NNN>` priority the
//! way a 16-bit signed decimal parse accepts it, and rendering small integers
//! back to decimal text.

use vstd::prelude::*;

verus! {

pub open spec fn is_digit(c: char) -> bool {
    c == '0' || c == '1' || c == '2' || c == '3' || c == '4' || c == '5' || c == '6' || c == '7'
        || c == '8' || c == '9'
}

pub open spec fn digit_val(c: char) -> int {
    if c == '0' {
        0
    } else if c == '1' {
        1
    } else if c == '2' {
        2
    } else if c == '3' {
        3
    } else if c == '4' {
        4
    } else if c == '5' {
        5
    } else if c == '6' {
        6
    } else if c == '7' {
        7
    } else if c == '8' {
        8
    } else {
        9
    }
}

pub open spec fn all_digits(s: Seq<char>) -> bool {
    forall|i: int| 0 <= i < s.len() ==> is_digit(s[i])
}

/// The value of an unsigned decimal digit string.
pub open spec fn dec_val(s: Seq<char>) -> int
    decreases s.len(),
{
    if s.len() == 0 {
        0
    } else {
        dec_val(s.drop_last()) * 10 + digit_val(s.last())
    }
}

/// What a 16-bit signed decimal parse makes of `s`: an optional single sign,
/// then at least one digit and nothing else, with the value within the 16-bit
/// signed range; `None` otherwise.
pub open spec fn parse_i16(s: Seq<char>) -> Option<int> {
    if s.len() == 0 {
        None
    } else {
        let body = if s[0] == '+' || s[0] == '-' {
            s.skip(1)
        } else {
            s
        };
        if body.len() == 0 || !all_digits(body) {
            None
        } else {
            let v = if s[0] == '-' {
                -dec_val(body)
            } else {
                dec_val(body)
            };
            if -32768 <= v <= 32767 {
                Some(v)
            } else {
                None
            }
        }
    }
}

pub proof fn lemma_dec_val_nonneg(s: Seq<char>)
    ensures
        dec_val(s) >= 0,
    decreases s.len(),
{
    if s.len() > 0 {
        lemma_dec_val_nonneg(s.drop_last());
        assert(digit_val(s.last()) >= 0);
    }
}

/// A digit string is worth at least as much as any of its prefixes.
pub proof fn lemma_dec_val_prefix(s: Seq<char>, i: int)
    requires
        0 <= i <= s.len(),
    ensures
        dec_val(s) >= dec_val(s.take(i)),
    decreases s.len() - i,
{
    if i < s.len() {
        lemma_dec_val_prefix(s, i + 1);
        assert(s.take(i + 1).drop_last() =~= s.take(i));
        lemma_dec_val_nonneg(s.take(i));
        assert(dec_val(s.take(i + 1)) == dec_val(s.take(i)) * 10 + digit_val(s.take(i + 1).last()));
    } else {
        assert(s.take(i) =~= s);
    }
}

fn digit_of(c: char) -> (r: Option<u32>)
    ensures
        match r {
            Some(d) => is_digit(c) && d == digit_val(c) && d <= 9,
            None => !is_digit(c),
        },
{
    match c {
        '0' => Some(0),
        '1' => Some(1),
        '2' => Some(2),
        '3' => Some(3),
        '4' => Some(4),
        '5' => Some(5),
        '6' => Some(6),
        '7' => Some(7),
        '8' => Some(8),
        '9' => Some(9),
        _ => None,
    }
}

/// Reads `s` as a 16-bit signed decimal number.
pub fn parse_i16_str(s: &str) -> (r: Option<i32>)
    ensures
        match r {
            Some(v) => parse_i16(s@) == Some(v as int) && -32768 <= v <= 32767,
            None => parse_i16(s@) is None,
        },
{
    let len = s.unicode_len();
    if len == 0 {
        return None;
    }
    let first = s.get_char(0);
    let neg = first == '-';
    let start: usize = if first == '-' || first == '+' {
        1
    } else {
        0
    };
    let ghost body = if s@[0] == '+' || s@[0] == '-' {
        s@.skip(1)
    } else {
        s@
    };
    proof {
        assert(body =~= s@.skip(start as int));
    }
    if start == len {
        // a bare sign with no digits
        return None;
    }
    let mut acc: u32 = 0;
    let mut i: usize = start;
    while i < len
        invariant
            start <= i <= len,
            len == s@.len(),
            start < len,
            neg == (s@[0] == '-'),
            start == (if s@[0] == '+' || s@[0] == '-' {
                1int
            } else {
                0int
            }),
            body == s@.skip(start as int),
            body == (if s@[0] == '+' || s@[0] == '-' {
                s@.skip(1)
            } else {
                s@
            }),
            all_digits(body.take(i - start)),
            acc == dec_val(body.take(i - start)),
            acc <= 32768,
        decreases len - i,
    {
        let c = s.get_char(i);
        proof {
            assert(body.take(i - start + 1).drop_last() =~= body.take(i - start));
            assert(body.take(i - start + 1).last() == s@[i as int]);
        }
        match digit_of(c) {
            None => {
                // a non-digit anywhere in the body makes the parse fail
                proof {
                    assert(body[i - start] == s@[i as int]);
                    assert(!is_digit(body[i - start]));
                    assert(!all_digits(body));
                }
                return None;
            },
            Some(d) => {
                acc = acc * 10 + d;
                i = i + 1;
                if acc > 32768 {
                    // too large for the 16-bit range whatever follows
                    proof {
                        assert(acc == dec_val(body.take(i - start)));
                        if all_digits(body) {
                            lemma_dec_val_prefix(body, i - start);
                            assert(dec_val(body) >= acc);
                        }
                    }
                    return None;
                }
            },
        }
    }
    proof {
        assert(body.take(len - start) =~= body);
    }
    if neg {
        proof {
            lemma_dec_val_nonneg(body);
        }
        Some(0i32 - (acc as i32))
    } else if acc <= 32767 {
        Some(acc as i32)
    } else {
        // 32768 is out of range without the minus sign
        None
    }
}

pub open spec fn digit_char(d: int) -> char {
    if d == 0 {
        '0'
    } else if d == 1 {
        '1'
    } else if d == 2 {
        '2'
    } else if d == 3 {
        '3'
    } else if d == 4 {
        '4'
    } else if d == 5 {
        '5'
    } else if d == 6 {
        '6'
    } else if d == 7 {
        '7'
    } else if d == 8 {
        '8'
    } else {
        '9'
    }
}

/// The decimal rendering of a nonnegative number.
pub open spec fn dec_str_nat(n: int) -> Seq<char>
    decreases n,
{
    if n <= 9 {
        seq![digit_char(n)]
    } else {
        dec_str_nat(n / 10).push(digit_char(n % 10))
    }
}

/// The decimal rendering of a number, a minus sign first when negative.
pub open spec fn dec_str(n: int) -> Seq<char> {
    if n < 0 {
        seq!['-'] + dec_str_nat(-n)
    } else {
        dec_str_nat(n)
    }
}

fn digit_str(d: u32) -> (r: &'static str)
    requires
        d <= 9,
    ensures
        r@ =~= seq![digit_char(d as int)],
{
    let r = match d {
        0 => "0",
        1 => "1",
        2 => "2",
        3 => "3",
        4 => "4",
        5 => "5",
        6 => "6",
        7 => "7",
        8 => "8",
        _ => "9",
    };
    proof {
        reveal_strlit("0");
        reveal_strlit("1");
        reveal_strlit("2");
        reveal_strlit("3");
        reveal_strlit("4");
        reveal_strlit("5");
        reveal_strlit("6");
        reveal_strlit("7");
        reveal_strlit("8");
        reveal_strlit("9");
    }
    r
}

fn dec_str_nat_exec(n: u32) -> (r: String)
    ensures
        r@ == dec_str_nat(n as int),
    decreases n,
{
    if n <= 9 {
        String::from_str(digit_str(n))
    } else {
        let mut s = dec_str_nat_exec(n / 10);
        s.append(digit_str(n % 10));
        proof {
            assert(s@ =~= dec_str_nat((n / 10) as int).push(digit_char((n % 10) as int)));
        }
        s
    }
}

/// Renders `n` in decimal.
pub fn dec_str_exec(n: i32) -> (r: String)
    requires
        -32768 <= n <= 32767,
    ensures
        r@ == dec_str(n as int),
{
    if n < 0 {
        let mut s = String::from_str("-");
        proof {
            reveal_strlit("-");
        }
        s.append(dec_str_nat_exec((0 - n) as u32).as_str());
        proof {
            assert(s@ =~= seq!['-'] + dec_str_nat(-(n as int)));
        }
        s
    } else {
        dec_str_nat_exec(n as u32)
    }
}

} // verus!
