//! Decimal numerals and period-clock values.
//!
//! The stats feed carries event ids, team ids and elapsed period time as
//! text; notifications carry scores and the time remaining in a period as
//! text. This module gives both directions an exact specification: what a
//! numeral is worth, and which numeral a number prints as.

use vstd::prelude::*;
use vstd::string::StringExecFns;
use vstd::string::StrSliceExecFns;

verus! {

/// Seconds in one day; the period clock wraps at this bound, as a
/// time-of-day clock does.
pub const SECONDS_PER_DAY: u32 = 86400;

pub open spec fn is_dec_digit(c: char) -> bool {
    '0' <= c && c <= '9'
}

pub open spec fn all_dec_digits(s: Seq<char>) -> bool {
    forall|i: int| 0 <= i < s.len() ==> is_dec_digit(#[trigger] s[i])
}

/// Numeric value of a single digit character.
pub open spec fn digit_val(c: char) -> nat {
    (c as int - '0' as int) as nat
}

/// The digit character for a value below ten.
pub open spec fn digit_char(d: nat) -> char {
    if d == 0 {
        '0'
    } else if d == 1 {
        '1'
    } else if d == 2 {
        '2'
    } else if d == 3 {
        '3'
    } else if d == 4 {
        '4'
    } else if d == 5 {
        '5'
    } else if d == 6 {
        '6'
    } else if d == 7 {
        '7'
    } else if d == 8 {
        '8'
    } else {
        '9'
    }
}

/// The value of a decimal numeral, most significant digit first.
pub open spec fn dec_value(s: Seq<char>) -> nat
    decreases s.len(),
{
    if s.len() == 0 {
        0
    } else {
        dec_value(s.drop_last()) * 10 + digit_val(s.last())
    }
}

/// The canonical decimal numeral of a number: no sign, no leading zeros,
/// a single `'0'` for zero.
pub open spec fn dec_digits(n: nat) -> Seq<char>
    decreases n,
{
    if n < 10 {
        seq![digit_char(n)]
    } else {
        dec_digits(n / 10).push(digit_char(n % 10))
    }
}

/// Extending a numeral with further digits never lowers its value.
proof fn lemma_dec_value_prefix(s: Seq<char>, i: int)
    requires
        0 <= i <= s.len(),
    ensures
        dec_value(s.take(i)) <= dec_value(s),
    decreases s.len() - i,
{
    if i < s.len() {
        assert(s.take(i + 1).drop_last() =~= s.take(i));
        assert(s.take(i + 1).last() == s[i]);
        assert(dec_value(s.take(i + 1)) == dec_value(s.take(i)) * 10 + digit_val(s[i]));
        lemma_dec_value_prefix(s, i + 1);
    } else {
        assert(s.take(i) =~= s);
    }
}

/// The one-character string for a digit value.
pub fn digit_str(d: u32) -> (r: &'static str)
    requires
        d < 10,
    ensures
        r@ == seq![digit_char(d as nat)],
{
    proof {
        reveal_strlit("0");
        reveal_strlit("1");
        reveal_strlit("2");
        reveal_strlit("3");
        reveal_strlit("4");
        reveal_strlit("5");
        reveal_strlit("6");
        reveal_strlit("7");
        reveal_strlit("8");
        reveal_strlit("9");
    }
    let r = if d == 0 {
        "0"
    } else if d == 1 {
        "1"
    } else if d == 2 {
        "2"
    } else if d == 3 {
        "3"
    } else if d == 4 {
        "4"
    } else if d == 5 {
        "5"
    } else if d == 6 {
        "6"
    } else if d == 7 {
        "7"
    } else {
        "8"
    };
    let r = if d == 9 { "9" } else { r };
    proof {
        assert(r@ =~= seq![digit_char(d as nat)]);
    }
    r
}

/// Prints a number as its canonical decimal numeral.
pub fn u32_to_string(n: u32) -> (r: String)
    ensures
        r@ == dec_digits(n as nat),
    decreases n,
{
    if n < 10 {
        digit_str(n).to_owned()
    } else {
        let mut s = u32_to_string(n / 10);
        s.append(digit_str(n % 10));
        proof {
            assert(s@ =~= dec_digits(n as nat));
        }
        s
    }
}

/// The digits of a numeral: everything past an optional leading plus
/// sign.
pub open spec fn numeral_digits(s: Seq<char>) -> Seq<char> {
    if s.len() > 0 && s[0] == '+' {
        s.drop_first()
    } else {
        s
    }
}

/// Reads a decimal numeral: an optional leading plus sign, then digits.
/// Accepts exactly the numerals with at least one digit whose value fits;
/// anything else is `None`.
pub fn parse_u32(s: &str) -> (r: Option<u32>)
    ensures
        match r {
            Some(v) => {
                let d = numeral_digits(s@);
                d.len() > 0 && all_dec_digits(d) && v == dec_value(d)
            },
            None => {
                let d = numeral_digits(s@);
                d.len() == 0 || !all_dec_digits(d) || dec_value(d) > u32::MAX
            },
        },
{
    let len = s.unicode_len();
    if len > 0 && s.get_char(0) as u32 == 43 {
        let rest = s.substring_char(1, len);
        proof {
            assert(s@[0] == '+');
            assert(rest@ =~= numeral_digits(s@));
        }
        parse_u32_digits(rest)
    } else {
        proof {
            assert(numeral_digits(s@) == s@);
        }
        parse_u32_digits(s)
    }
}

/// Reads an unsigned all-digit numeral.
fn parse_u32_digits(s: &str) -> (r: Option<u32>)
    ensures
        match r {
            Some(v) => s@.len() > 0 && all_dec_digits(s@) && v == dec_value(s@),
            None => s@.len() == 0 || !all_dec_digits(s@) || dec_value(s@) > u32::MAX,
        },
{
    let len = s.unicode_len();
    if len == 0 {
        return None;
    }
    let mut acc: u32 = 0;
    let mut i: usize = 0;
    while i < len
        invariant
            0 <= i <= len,
            len == s@.len(),
            all_dec_digits(s@.take(i as int)),
            acc == dec_value(s@.take(i as int)),
        decreases len - i,
    {
        let c = s.get_char(i);
        let cv = c as u32;
        if cv < 48 || cv > 57 {
            proof {
                assert(!is_dec_digit(s@[i as int]));
            }
            return None;
        }
        let d = cv - 48;
        proof {
            assert(s@.take(i + 1).drop_last() =~= s@.take(i as int));
            assert(s@.take(i + 1).last() == s@[i as int]);
            assert(d as nat == digit_val(s@[i as int]));
        }
        let shifted = match acc.checked_mul(10) {
            Some(x) => x,
            None => {
                proof {
                    lemma_dec_value_prefix(s@, i + 1);
                }
                return None;
            },
        };
        let next = match shifted.checked_add(d) {
            Some(x) => x,
            None => {
                proof {
                    lemma_dec_value_prefix(s@, i + 1);
                }
                return None;
            },
        };
        acc = next;
        i = i + 1;
    }
    proof {
        assert(s@.take(len as int) =~= s@);
    }
    Some(acc)
}

/// Well-formed halves of a period clock reading: one or two digits each,
/// minutes and seconds both below sixty.
pub open spec fn mmss_parts_ok(mm: Seq<char>, ss: Seq<char>) -> bool {
    &&& 1 <= mm.len() <= 2
    &&& 1 <= ss.len() <= 2
    &&& all_dec_digits(mm)
    &&& all_dec_digits(ss)
    &&& dec_value(mm) < 60
    &&& dec_value(ss) < 60
}

/// Position `c` splits the reading into well-formed minutes and seconds.
pub open spec fn is_mmss_split(s: Seq<char>, c: int) -> bool {
    &&& 0 <= c < s.len()
    &&& s[c] == ':'
    &&& mmss_parts_ok(s.take(c), s.skip(c + 1))
}

/// A well-formed period clock reading: minutes, a colon, seconds, each
/// half one or two digits and below sixty.
pub open spec fn valid_mmss(s: Seq<char>) -> bool {
    exists|c: int| #[trigger] is_mmss_split(s, c)
}

/// Seconds denoted by a well-formed clock reading.
pub open spec fn mmss_seconds(s: Seq<char>) -> nat {
    let c = choose|c: int| is_mmss_split(s, c);
    dec_value(s.take(c)) * 60 + dec_value(s.skip(c + 1))
}

/// Only one position can split a reading: the minute half is all digits,
/// so it holds no earlier colon.
proof fn lemma_mmss_split_unique(s: Seq<char>, c1: int, c2: int)
    requires
        is_mmss_split(s, c1),
        is_mmss_split(s, c2),
    ensures
        c1 == c2,
{
    if c1 < c2 {
        assert(s.take(c2)[c1] == s[c1]);
    }
    if c2 < c1 {
        assert(s.take(c1)[c2] == s[c2]);
    }
}

/// The first colon of the text, or its length when it has none.
fn find_first_colon(s: &str) -> (r: usize)
    ensures
        r <= s@.len(),
        forall|j: int| 0 <= j < r ==> s@[j] != ':',
        r < s@.len() ==> s@[r as int] == ':',
{
    let len = s.unicode_len();
    let mut i: usize = 0;
    while i < len
        invariant
            0 <= i <= len,
            len == s@.len(),
            forall|j: int| 0 <= j < i ==> s@[j] != ':',
        decreases len - i,
    {
        if s.get_char(i) as u32 == 58 {
            proof {
                assert(s@[i as int] == ':');
            }
            return i;
        }
        i = i + 1;
    }
    len
}

/// Reads a period clock value as seconds.
pub fn parse_mmss(s: &str) -> (r: Option<u32>)
    ensures
        match r {
            Some(v) => valid_mmss(s@) && v == mmss_seconds(s@) && v < 3600,
            None => !valid_mmss(s@),
        },
{
    let len = s.unicode_len();
    let c = find_first_colon(s);
    proof {
        // Any split position is the first colon: the minute half is all
        // digits, so no colon stands before it.
        assert forall|w: int| is_mmss_split(s@, w) implies w == c as int by {
            if w < c {
                assert(s@[w] == ':');
            }
            if w > c {
                assert(c < s@.len());
                assert(s@.take(w)[c as int] == s@[c as int]);
                assert(!is_dec_digit(s@[c as int]));
            }
        }
    }
    if c == len {
        return None;
    }
    if c < 1 || c > 2 {
        return None;
    }
    let after = len - c - 1;
    if after < 1 || after > 2 {
        return None;
    }
    let ghost mm = s@.take(c as int);
    let ghost ss = s@.skip(c + 1);
    proof {
        assert(mm.len() == c);
        assert(ss.len() == after);
        assert(forall|j: int| 0 <= j < mm.len() ==> mm[j] == s@[j]);
        assert(forall|j: int| 0 <= j < ss.len() ==> ss[j] == s@[j + c + 1]);
    }
    let minutes = match parse_two_digits(s, 0, c) {
        Some(v) => v,
        None => {
            return None;
        },
    };
    let seconds = match parse_two_digits(s, c + 1, len) {
        Some(v) => v,
        None => {
            return None;
        },
    };
    if minutes >= 60 || seconds >= 60 {
        return None;
    }
    proof {
        assert(is_mmss_split(s@, c as int));
        let w = choose|w: int| is_mmss_split(s@, w);
        lemma_mmss_split_unique(s@, w, c as int);
    }
    Some(minutes * 60 + seconds)
}

/// Reads the one- or two-digit numeral at `from..to` of the text.
fn parse_two_digits(s: &str, from: usize, to: usize) -> (r: Option<u32>)
    requires
        from < to <= s@.len(),
        to - from <= 2,
    ensures
        match r {
            Some(v) => all_dec_digits(s@.subrange(from as int, to as int)) && v == dec_value(
                s@.subrange(from as int, to as int),
            ),
            None => !all_dec_digits(s@.subrange(from as int, to as int)),
        },
{
    let ghost d = s@.subrange(from as int, to as int);
    let c0 = s.get_char(from) as u32;
    if c0 < 48 || c0 > 57 {
        proof {
            assert(d[0] == s@[from as int]);
            assert(!is_dec_digit(d[0]));
        }
        return None;
    }
    if to - from == 1 {
        proof {
            assert(d =~= seq![s@[from as int]]);
            assert(d.drop_last() =~= Seq::<char>::empty());
            assert(d.last() == d[0]);
            assert(dec_value(Seq::<char>::empty()) == 0);
            assert(dec_value(d) == digit_val(d[0]));
            assert forall|j: int| 0 <= j < d.len() implies is_dec_digit(#[trigger] d[j]) by {
                assert(j == 0);
            }
        }
        Some(c0 - 48)
    } else {
        let c1 = s.get_char(from + 1) as u32;
        if c1 < 48 || c1 > 57 {
            proof {
                assert(d[1] == s@[from + 1]);
                assert(!is_dec_digit(d[1]));
            }
            return None;
        }
        proof {
            assert(d.drop_last() =~= seq![s@[from as int]]);
            assert(d.drop_last().drop_last() =~= Seq::<char>::empty());
            assert(d.last() == s@[from + 1]);
            assert(is_dec_digit(d[0]) && is_dec_digit(d[1]));
            assert forall|j: int| 0 <= j < d.len() implies is_dec_digit(#[trigger] d[j]) by {
                assert(j == 0 || j == 1);
            }
            assert(d.drop_last().last() == d[0]);
            assert(dec_value(Seq::<char>::empty()) == 0);
            assert(dec_value(d.drop_last()) == digit_val(d[0]));
            assert(dec_value(d) == digit_val(d[0]) * 10 + digit_val(d[1]));
        }
        Some((c0 - 48) * 10 + (c1 - 48))
    }
}

/// Time remaining in a period once `elapsed` seconds have run off a period
/// of `period_len` seconds. A reading past the period's length wraps the
/// way a time-of-day clock does, one day around.
pub open spec fn spec_time_remaining(period_len: nat, elapsed: nat) -> nat {
    if elapsed <= period_len {
        (period_len - elapsed) as nat
    } else {
        (SECONDS_PER_DAY - (elapsed - period_len)) as nat
    }
}

pub fn time_remaining(period_len: u32, elapsed: u32) -> (r: u32)
    requires
        elapsed < SECONDS_PER_DAY,
        period_len < SECONDS_PER_DAY,
    ensures
        r == spec_time_remaining(period_len as nat, elapsed as nat),
        r < SECONDS_PER_DAY,
{
    if elapsed <= period_len {
        period_len - elapsed
    } else {
        SECONDS_PER_DAY - (elapsed - period_len)
    }
}

/// A value below one hundred printed as exactly two digits.
pub open spec fn two_digit_chars(n: nat) -> Seq<char> {
    seq![digit_char(n / 10), digit_char(n % 10)]
}

/// The clock text `MM:SS` for a count of seconds: minutes wrap at sixty,
/// as they do on a time-of-day clock.
pub open spec fn mmss_text(t: nat) -> Seq<char> {
    two_digit_chars((t / 60) % 60) + seq![':'] + two_digit_chars(t % 60)
}

/// Prints a count of seconds as `MM:SS` clock text.
pub fn format_mmss(t: u32) -> (r: String)
    ensures
        r@ == mmss_text(t as nat),
{
    let m = (t / 60) % 60;
    let s = t % 60;
    let mut out = digit_str(m / 10).to_owned();
    out.append(digit_str(m % 10));
    out.append(":");
    out.append(digit_str(s / 10));
    out.append(digit_str(s % 10));
    proof {
        reveal_strlit(":");
        assert(out@ =~= mmss_text(t as nat));
    }
    out
}

} // verus!
