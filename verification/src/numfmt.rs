//! Decimal rendering and parsing of integers, with exact specifications.

use vstd::prelude::*;
use crate::text::{chars_vec, push_char};

verus! {

/// The digit character for a value below 10.
pub open spec fn digit_char(d: nat) -> char {
    if d == 0 {
        '0'
    } else if d == 1 {
        '1'
    } else if d == 2 {
        '2'
    } else if d == 3 {
        '3'
    } else if d == 4 {
        '4'
    } else if d == 5 {
        '5'
    } else if d == 6 {
        '6'
    } else if d == 7 {
        '7'
    } else if d == 8 {
        '8'
    } else {
        '9'
    }
}

/// The value of a digit character, or 10 if it is none.
pub open spec fn digit_val(c: char) -> nat {
    let u = c as u32;
    if 0x30 <= u && u <= 0x39 {
        (u - 0x30) as nat
    } else {
        10
    }
}

/// The decimal rendering of a natural number, without leading zeros.
pub open spec fn dec_str(n: nat) -> Seq<char>
    decreases n,
{
    if n < 10 {
        seq![digit_char(n)]
    } else {
        dec_str(n / 10) + seq![digit_char(n % 10)]
    }
}

/// The decimal rendering of an integer: a minus sign for negative values.
pub open spec fn dec_str_int(v: int) -> Seq<char> {
    if v < 0 {
        seq!['-'] + dec_str((-v) as nat)
    } else {
        dec_str(v as nat)
    }
}


/// The digit character for a value below 10.
fn digit_char_exec(d: u64) -> (c: char)
    requires
        d < 10,
    ensures
        c == digit_char(d as nat),
{
    if d == 0 {
        '0'
    } else if d == 1 {
        '1'
    } else if d == 2 {
        '2'
    } else if d == 3 {
        '3'
    } else if d == 4 {
        '4'
    } else if d == 5 {
        '5'
    } else if d == 6 {
        '6'
    } else if d == 7 {
        '7'
    } else if d == 8 {
        '8'
    } else {
        '9'
    }
}

/// Appends the decimal rendering of `n` to `out`.
fn push_dec(n: u64, out: &mut String)
    ensures
        final(out)@ == old(out)@ + dec_str(n as nat),
    decreases n,
{
    if n < 10 {
        push_char(out, digit_char_exec(n));
        proof {
            assert(out@ =~= old(out)@ + dec_str(n as nat));
        }
    } else {
        push_dec(n / 10, out);
        push_char(out, digit_char_exec(n % 10));
        proof {
            assert(out@ =~= old(out)@ + dec_str(n as nat));
        }
    }
}

/// The decimal rendering of an unsigned value.
pub fn u64_to_string(n: u64) -> (s: String)
    ensures
        s@ == dec_str(n as nat),
{
    let mut s = String::new();
    push_dec(n, &mut s);
    proof {
        assert(s@ =~= dec_str(n as nat));
    }
    s
}

/// The decimal rendering of a signed value.
pub fn i64_to_string(v: i64) -> (s: String)
    ensures
        s@ == dec_str_int(v as int),
{
    if v >= 0 {
        u64_to_string(v as u64)
    } else {
        let mag: u64 = ((-(v as i128)) as u64);
        let mut s = String::new();
        push_char(&mut s, '-');
        push_dec(mag, &mut s);
        proof {
            assert(s@ =~= dec_str_int(v as int));
        }
        s
    }
}

/// Whether every character of `s` is a decimal digit, and there is at
/// least one.
pub open spec fn all_digits(s: Seq<char>) -> bool {
    s.len() > 0 && forall|k: int| 0 <= k < s.len() ==> digit_val(#[trigger] s[k]) < 10
}

/// The value of a sequence of decimal digits.
pub open spec fn dec_val(s: Seq<char>) -> nat
    decreases s.len(),
{
    if s.len() == 0 {
        0
    } else {
        dec_val(s.take(s.len() - 1)) * 10 + digit_val(s[s.len() - 1])
    }
}

/// What `str::parse::<i32>` accepts: an optional sign followed by one or
/// more digits, whose value fits the type.
pub open spec fn parse_i32_spec(s: Seq<char>) -> Option<i32> {
    if s.len() > 0 && (s[0] == '-' || s[0] == '+') {
        let mag = s.skip(1);
        if all_digits(mag) {
            if s[0] == '-' && -(dec_val(mag) as int) >= i32::MIN && dec_val(mag) <= i32::MAX {
                Some((-(dec_val(mag) as int)) as i32)
            } else if s[0] == '+' && dec_val(mag) <= i32::MAX {
                Some(dec_val(mag) as i32)
            } else if s[0] == '-' && -(dec_val(mag) as int) == i32::MIN {
                Some(i32::MIN)
            } else {
                None
            }
        } else {
            None
        }
    } else if all_digits(s) && dec_val(s) <= i32::MAX {
        Some(dec_val(s) as i32)
    } else if all_digits(s) {
        None
    } else {
        None
    }
}

/// Digit values only grow a number as more digits are appended.
proof fn lemma_dec_val_prefix(s: Seq<char>, i: int)
    requires
        0 <= i <= s.len(),
    ensures
        dec_val(s.take(i)) <= dec_val(s),
    decreases s.len() - i,
{
    if i < s.len() {
        lemma_dec_val_prefix(s, i + 1);
        assert(s.take(i + 1).take(i) =~= s.take(i));
        assert(dec_val(s.take(i + 1)) == dec_val(s.take(i)) * 10 + digit_val(s[i]));
    } else {
        assert(s.take(i) =~= s);
    }
}

/// The value of the digits of `s`, accumulated left to right with an
/// early exit once the value can no longer fit an `i32` magnitude.
fn dec_val_exec(v: &Vec<char>, from: usize) -> (r: Option<u64>)
    requires
        from <= v@.len(),
    ensures
        match r {
            Some(n) => all_digits(v@.skip(from as int)) && n == dec_val(v@.skip(from as int)) && n
                <= 0x8000_0000u64,
            None => !all_digits(v@.skip(from as int)) || dec_val(v@.skip(from as int))
                > 0x8000_0000u64,
        },
{
    let ghost s = v@.skip(from as int);
    if from >= v.len() {
        return None;
    }
    let mut acc: u64 = 0;
    let mut i = from;
    while i < v.len()
        invariant
            from <= i <= v@.len(),
            s == v@.skip(from as int),
            acc == dec_val(s.take(i - from)),
            acc <= 0x8000_0000u64,
            forall|k: int| 0 <= k < i - from ==> digit_val(#[trigger] s[k]) < 10,
        decreases v@.len() - i,
    {
        let c = v[i];
        let u = c as u32;
        if !(0x30 <= u && u <= 0x39) {
            proof {
                assert(digit_val(s[i - from]) == 10);
            }
            return None;
        }
        let d = (u - 0x30) as u64;
        let next = acc * 10 + d;
        proof {
            assert(s.take(i - from + 1).take(i - from) =~= s.take(i - from));
            assert(s.take(i - from + 1)[i - from] == s[i - from]);
            assert(dec_val(s.take(i - from + 1)) == dec_val(s.take(i - from)) * 10 + digit_val(
                s[i - from],
            ));
        }
        if next > 0x8000_0000u64 {
            proof {
                lemma_dec_val_prefix(s, i - from + 1);
            }
            return None;
        }
        acc = next;
        i = i + 1;
    }
    proof {
        assert(s.take(v@.len() - from) =~= s);
    }
    Some(acc)
}


/// What `str::parse::<usize>` accepts: an optional plus sign followed by
/// one or more digits, whose value fits the type.
pub open spec fn parse_usize_spec(s: Seq<char>) -> Option<usize> {
    let mag = if s.len() > 0 && s[0] == '+' {
        s.skip(1)
    } else {
        s
    };
    if all_digits(mag) && dec_val(mag) <= usize::MAX {
        Some(dec_val(mag) as usize)
    } else {
        None
    }
}

/// The value of the digits of `v` from `from` on, accumulated with an
/// early exit once the value can no longer fit the machine's word.
fn dec_val_usize(v: &Vec<char>, from: usize) -> (r: Option<usize>)
    requires
        from <= v@.len(),
    ensures
        match r {
            Some(n) => all_digits(v@.skip(from as int)) && n == dec_val(v@.skip(from as int)),
            None => !all_digits(v@.skip(from as int)) || dec_val(v@.skip(from as int))
                > usize::MAX,
        },
{
    let ghost s = v@.skip(from as int);
    if from >= v.len() {
        return None;
    }
    let mut acc: u128 = 0;
    let mut i = from;
    while i < v.len()
        invariant
            from < v@.len(),
            from <= i <= v@.len(),
            s == v@.skip(from as int),
            acc == dec_val(s.take(i - from)),
            acc <= usize::MAX,
            forall|k: int| 0 <= k < i - from ==> digit_val(#[trigger] s[k]) < 10,
        decreases v@.len() - i,
    {
        let c = v[i];
        let u = c as u32;
        proof {
            assert(s.take(i - from + 1).take(i - from) =~= s.take(i - from));
            assert(s.take(i - from + 1)[i - from] == s[i - from]);
            assert(dec_val(s.take(i - from + 1)) == dec_val(s.take(i - from)) * 10 + digit_val(
                s[i - from],
            ));
        }
        if !(0x30 <= u && u <= 0x39) {
            proof {
                assert(digit_val(s[i - from]) == 10);
            }
            return None;
        }
        let next = acc * 10 + ((u - 0x30) as u128);
        if next > (usize::MAX as u128) {
            proof {
                lemma_dec_val_prefix(s, i - from + 1);
            }
            return None;
        }
        acc = next;
        i = i + 1;
    }
    proof {
        assert(s.take(v@.len() - from) =~= s);
    }
    Some(acc as usize)
}

/// Parses a decimal machine integer with an optional plus sign, as
/// `str::parse` does for an unsigned type.
pub fn parse_usize(s: &str) -> (r: Option<usize>)
    ensures
        r == parse_usize_spec(s@),
{
    let v = chars_vec(s);
    if v.len() > 0 && v[0] == '+' {
        dec_val_usize(&v, 1)
    } else {
        proof {
            assert(s@.skip(0) =~= s@);
        }
        dec_val_usize(&v, 0)
    }
}

/// Parses a decimal `i32` with an optional sign, as `str::parse` does.
pub fn parse_i32(s: &str) -> (r: Option<i32>)
    ensures
        r == parse_i32_spec(s@),
{
    let v = chars_vec(s);
    if v.len() == 0 {
        return None;
    }
    let c0 = v[0];
    if c0 == '-' || c0 == '+' {
        match dec_val_exec(&v, 1) {
            None => {
                proof {
                    if all_digits(s@.skip(1)) {
                        assert(dec_val(s@.skip(1)) > 0x8000_0000u64);
                    }
                }
                None
            },
            Some(n) => {
                if c0 == '-' {
                    if n == 0x8000_0000u64 {
                        Some(i32::MIN)
                    } else {
                        Some(-((n as i32)))
                    }
                } else {
                    if n <= 0x7FFF_FFFFu64 {
                        Some(n as i32)
                    } else {
                        None
                    }
                }
            },
        }
    } else {
        match dec_val_exec(&v, 0) {
            None => {
                proof {
                    assert(s@.skip(0) =~= s@);
                }
                None
            },
            Some(n) => {
                proof {
                    assert(s@.skip(0) =~= s@);
                }
                if n <= 0x7FFF_FFFFu64 {
                    Some(n as i32)
                } else {
                    None
                }
            },
        }
    }
}

} // verus!
