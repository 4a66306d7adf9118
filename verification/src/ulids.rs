//! The ULID endpoints: decoding Crockford-base32 ULIDs, rendering them
//! as UUIDs, and counting date criteria over their timestamps.  The
//! calendar itself is the date library's business; the counting logic is
//! verified over the values its wrappers yield.

use vstd::prelude::*;
use crate::text;
use crate::text::push_char;
use crate::wire;
use chrono::Datelike;

verus! {

/// The Crockford base32 value of a character, or 32 if it has none.
/// Both cases are accepted; the letters I, L, O and U are not in the
/// alphabet.
pub open spec fn b32_val(c: char) -> u32 {
    let u = c as u32;
    if 0x30 <= u && u <= 0x39 {  // 0-9
        (u - 0x30) as u32
    } else if 0x41 <= u && u <= 0x48 {  // A-H
        (u - 0x41 + 10) as u32
    } else if 0x61 <= u && u <= 0x68 {  // a-h
        (u - 0x61 + 10) as u32
    } else if u == 0x4A || u == 0x6A {  // J
        18
    } else if u == 0x4B || u == 0x6B {  // K
        19
    } else if u == 0x4D || u == 0x6D {  // M
        20
    } else if u == 0x4E || u == 0x6E {  // N
        21
    } else if 0x50 <= u && u <= 0x54 {  // P-T
        (u - 0x50 + 22) as u32
    } else if 0x70 <= u && u <= 0x74 {  // p-t
        (u - 0x70 + 22) as u32
    } else if 0x56 <= u && u <= 0x5A {  // V-Z
        (u - 0x56 + 27) as u32
    } else if 0x76 <= u && u <= 0x7A {  // v-z
        (u - 0x76 + 27) as u32
    } else {
        32
    }
}

/// Every character is in the alphabet.
pub open spec fn all_b32(s: Seq<char>) -> bool {
    forall|k: int| 0 <= k < s.len() ==> b32_val(#[trigger] s[k]) < 32
}

/// The value of a base32 digit string.
pub open spec fn b32_num(s: Seq<char>) -> nat
    decreases s.len(),
{
    if s.len() == 0 {
        0
    } else {
        (b32_num(s.take(s.len() - 1)) * 32 + b32_val(s[s.len() - 1])) as nat
    }
}

/// What parsing a ULID yields: 26 alphabet characters whose value fits
/// 128 bits.
pub open spec fn parse_ulid_spec(s: Seq<char>) -> Option<u128> {
    if s.len() == 26 && all_b32(s) && b32_num(s) < 0x1_0000_0000_0000_0000_0000_0000_0000_0000 {
        Some(b32_num(s) as u128)
    } else {
        None
    }
}

proof fn lemma_b32_prefix(s: Seq<char>, i: int)
    requires
        0 <= i <= s.len(),
    ensures
        b32_num(s.take(i)) <= b32_num(s),
    decreases s.len() - i,
{
    if i < s.len() {
        lemma_b32_prefix(s, i + 1);
        assert(s.take(i + 1).take(i) =~= s.take(i));
        assert(b32_num(s.take(i + 1)) == b32_num(s.take(i)) * 32 + b32_val(s[i]));
    } else {
        assert(s.take(i) =~= s);
    }
}

/// The Crockford base32 value of a character, or 32 if it has none.
fn b32_val_exec(c: char) -> (d: u32)
    ensures
        d == b32_val(c),
{
    let u = c as u32;
    if 0x30 <= u && u <= 0x39 {
        u - 0x30
    } else if 0x41 <= u && u <= 0x48 {
        u - 0x41 + 10
    } else if 0x61 <= u && u <= 0x68 {
        u - 0x61 + 10
    } else if u == 0x4A || u == 0x6A {
        18
    } else if u == 0x4B || u == 0x6B {
        19
    } else if u == 0x4D || u == 0x6D {
        20
    } else if u == 0x4E || u == 0x6E {
        21
    } else if 0x50 <= u && u <= 0x54 {
        u - 0x50 + 22
    } else if 0x70 <= u && u <= 0x74 {
        u - 0x70 + 22
    } else if 0x56 <= u && u <= 0x5A {
        u - 0x56 + 27
    } else if 0x76 <= u && u <= 0x7A {
        u - 0x76 + 27
    } else {
        32
    }
}

/// Parses a ULID string into its 128-bit value.
pub fn parse_ulid(s: &str) -> (r: Option<u128>)
    ensures
        r == parse_ulid_spec(s@),
{
    let v = text::chars_vec(s);
    if v.len() != 26 {
        return None;
    }
    let mut acc: u128 = 0;
    let mut i: usize = 0;
    while i < 26
        invariant
            v@.len() == 26,
            v@ == s@,
            i <= 26,
            acc == b32_num(v@.take(i as int)),
            acc < 0x1_0000_0000_0000_0000_0000_0000_0000_0000,
            forall|k: int| 0 <= k < i ==> b32_val(#[trigger] v@[k]) < 32,
        decreases 26 - i,
    {
        let d = b32_val_exec(v[i]);
        proof {
            assert(v@.take(i + 1).take(i as int) =~= v@.take(i as int));
            assert(v@.take(i + 1)[i as int] == v@[i as int]);
            assert(b32_num(v@.take(i + 1)) == b32_num(v@.take(i as int)) * 32 + b32_val(
                v@[i as int],
            ));
        }
        if d >= 32 {
            return None;
        }
        if acc > (u128::MAX - (d as u128)) / 32 {
            proof {
                lemma_b32_prefix(v@, i + 1);
            }
            return None;
        }
        acc = acc * 32 + (d as u128);
        i = i + 1;
    }
    proof {
        assert(v@.take(26) =~= v@);
        assert(all_b32(v@));
    }
    Some(acc)
}

/// The big-endian hexadecimal digits of a value, `count` of them,
/// lowercase.
pub open spec fn hex_digits(v: nat, count: nat) -> Seq<char>
    decreases count,
{
    if count == 0 {
        Seq::empty()
    } else {
        hex_digits(v / 16, (count - 1) as nat) + seq![wire::hex_digit_char((v % 16) as u32)]
    }
}

/// The hyphenated UUID rendering of a 128-bit value: 8-4-4-4-12
/// lowercase hexadecimal digits.
pub open spec fn uuid_text(v: u128) -> Seq<char> {
    let h = hex_digits(v as nat, 32);
    h.take(8) + seq!['-'] + h.subrange(8, 12) + seq!['-'] + h.subrange(12, 16) + seq!['-']
        + h.subrange(16, 20) + seq!['-'] + h.skip(20)
}

/// The big-endian hexadecimal digits of a value.
fn hex_digits_exec(v: u128, count: usize) -> (r: Vec<char>)
    ensures
        r@ == hex_digits(v as nat, count as nat),
        r@.len() == count,
    decreases count,
{
    proof {
        lemma_hex_digits_len(v as nat, count as nat);
    }
    if count == 0 {
        Vec::new()
    } else {
        let mut r = hex_digits_exec(v / 16, count - 1);
        let d = (v % 16) as u32;
        r.push(hex_digit_exec(d));
        proof {
            assert(r@ =~= hex_digits((v / 16) as nat, (count - 1) as nat) + seq![
                wire::hex_digit_char((v as nat % 16) as u32),
            ]);
        }
        r
    }
}

proof fn lemma_hex_digits_len(v: nat, count: nat)
    ensures
        hex_digits(v, count).len() == count,
    decreases count,
{
    if count > 0 {
        lemma_hex_digits_len(v / 16, (count - 1) as nat);
    }
}

/// The lowercase hexadecimal digit for a value below 16.
fn hex_digit_exec(d: u32) -> (c: char)
    requires
        d < 16,
    ensures
        c == wire::hex_digit_char(d),
{
    if d == 0 {
        '0'
    } else if d == 1 {
        '1'
    } else if d == 2 {
        '2'
    } else if d == 3 {
        '3'
    } else if d == 4 {
        '4'
    } else if d == 5 {
        '5'
    } else if d == 6 {
        '6'
    } else if d == 7 {
        '7'
    } else if d == 8 {
        '8'
    } else if d == 9 {
        '9'
    } else if d == 10 {
        'a'
    } else if d == 11 {
        'b'
    } else if d == 12 {
        'c'
    } else if d == 13 {
        'd'
    } else if d == 14 {
        'e'
    } else {
        'f'
    }
}


/// Appends the characters of `h` in `[from, to)` to `out`.
fn push_range(out: &mut String, h: &Vec<char>, from: usize, to: usize)
    requires
        from <= to <= h@.len(),
    ensures
        final(out)@ == old(out)@ + h@.subrange(from as int, to as int),
{
    let mut i = from;
    while i < to
        invariant
            from <= i <= to <= h@.len(),
            out@ == old(out)@ + h@.subrange(from as int, i as int),
        decreases to - i,
    {
        push_char(out, h[i]);
        proof {
            assert(out@ =~= old(out)@ + h@.subrange(from as int, i + 1));
        }
        i = i + 1;
    }
}

/// Renders a 128-bit value as a hyphenated UUID.
pub fn uuid_string(v: u128) -> (r: String)
    ensures
        r@ == uuid_text(v),
{
    let h = hex_digits_exec(v, 32);
    let mut out = String::new();
    push_range(&mut out, &h, 0, 8);
    push_char(&mut out, '-');
    push_range(&mut out, &h, 8, 12);
    push_char(&mut out, '-');
    push_range(&mut out, &h, 12, 16);
    push_char(&mut out, '-');
    push_range(&mut out, &h, 16, 20);
    push_char(&mut out, '-');
    push_range(&mut out, &h, 20, 32);
    proof {
        assert(h@.subrange(0, 8) =~= h@.take(8));
        assert(h@.subrange(20, 32) =~= h@.skip(20));
        assert(out@ =~= uuid_text(v));
    }
    out
}

/// All ULIDs parsed, or nothing if one of them is no ULID.
pub open spec fn parse_ulids(ss: Seq<Seq<char>>) -> Option<Seq<u128>>
    decreases ss.len(),
{
    if ss.len() == 0 {
        Some(Seq::empty())
    } else {
        match parse_ulid_spec(ss[0]) {
            None => None,
            Some(v) => match parse_ulids(ss.drop_first()) {
                None => None,
                Some(t) => Some(seq![v] + t),
            },
        }
    }
}

/// Converts each ULID to its UUID rendering, newest answer first: the
/// output lists the UUIDs in reverse input order.  Nothing if an input
/// is no ULID.
pub fn ulids_to_uuids(ulids: &Vec<String>) -> (r: Option<Vec<String>>)
    ensures
        ({
            let parsed = parse_ulids(ulids@.map_values(|p: String| p@));
            match r {
                Some(out) => parsed matches Some(vals) && out@.len() == vals.len() && forall|k: int|
                    0 <= k < vals.len() ==> (#[trigger] out@[k])@ == uuid_text(
                        vals[vals.len() - 1 - k],
                    ),
                None => parsed is None,
            }
        }),
{
    let ghost all = ulids@.map_values(|p: String| p@);
    let mut vals: Vec<u128> = Vec::new();
    let mut i: usize = 0;
    proof {
        assert(all.skip(0) =~= all);
        if parse_ulids(all) is Some {
            let t = parse_ulids(all)->0;
            assert(Seq::<u128>::empty() + t =~= t);
        }
    }
    while i < ulids.len()
        invariant
            i <= ulids@.len(),
            all == ulids@.map_values(|p: String| p@),
            vals@.len() == i,
            parse_ulids(all) == (match parse_ulids(all.skip(i as int)) {
                Some(t) => Some(vals@ + t),
                None => None::<Seq<u128>>,
            }),
        decreases ulids@.len() - i,
    {
        let ghost suffix = all.skip(i as int);
        proof {
            assert(suffix[0] == all[i as int]);
            assert(all[i as int] == ulids@[i as int]@);
        }
        match parse_ulid(ulids[i].as_str()) {
            None => {
                proof {
                    assert(parse_ulids(suffix) is None);
                }
                return None;
            },
            Some(v) => {
                let ghost prev = vals@;
                vals.push(v);
                proof {
                    assert(suffix.drop_first() =~= all.skip(i + 1));
                    if parse_ulids(suffix.drop_first()) is Some {
                        let t = parse_ulids(suffix.drop_first())->0;
                        assert(prev + (seq![v] + t) =~= (prev + seq![v]) + t);
                        assert(vals@ =~= prev + seq![v]);
                    }
                }
            },
        }
        i = i + 1;
    }
    proof {
        assert(all.skip(all.len() as int) =~= Seq::<Seq<char>>::empty());
        assert(vals@ + Seq::<u128>::empty() =~= vals@);
        assert(parse_ulids(all) == Some(vals@));
    }
    let mut out: Vec<String> = Vec::new();
    let mut k: usize = vals.len();
    while k > 0
        invariant
            k <= vals@.len(),
            out@.len() == vals@.len() - k,
            forall|j: int|
                0 <= j < out@.len() ==> (#[trigger] out@[j])@ == uuid_text(
                    vals@[vals@.len() - 1 - j],
                ),
        decreases k,
    {
        k = k - 1;
        out.push(uuid_string(vals[k]));
    }
    Some(out)
}

/// The month of a millisecond timestamp, in the calendar the date
/// library implements: the result depends on the timestamp alone.
pub uninterp spec fn month_of_ms(ms: i64) -> u32;

/// The day of the month of a millisecond timestamp: the result depends
/// on the timestamp alone.
pub uninterp spec fn day_of_ms(ms: i64) -> u32;

/// The weekday (days from Monday) of a millisecond timestamp: the
/// result depends on the timestamp alone.
pub uninterp spec fn weekday_of_ms(ms: i64) -> u32;

/// Relies on `chrono::DateTime::from_timestamp_millis` and
/// `Datelike::month`.
#[verifier::external_body]
fn month_exec(ms: i64) -> (r: u32)
    ensures
        r == month_of_ms(ms),
{
    chrono::DateTime::from_timestamp_millis(ms).map_or(0, |d| d.month())
}

/// Relies on `chrono::DateTime::from_timestamp_millis` and
/// `Datelike::day`.
#[verifier::external_body]
fn day_exec(ms: i64) -> (r: u32)
    ensures
        r == day_of_ms(ms),
{
    chrono::DateTime::from_timestamp_millis(ms).map_or(0, |d| d.day())
}

/// Relies on `chrono::DateTime::from_timestamp_millis` and
/// `Datelike::weekday`.
#[verifier::external_body]
fn weekday_exec(ms: i64) -> (r: u32)
    ensures
        r == weekday_of_ms(ms),
{
    chrono::DateTime::from_timestamp_millis(ms).map_or(7, |d| d.weekday().num_days_from_monday())
}

/// The millisecond timestamp a ULID carries in its top 48 bits.
pub open spec fn ulid_ms(v: u128) -> i64 {
    (v / 0x1_0000_0000_0000_0000_0000) as i64
}

/// The criteria counts of the ULID inspection endpoint.
#[derive(Debug, PartialEq, Eq, Structural, Clone, Copy)]
pub struct UlidCriteria {
    pub christmas_eve: i32,
    pub weekday: i32,
    pub future: i32,
    pub lsb_is_1: i32,
}

/// How many of the values fall on a December 24th.
pub open spec fn count_christmas_eve(vals: Seq<u128>) -> int
    decreases vals.len(),
{
    if vals.len() == 0 {
        0
    } else {
        count_christmas_eve(vals.drop_last()) + (
        if month_of_ms(ulid_ms(vals.last())) == 12 && day_of_ms(ulid_ms(vals.last())) == 24 {
            1int
        } else {
            0int
        })
    }
}

/// How many of the values fall on the given weekday.
pub open spec fn count_weekday(vals: Seq<u128>, weekday: u32) -> int
    decreases vals.len(),
{
    if vals.len() == 0 {
        0
    } else {
        count_weekday(vals.drop_last(), weekday) + (
        if weekday_of_ms(ulid_ms(vals.last())) == weekday {
            1int
        } else {
            0int
        })
    }
}

/// How many of the values carry a timestamp after `now_ms`.
pub open spec fn count_future(vals: Seq<u128>, now_ms: i64) -> int
    decreases vals.len(),
{
    if vals.len() == 0 {
        0
    } else {
        count_future(vals.drop_last(), now_ms) + (
        if ulid_ms(vals.last()) > now_ms {
            1int
        } else {
            0int
        })
    }
}

/// How many of the values have their lowest bit set.
pub open spec fn count_lsb(vals: Seq<u128>) -> int
    decreases vals.len(),
{
    if vals.len() == 0 {
        0
    } else {
        count_lsb(vals.drop_last()) + (
        if vals.last() % 2 == 1 {
            1int
        } else {
            0int
        })
    }
}

/// Counts the inspection criteria over the ULIDs, against the given
/// moment.  Nothing if an input is no ULID.
pub fn ulid_criteria(ulids: &Vec<String>, weekday: u32, now_ms: i64) -> (r: Option<UlidCriteria>)
    requires
        ulids@.len() < 0x8000_0000,
    ensures
        ({
            let parsed = parse_ulids(ulids@.map_values(|p: String| p@));
            match r {
                Some(c) => parsed matches Some(vals) && c.christmas_eve == count_christmas_eve(
                    vals,
                ) && c.weekday == count_weekday(vals, weekday) && c.future == count_future(
                    vals,
                    now_ms,
                ) && c.lsb_is_1 == count_lsb(vals),
                None => parsed is None,
            }
        }),
{
    let ghost all = ulids@.map_values(|p: String| p@);
    let mut vals: Vec<u128> = Vec::new();
    let mut i: usize = 0;
    proof {
        assert(all.skip(0) =~= all);
        if parse_ulids(all) is Some {
            let t = parse_ulids(all)->0;
            assert(Seq::<u128>::empty() + t =~= t);
        }
    }
    while i < ulids.len()
        invariant
            i <= ulids@.len(),
            all == ulids@.map_values(|p: String| p@),
            vals@.len() == i,
            parse_ulids(all) == (match parse_ulids(all.skip(i as int)) {
                Some(t) => Some(vals@ + t),
                None => None::<Seq<u128>>,
            }),
        decreases ulids@.len() - i,
    {
        let ghost suffix = all.skip(i as int);
        proof {
            assert(suffix[0] == all[i as int]);
            assert(all[i as int] == ulids@[i as int]@);
        }
        match parse_ulid(ulids[i].as_str()) {
            None => {
                proof {
                    assert(parse_ulids(suffix) is None);
                }
                return None;
            },
            Some(v) => {
                let ghost prev = vals@;
                vals.push(v);
                proof {
                    assert(suffix.drop_first() =~= all.skip(i + 1));
                    if parse_ulids(suffix.drop_first()) is Some {
                        let t = parse_ulids(suffix.drop_first())->0;
                        assert(prev + (seq![v] + t) =~= (prev + seq![v]) + t);
                        assert(vals@ =~= prev + seq![v]);
                    }
                }
            },
        }
        i = i + 1;
    }
    proof {
        assert(all.skip(all.len() as int) =~= Seq::<Seq<char>>::empty());
        assert(vals@ + Seq::<u128>::empty() =~= vals@);
        assert(parse_ulids(all) == Some(vals@));
    }
    let mut counts = UlidCriteria { christmas_eve: 0, weekday: 0, future: 0, lsb_is_1: 0 };
    let mut k: usize = 0;
    while k < vals.len()
        invariant
            ulids@.len() < 0x8000_0000,
            vals@.len() <= ulids@.len(),
            k <= vals@.len(),
            counts.christmas_eve == count_christmas_eve(vals@.take(k as int)),
            counts.weekday == count_weekday(vals@.take(k as int), weekday),
            counts.future == count_future(vals@.take(k as int), now_ms),
            counts.lsb_is_1 == count_lsb(vals@.take(k as int)),
            0 <= counts.christmas_eve <= k && 0 <= counts.weekday <= k && 0 <= counts.future <= k
                && 0 <= counts.lsb_is_1 <= k,
        decreases vals@.len() - k,
    {
        proof {
            assert(vals@.take(k + 1).drop_last() =~= vals@.take(k as int));
            assert(vals@.take(k + 1).last() == vals@[k as int]);
        }
        let v = vals[k];
        let ms = (v / 0x1_0000_0000_0000_0000_0000u128) as i64;
        proof {
            assert(ms == ulid_ms(v));
        }
        if month_exec(ms) == 12 && day_exec(ms) == 24 {
            counts.christmas_eve = counts.christmas_eve + 1;
        }
        if weekday_exec(ms) == weekday {
            counts.weekday = counts.weekday + 1;
        }
        if ms > now_ms {
            counts.future = counts.future + 1;
        }
        if v % 2 == 1 {
            counts.lsb_is_1 = counts.lsb_is_1 + 1;
        }
        k = k + 1;
    }
    proof {
        assert(vals@.take(vals@.len() as int) =~= vals@);
    }
    Some(counts)
}

} // verus!
