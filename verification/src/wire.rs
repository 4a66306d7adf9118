//! The JSON wire format of the chat service.
//!
//! Inbound frames are `{"message": "<string>"}`; outbound frames are
//! `{"user": "<string>", "message": "<string>"}`.  Strings use the JSON
//! escapes: `\"`, `\\`, `\/`, `\b`, `\f`, `\n`, `\r`, `\t` and `\uXXXX`
//! (with surrogate pairs for characters outside the basic plane).  The
//! encoder emits the short escapes plus `\u00XX` for the remaining control
//! characters; the parser accepts every escape form.

use vstd::prelude::*;
use crate::text::{chars_vec, push_char};

verus! {

/// The characters the wire format treats as insignificant whitespace.
pub open spec fn is_ws(c: char) -> bool {
    c == ' ' || c == '\t' || c == '\n' || c == '\r'
}

/// First index at or after `i` that does not hold whitespace.
pub open spec fn ws_end(s: Seq<char>, i: int) -> int
    decreases s.len() - i,
{
    if 0 <= i && i < s.len() && is_ws(s[i]) {
        ws_end(s, i + 1)
    } else {
        i
    }
}

/// The hexadecimal value of a digit character, or 16 if it is none.
pub open spec fn hex_val(c: char) -> u32 {
    let u = c as u32;
    if 0x30 <= u && u <= 0x39 {
        (u - 0x30) as u32
    } else if 0x61 <= u && u <= 0x66 {
        (u - 0x61 + 10) as u32
    } else if 0x41 <= u && u <= 0x46 {
        (u - 0x41 + 10) as u32
    } else {
        16
    }
}

/// Whether the four characters starting at `i` are hexadecimal digits.
pub open spec fn is_hex4(s: Seq<char>, i: int) -> bool {
    &&& 0 <= i && i + 4 <= s.len()
    &&& hex_val(s[i]) < 16
    &&& hex_val(s[i + 1]) < 16
    &&& hex_val(s[i + 2]) < 16
    &&& hex_val(s[i + 3]) < 16
}

/// The value of the four hexadecimal digits starting at `i`.
pub open spec fn hex4_val(s: Seq<char>, i: int) -> u32 {
    ((hex_val(s[i]) * 0x1000) + (hex_val(s[i + 1]) * 0x100) + (hex_val(s[i + 2]) * 0x10) + hex_val(
        s[i + 3],
    )) as u32
}

/// The character that a short escape `\e` stands for.
pub open spec fn short_escape_char(e: char) -> char {
    if e == 'b' {
        '\u{8}'
    } else if e == 'f' {
        '\u{c}'
    } else if e == 'n' {
        '\n'
    } else if e == 'r' {
        '\r'
    } else if e == 't' {
        '\t'
    } else {
        e  // '"', '\\' and '/' stand for themselves
    }
}

pub open spec fn is_short_escape(e: char) -> bool {
    e == '"' || e == '\\' || e == '/' || e == 'b' || e == 'f' || e == 'n' || e == 'r' || e == 't'
}

/// A code unit in `0xD800..0xDC00`: the first half of a surrogate pair.
pub open spec fn is_high_surrogate(u: u32) -> bool {
    0xD800 <= u && u < 0xDC00
}

/// A code unit in `0xDC00..0xE000`: the second half of a surrogate pair.
pub open spec fn is_low_surrogate(u: u32) -> bool {
    0xDC00 <= u && u < 0xE000
}

/// The scalar value encoded by a surrogate pair.
pub open spec fn surrogate_val(hi: u32, lo: u32) -> u32 {
    (0x10000 + (hi - 0xD800) * 0x400 + (lo - 0xDC00)) as u32
}

/// Parses the body of a JSON string at index `i` (just past the opening
/// quote): the decoded characters and the index just past the closing quote.
pub open spec fn parse_string_body(s: Seq<char>, i: int) -> Option<(Seq<char>, int)>
    decreases s.len() - i,
{
    if i < 0 || i >= s.len() {
        None
    } else if s[i] == '"' {
        Some((Seq::empty(), i + 1))
    } else if s[i] == '\\' {
        if i + 1 >= s.len() {
            None
        } else if is_short_escape(s[i + 1]) {
            match parse_string_body(s, i + 2) {
                Some((t, j)) => Some((seq![short_escape_char(s[i + 1])] + t, j)),
                None => None,
            }
        } else if s[i + 1] == 'u' {
            if !is_hex4(s, i + 2) {
                None
            } else {
                let u = hex4_val(s, i + 2);
                if is_high_surrogate(u) {
                    if i + 12 <= s.len() && s[i + 6] == '\\' && s[i + 7] == 'u' && is_hex4(s, i + 8)
                        && is_low_surrogate(hex4_val(s, i + 8)) {
                        match parse_string_body(s, i + 12) {
                            Some(
                                (t, j),
                            ) => Some(
                                (seq![surrogate_val(u, hex4_val(s, i + 8)) as char] + t, j),
                            ),
                            None => None,
                        }
                    } else {
                        None
                    }
                } else if is_low_surrogate(u) {
                    None
                } else {
                    match parse_string_body(s, i + 6) {
                        Some((t, j)) => Some((seq![u as char] + t, j)),
                        None => None,
                    }
                }
            }
        } else {
            None
        }
    } else if (s[i] as u32) < 0x20 {
        None
    } else {
        match parse_string_body(s, i + 1) {
            Some((t, j)) => Some((seq![s[i]] + t, j)),
            None => None,
        }
    }
}

/// The inbound frame grammar: a JSON object whose single field `message`
/// holds a string.  Yields the decoded message.
pub open spec fn spec_parse_envelope(s: Seq<char>) -> Option<Seq<char>> {
    let i0 = ws_end(s, 0);
    if !(i0 < s.len() && s[i0] == '{') {
        None
    } else {
        let i1 = ws_end(s, i0 + 1);
        if !(i1 < s.len() && s[i1] == '"') {
            None
        } else {
            match parse_string_body(s, i1 + 1) {
                None => None,
                Some((key, i2)) => {
                    if key != "message"@ {
                        None
                    } else {
                        let i3 = ws_end(s, i2);
                        if !(i3 < s.len() && s[i3] == ':') {
                            None
                        } else {
                            let i4 = ws_end(s, i3 + 1);
                            if !(i4 < s.len() && s[i4] == '"') {
                                None
                            } else {
                                match parse_string_body(s, i4 + 1) {
                                    None => None,
                                    Some((msg, i5)) => {
                                        let i6 = ws_end(s, i5);
                                        if !(i6 < s.len() && s[i6] == '}') {
                                            None
                                        } else if ws_end(s, i6 + 1) == s.len() {
                                            Some(msg)
                                        } else {
                                            None
                                        }
                                    },
                                }
                            }
                        }
                    }
                },
            }
        }
    }
}

/// The escape the encoder writes for one character.
pub open spec fn escape_char(c: char) -> Seq<char> {
    if c == '"' {
        seq!['\\', '"']
    } else if c == '\\' {
        seq!['\\', '\\']
    } else if c == '\u{8}' {
        seq!['\\', 'b']
    } else if c == '\t' {
        seq!['\\', 't']
    } else if c == '\n' {
        seq!['\\', 'n']
    } else if c == '\u{c}' {
        seq!['\\', 'f']
    } else if c == '\r' {
        seq!['\\', 'r']
    } else if (c as u32) < 0x20 {
        seq!['\\', 'u', '0', '0', hex_digit_char((c as u32) / 16), hex_digit_char((c as u32) % 16)]
    } else {
        seq![c]
    }
}

/// The lowercase hexadecimal digit for a value below 16.
pub open spec fn hex_digit_char(d: u32) -> char {
    if d == 0 {
        '0'
    } else if d == 1 {
        '1'
    } else if d == 2 {
        '2'
    } else if d == 3 {
        '3'
    } else if d == 4 {
        '4'
    } else if d == 5 {
        '5'
    } else if d == 6 {
        '6'
    } else if d == 7 {
        '7'
    } else if d == 8 {
        '8'
    } else if d == 9 {
        '9'
    } else if d == 10 {
        'a'
    } else if d == 11 {
        'b'
    } else if d == 12 {
        'c'
    } else if d == 13 {
        'd'
    } else if d == 14 {
        'e'
    } else {
        'f'
    }
}

/// The escaped form of a whole string.
pub open spec fn escape_seq(s: Seq<char>) -> Seq<char>
    decreases s.len(),
{
    if s.len() == 0 {
        Seq::empty()
    } else {
        escape_char(s[0]) + escape_seq(s.skip(1))
    }
}

pub proof fn lemma_escape_seq_snoc(s: Seq<char>)
    requires
        s.len() > 0,
    ensures
        escape_seq(s) == escape_seq(s.take(s.len() - 1)) + escape_char(s[s.len() - 1]),
    decreases s.len(),
{
    if s.len() == 1 {
        assert(s.take(0) =~= Seq::<char>::empty());
        assert(escape_seq(s) =~= escape_char(s[0]) + escape_seq(s.skip(1)));
        assert(s.skip(1) =~= Seq::<char>::empty());
        assert(escape_seq(s) =~= escape_seq(s.take(0)) + escape_char(s[0]));
    } else {
        lemma_escape_seq_snoc(s.skip(1));
        assert(s.skip(1).take(s.skip(1).len() - 1) =~= s.take(s.len() - 1).skip(1));
        assert(s.skip(1)[s.skip(1).len() - 1] == s[s.len() - 1]);
        assert(s.take(s.len() - 1)[0] == s[0]);
        assert(escape_seq(s.take(s.len() - 1)) == escape_char(s[0]) + escape_seq(
            s.take(s.len() - 1).skip(1),
        ));
        assert(escape_seq(s) =~= escape_seq(s.take(s.len() - 1)) + escape_char(s[s.len() - 1]));
    }
}

/// The outbound frame for a user name and a message.
pub open spec fn envelope_text(user: Seq<char>, msg: Seq<char>) -> Seq<char> {
    "{\"user\":\""@ + escape_seq(user) + "\",\"message\":\""@ + escape_seq(msg) + "\"}"@
}


/// Appends the escaped form of `s` to `out`.
fn escape_onto(s: &str, out: &mut String)
    ensures
        final(out)@ == old(out)@ + escape_seq(s@),
{
    let n = s.unicode_len();
    let mut i: usize = 0;
    while i < n
        invariant
            n == s@.len(),
            i <= n,
            out@ == old(out)@ + escape_seq(s@.take(i as int)),
        decreases n - i,
    {
        let c = s.get_char(i);
        if c == '"' {
            push_char(out, '\\');
            push_char(out, '"');
        } else if c == '\\' {
            push_char(out, '\\');
            push_char(out, '\\');
        } else if c == '\u{8}' {
            push_char(out, '\\');
            push_char(out, 'b');
        } else if c == '\t' {
            push_char(out, '\\');
            push_char(out, 't');
        } else if c == '\n' {
            push_char(out, '\\');
            push_char(out, 'n');
        } else if c == '\u{c}' {
            push_char(out, '\\');
            push_char(out, 'f');
        } else if c == '\r' {
            push_char(out, '\\');
            push_char(out, 'r');
        } else if (c as u32) < 0x20 {
            push_char(out, '\\');
            push_char(out, 'u');
            push_char(out, '0');
            push_char(out, '0');
            push_char(out, hex_digit((c as u32) / 16));
            push_char(out, hex_digit((c as u32) % 16));
        } else {
            push_char(out, c);
        }
        proof {
            lemma_escape_seq_snoc(s@.take(i + 1));
            assert(s@.take(i + 1).take(i as int) =~= s@.take(i as int));
            assert(s@.take(i + 1)[i as int] == s@[i as int]);
            assert(out@ =~= old(out)@ + escape_seq(s@.take(i + 1)));
        }
        i = i + 1;
    }
    proof {
        assert(s@.take(n as int) =~= s@);
    }
}

/// The lowercase hexadecimal digit for a value below 16.
fn hex_digit(d: u32) -> (c: char)
    requires
        d < 16,
    ensures
        c == hex_digit_char(d),
{
    if d == 0 {
        '0'
    } else if d == 1 {
        '1'
    } else if d == 2 {
        '2'
    } else if d == 3 {
        '3'
    } else if d == 4 {
        '4'
    } else if d == 5 {
        '5'
    } else if d == 6 {
        '6'
    } else if d == 7 {
        '7'
    } else if d == 8 {
        '8'
    } else if d == 9 {
        '9'
    } else if d == 10 {
        'a'
    } else if d == 11 {
        'b'
    } else if d == 12 {
        'c'
    } else if d == 13 {
        'd'
    } else if d == 14 {
        'e'
    } else {
        'f'
    }
}


/// Relies on `char::from_u32`: yields the character with the given Unicode
/// scalar value, which exists for every non-surrogate value up to 0x10FFFF.
#[verifier::external_body]
fn char_from_code(u: u32) -> (c: char)
    requires
        u < 0xD800 || (0xE000 <= u && u <= 0x10FFFF),
    ensures
        c == u as char,
{
    char::from_u32(u).unwrap()
}

/// The hexadecimal value of a digit character, or 16 if it is none.
fn hex_val_exec(c: char) -> (d: u32)
    ensures
        d == hex_val(c),
{
    let u = c as u32;
    if 0x30 <= u && u <= 0x39 {
        u - 0x30
    } else if 0x61 <= u && u <= 0x66 {
        u - 0x61 + 10
    } else if 0x41 <= u && u <= 0x46 {
        u - 0x41 + 10
    } else {
        16
    }
}

/// Whether the characters of `v` spell exactly the string `s`.
pub fn chars_eq_str(v: &Vec<char>, s: &str) -> (r: bool)
    ensures
        r == (v@ == s@),
{
    let n = s.unicode_len();
    if v.len() != n {
        return false;
    }
    let mut i: usize = 0;
    while i < n
        invariant
            n == s@.len(),
            v@.len() == n,
            i <= n,
            forall|k: int| 0 <= k < i ==> v@[k] == s@[k],
        decreases n - i,
    {
        if v[i] != s.get_char(i) {
            return false;
        }
        i = i + 1;
    }
    proof {
        assert(v@ =~= s@);
    }
    true
}

/// Whether two strings hold the same characters.
pub fn str_eq(a: &str, b: &str) -> (r: bool)
    ensures
        r == (a@ == b@),
{
    let n = a.unicode_len();
    if b.unicode_len() != n {
        return false;
    }
    let mut i: usize = 0;
    while i < n
        invariant
            n == a@.len(),
            b@.len() == n,
            i <= n,
            forall|k: int| 0 <= k < i ==> a@[k] == b@[k],
        decreases n - i,
    {
        if a.get_char(i) != b.get_char(i) {
            return false;
        }
        i = i + 1;
    }
    proof {
        assert(a@ =~= b@);
    }
    true
}

/// Collects characters into an owned string.
pub fn string_from_chars(v: &Vec<char>) -> (s: String)
    ensures
        s@ == v@,
{
    let mut s = String::new();
    let mut i: usize = 0;
    while i < v.len()
        invariant
            i <= v@.len(),
            s@ == v@.take(i as int),
        decreases v@.len() - i,
    {
        push_char(&mut s, v[i]);
        proof {
            assert(s@ =~= v@.take(i + 1));
        }
        i = i + 1;
    }
    proof {
        assert(v@.take(v@.len() as int) =~= v@);
    }
    s
}

proof fn seq_assoc<A>(a: Seq<A>, b: Seq<A>, c: Seq<A>)
    ensures
        a + (b + c) == (a + b) + c,
{
    assert(a + (b + c) =~= (a + b) + c);
}

/// First index at or after `i` that does not hold whitespace.
fn ws_end_exec(v: &Vec<char>, i: usize) -> (j: usize)
    requires
        i <= v@.len(),
    ensures
        j as int == ws_end(v@, i as int),
        i <= j <= v@.len(),
{
    let mut j = i;
    while j < v.len() && (v[j] == ' ' || v[j] == '\t' || v[j] == '\n' || v[j] == '\r')
        invariant
            i <= j <= v@.len(),
            ws_end(v@, i as int) == ws_end(v@, j as int),
        decreases v@.len() - j,
    {
        j = j + 1;
    }
    j
}

/// Parses a JSON string body starting just past the opening quote: the
/// decoded characters and the index just past the closing quote.
#[verifier::rlimit(60)]
fn parse_string_body_exec(v: &Vec<char>, start: usize) -> (r: Option<(Vec<char>, usize)>)
    requires
        start <= v@.len(),
    ensures
        match r {
            Some(p) => parse_string_body(v@, start as int) == Some((p.0@, p.1 as int)) && p.1
                <= v@.len(),
            None => parse_string_body(v@, start as int) is None,
        },
{
    let mut acc: Vec<char> = Vec::new();
    let mut i = start;
    loop
        invariant
            start <= i <= v@.len(),
            parse_string_body(v@, start as int) == (match parse_string_body(v@, i as int) {
                Some((t, j)) => Some((acc@ + t, j)),
                None => None::<(Seq<char>, int)>,
            }),
        decreases v@.len() - i,
    {
        if i >= v.len() {
            return None;
        }
        let c = v[i];
        if c == '"' {
            proof {
                assert(acc@ + Seq::<char>::empty() =~= acc@);
            }
            return Some((acc, i + 1));
        } else if c == '\\' {
            if i + 1 >= v.len() {
                return None;
            }
            let e = v[i + 1];
            if e == '"' || e == '\\' || e == '/' || e == 'b' || e == 'f' || e == 'n' || e == 'r'
                || e == 't' {
                let d = if e == 'b' {
                    '\u{8}'
                } else if e == 'f' {
                    '\u{c}'
                } else if e == 'n' {
                    '\n'
                } else if e == 'r' {
                    '\r'
                } else if e == 't' {
                    '\t'
                } else {
                    e
                };
                proof {
                    let p1 = parse_string_body(v@, i + 2);
                    if p1 is Some {
                        seq_assoc(acc@, seq![d], (p1->0).0);
                        assert(acc@.push(d) =~= acc@ + seq![d]);
                    }
                }
                acc.push(d);
                i = i + 2;
            } else if e == 'u' {
                if v.len() - i < 6 {
                    return None;
                }
                let h0 = hex_val_exec(v[i + 2]);
                let h1 = hex_val_exec(v[i + 3]);
                let h2 = hex_val_exec(v[i + 4]);
                let h3 = hex_val_exec(v[i + 5]);
                if h0 >= 16 || h1 >= 16 || h2 >= 16 || h3 >= 16 {
                    return None;
                }
                let u = h0 * 0x1000 + h1 * 0x100 + h2 * 0x10 + h3;
                if 0xD800 <= u && u < 0xDC00 {
                    if !(v.len() - i >= 12 && v[i + 6] == '\\' && v[i + 7] == 'u') {
                        return None;
                    }
                    let g0 = hex_val_exec(v[i + 8]);
                    let g1 = hex_val_exec(v[i + 9]);
                    let g2 = hex_val_exec(v[i + 10]);
                    let g3 = hex_val_exec(v[i + 11]);
                    if g0 >= 16 || g1 >= 16 || g2 >= 16 || g3 >= 16 {
                        return None;
                    }
                    let lo = g0 * 0x1000 + g1 * 0x100 + g2 * 0x10 + g3;
                    if !(0xDC00 <= lo && lo < 0xE000) {
                        return None;
                    }
                    let code = 0x10000 + (u - 0xD800) * 0x400 + (lo - 0xDC00);
                    let d = char_from_code(code);
                    proof {
                        let p1 = parse_string_body(v@, i + 12);
                        if p1 is Some {
                            seq_assoc(acc@, seq![d], (p1->0).0);
                            assert(acc@.push(d) =~= acc@ + seq![d]);
                        }
                    }
                    acc.push(d);
                    i = i + 12;
                } else if 0xDC00 <= u && u < 0xE000 {
                    return None;
                } else {
                    let d = char_from_code(u);
                    proof {
                        let p1 = parse_string_body(v@, i + 6);
                        if p1 is Some {
                            seq_assoc(acc@, seq![d], (p1->0).0);
                            assert(acc@.push(d) =~= acc@ + seq![d]);
                        }
                    }
                    acc.push(d);
                    i = i + 6;
                }
            } else {
                return None;
            }
        } else if (c as u32) < 0x20 {
            return None;
        } else {
            proof {
                let p1 = parse_string_body(v@, i + 1);
                if p1 is Some {
                    seq_assoc(acc@, seq![c], (p1->0).0);
                    assert(acc@.push(c) =~= acc@ + seq![c]);
                }
            }
            acc.push(c);
            i = i + 1;
        }
    }
}

/// Parses an inbound frame `{"message": "<string>"}` and yields the decoded
/// message, or nothing if the frame does not follow the grammar.
pub fn parse_envelope(frame: &str) -> (r: Option<String>)
    ensures
        match r {
            Some(m) => spec_parse_envelope(frame@) == Some(m@),
            None => spec_parse_envelope(frame@) is None,
        },
{
    let v = chars_vec(frame);
    let n = v.len();
    let i0 = ws_end_exec(&v, 0);
    if !(i0 < n && v[i0] == '{') {
        return None;
    }
    let i1 = ws_end_exec(&v, i0 + 1);
    if !(i1 < n && v[i1] == '"') {
        return None;
    }
    let kr = parse_string_body_exec(&v, i1 + 1);
    if kr.is_none() {
        return None;
    }
    let (key, i2) = kr.unwrap();
    if !chars_eq_str(&key, "message") {
        return None;
    }
    let i3 = ws_end_exec(&v, i2);
    if !(i3 < n && v[i3] == ':') {
        return None;
    }
    let i4 = ws_end_exec(&v, i3 + 1);
    if !(i4 < n && v[i4] == '"') {
        return None;
    }
    let mr = parse_string_body_exec(&v, i4 + 1);
    if mr.is_none() {
        return None;
    }
    let (msg, i5) = mr.unwrap();
    let i6 = ws_end_exec(&v, i5);
    if !(i6 < n && v[i6] == '}') {
        return None;
    }
    let i7 = ws_end_exec(&v, i6 + 1);
    if i7 != n {
        return None;
    }
    Some(string_from_chars(&msg))
}

/// Builds the outbound frame `{"user": ..., "message": ...}` for a user name
/// and a message, with both strings escaped.
pub fn encode_envelope(user: &str, msg: &str) -> (r: String)
    ensures
        r@ == envelope_text(user@, msg@),
{
    let mut out = String::new();
    out.append("{\"user\":\"");
    escape_onto(user, &mut out);
    out.append("\",\"message\":\"");
    escape_onto(msg, &mut out);
    out.append("\"}");
    proof {
        assert(out@ =~= envelope_text(user@, msg@));
    }
    out
}

} // verus!
