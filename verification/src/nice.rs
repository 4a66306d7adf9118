//! The password judgement games: the nice/naughty word check and the
//! stricter game with its ladder of rules.

use vstd::prelude::*;
use vstd::string::StringExecFns;
use crate::numfmt;
use crate::text;
use crate::wire;
use vstd::utf8::encode_utf8;
use sha2::Digest;
use vstd::string::StringSliceAdditionalSpecFns;

verus! {

/// A judgement.
#[derive(Clone, Copy, PartialEq, Eq, Structural, Debug)]
pub enum Verdict {
    Nice,
    Naughty,
}

impl Verdict {
    /// The judgement's wire word.
    pub fn as_str(&self) -> (r: String)
        ensures
            *self is Nice ==> r@ == "nice"@,
            *self is Naughty ==> r@ == "naughty"@,
    {
        match self {
            Verdict::Nice => String::from_str("nice"),
            Verdict::Naughty => String::from_str("naughty"),
        }
    }

    /// The judgement a wire word stands for: everything but `"nice"` is
    /// naughty.
    pub fn from_str(s: &str) -> (r: Verdict)
        ensures
            r is Nice <==> s@ == "nice"@,
    {
        if wire::str_eq(s, "nice") {
            Verdict::Nice
        } else {
            Verdict::Naughty
        }
    }
}

/// The result of `char::is_alphabetic`, which depends on the character
/// alone.
pub uninterp spec fn alphabetic(c: char) -> bool;

/// Relies on `char::is_alphabetic`: the Unicode Alphabetic property of
/// the character.
#[verifier::external_body]
fn is_alphabetic_exec(c: char) -> (r: bool)
    ensures
        r == alphabetic(c),
{
    c.is_alphabetic()
}

/// Whether the character counts as a vowel for the word check.
pub open spec fn is_vowel(c: char) -> bool {
    c == 'a' || c == 'e' || c == 'i' || c == 'o' || c == 'u' || c == 'y'
}

/// How many of the first `n` characters satisfy `is_vowel`.
pub open spec fn vowel_count(s: Seq<char>, n: int) -> int
    decreases n,
{
    if n <= 0 {
        0
    } else {
        vowel_count(s, n - 1) + if is_vowel(s[n - 1]) {
            1int
        } else {
            0int
        }
    }
}

/// A doubled alphabetic character somewhere in the string.
pub open spec fn has_double_letter(s: Seq<char>) -> bool {
    exists|i: int| 0 <= i && i + 1 < s.len() && alphabetic(s[i]) && s[i] == s[i + 1]
}

/// The word check: no forbidden pair, at least three vowels, and a
/// doubled alphabetic character.
pub open spec fn nice_word(s: Seq<char>) -> bool {
    &&& !text::contains_seq(s, "ab"@)
    &&& !text::contains_seq(s, "cd"@)
    &&& !text::contains_seq(s, "pq"@)
    &&& !text::contains_seq(s, "xy"@)
    &&& vowel_count(s, s.len() as int) >= 3
    &&& has_double_letter(s)
}

/// Whether the string holds a doubled alphabetic character.
fn has_double_letter_exec(v: &Vec<char>) -> (r: bool)
    ensures
        r == has_double_letter(v@),
{
    let mut k: usize = 0;
    while v.len() > 1 && k < v.len() - 1
        invariant
            k <= v@.len(),
            forall|j: int|
                0 <= j && j + 1 < v@.len() && j < k ==> !(alphabetic(v@[j]) && v@[j] == v@[j + 1]),
        decreases v@.len() - k,
    {
        if v[k] == v[k + 1] && is_alphabetic_exec(v[k]) {
            proof {
                assert(0 <= k as int && k as int + 1 < v@.len() && alphabetic(v@[k as int])
                    && v@[k as int] == v@[k as int + 1]);
            }
            return true;
        }
        k = k + 1;
    }
    false
}

/// Judges a password by the word rules.
pub fn password_nice(input: &str) -> (r: Verdict)
    ensures
        r is Nice <==> nice_word(input@),
{
    let v = text::chars_vec(input);
    if text::contains_chars(&v, &text::chars_vec("ab")) {
        return Verdict::Naughty;
    }
    if text::contains_chars(&v, &text::chars_vec("cd")) {
        return Verdict::Naughty;
    }
    if text::contains_chars(&v, &text::chars_vec("pq")) {
        return Verdict::Naughty;
    }
    if text::contains_chars(&v, &text::chars_vec("xy")) {
        return Verdict::Naughty;
    }
    let mut vowels: usize = 0;
    let mut i: usize = 0;
    while i < v.len()
        invariant
            i <= v@.len(),
            vowels == vowel_count(v@, i as int),
            vowels <= i,
        decreases v@.len() - i,
    {
        let c = v[i];
        if c == 'a' || c == 'e' || c == 'i' || c == 'o' || c == 'u' || c == 'y' {
            vowels = vowels + 1;
        }
        i = i + 1;
    }
    if vowels < 3 {
        return Verdict::Naughty;
    }
    if has_double_letter_exec(&v) {
        Verdict::Nice
    } else {
        Verdict::Naughty
    }
}

/// Whether the character is a decimal digit.
pub open spec fn is_digit(c: char) -> bool {
    numfmt::digit_val(c) < 10
}

/// An ASCII uppercase letter.
pub open spec fn is_upper(c: char) -> bool {
    0x41 <= (c as u32) && (c as u32) <= 0x5A
}

/// An ASCII lowercase letter.
pub open spec fn is_lower(c: char) -> bool {
    0x61 <= (c as u32) && (c as u32) <= 0x7A
}

/// Whether the character is a decimal digit.
fn is_digit_exec(c: char) -> (r: bool)
    ensures
        r == is_digit(c),
{
    let u = c as u32;
    0x30 <= u && u <= 0x39
}

/// First index at or after `i` that does not hold a digit.
pub open spec fn run_end(s: Seq<char>, i: int) -> int
    decreases s.len() - i,
{
    if 0 <= i && i < s.len() && is_digit(s[i]) {
        run_end(s, i + 1)
    } else {
        i
    }
}

proof fn lemma_run_end_bounds(s: Seq<char>, i: int)
    requires
        0 <= i <= s.len(),
    ensures
        i <= run_end(s, i) <= s.len(),
    decreases s.len() - i,
{
    if i < s.len() && is_digit(s[i]) {
        lemma_run_end_bounds(s, i + 1);
    }
}

proof fn lemma_run_end_shift(s: Seq<char>, base: int, i: int)
    requires
        0 <= base,
        0 <= i,
        base + i <= s.len(),
    ensures
        run_end(s.skip(base), i) == run_end(s, base + i) - base,
    decreases s.len() - base - i,
{
    if base + i < s.len() && is_digit(s[base + i]) {
        lemma_run_end_shift(s, base, i + 1);
    }
}

/// The sum of the values of all maximal digit runs in the string.
pub open spec fn run_sum(s: Seq<char>) -> int
    decreases s.len(),
{
    if s.len() == 0 {
        0
    } else if !is_digit(s[0]) {
        run_sum(s.skip(1))
    } else {
        let e = run_end(s, 0);
        if 1 <= e && e <= s.len() {
            numfmt::dec_val(s.take(e)) + run_sum(s.skip(e))
        } else {
            0
        }
    }
}

proof fn lemma_run_sum_nonneg(s: Seq<char>)
    ensures
        run_sum(s) >= 0,
    decreases s.len(),
{
    if s.len() > 0 {
        if !is_digit(s[0]) {
            lemma_run_sum_nonneg(s.skip(1));
        } else {
            lemma_run_end_bounds(s, 0);
            let e = run_end(s, 0);
            if 1 <= e && e <= s.len() {
                lemma_run_sum_nonneg(s.skip(e));
            }
        }
    }
}

/// The sum of the digit runs of `v`, clamped just above the target so the
/// comparison with 2023 stays exact.
fn run_sum_clamped(v: &Vec<char>) -> (r: u64)
    ensures
        r == run_sum(v@) || (r == 3001 && run_sum(v@) > 3000),
        r <= 3001,
{
    let ghost whole = v@;
    let mut total: u64 = 0;
    let ghost mut total_true: int = 0;
    let mut i: usize = 0;
    proof {
        assert(whole.skip(0) =~= whole);
        lemma_run_sum_nonneg(whole);
    }
    while i < v.len()
        invariant
            i <= v@.len(),
            v@ == whole,
            run_sum(whole) == total_true + run_sum(whole.skip(i as int)),
            total_true >= 0,
            total == total_true || (total == 3001 && total_true > 3000),
            total <= 3001,
        decreases v@.len() - i,
    {
        let c = v[i];
        let u = c as u32;
        if !(0x30 <= u && u <= 0x39) {
            proof {
                assert(whole.skip(i as int)[0] == whole[i as int]);
                assert(whole.skip(i as int).skip(1) =~= whole.skip(i + 1));
            }
            i = i + 1;
        } else {
            let ghost rest = whole.skip(i as int);
            proof {
                assert(rest[0] == whole[i as int]);
            }
            // scan the run
            let mut e = i;
            while e < v.len() && is_digit_exec(v[e])
                invariant
                    i <= e <= v@.len(),
                    v@ == whole,
                    run_end(whole, i as int) == run_end(whole, e as int),
                    forall|j: int| i <= j < e ==> is_digit(#[trigger] whole[j]),
                decreases v@.len() - e,
            {
                e = e + 1;
            }
            proof {
                lemma_run_end_bounds(whole, i as int);
                lemma_run_end_shift(whole, i as int, 0);
                assert(run_end(whole, e as int) == e as int);
            }
            // the run value, clamped
            let mut val: u64 = 0;
            let ghost mut val_true: int = 0;
            let mut k = i;
            proof {
                assert(whole.subrange(i as int, i as int) =~= Seq::<char>::empty());
                assert(numfmt::dec_val(whole.subrange(i as int, i as int)) == 0);
            }
            while k < e
                invariant
                    i <= k <= e <= v@.len(),
                    v@ == whole,
                    forall|j: int| i <= j < e ==> is_digit(#[trigger] whole[j]),
                    val_true == numfmt::dec_val(whole.subrange(i as int, k as int)),
                    val_true >= 0,
                    val == val_true || (val == 3001 && val_true > 3000),
                    val <= 3001,
                decreases e - k,
            {
                let d = (v[k] as u32 - 0x30) as u64;
                proof {
                    assert(whole.subrange(i as int, k + 1).drop_last() =~= whole.subrange(
                        i as int,
                        k as int,
                    ));
                    assert(whole.subrange(i as int, k + 1).last() == whole[k as int]);
                    assert(numfmt::dec_val(whole.subrange(i as int, k + 1)) == numfmt::dec_val(
                        whole.subrange(i as int, k as int),
                    ) * 10 + numfmt::digit_val(whole[k as int]));
                }
                let next = val * 10 + d;
                val = if next > 3000 {
                    3001
                } else {
                    next
                };
                proof {
                    val_true = val_true * 10 + numfmt::digit_val(whole[k as int]);
                }
                k = k + 1;
            }
            // fold the run into the total
            proof {
                assert(rest.take(e - i) =~= whole.subrange(i as int, e as int));
                assert(whole.subrange(i as int, e as int) =~= whole.take(e as int).skip(i as int));
                lemma_run_end_shift(whole, i as int, 0);
                assert(run_end(rest, 0) == e - i);
                assert(rest.skip(e - i) =~= whole.skip(e as int));
                assert(rest.take(e - i) == whole.skip(i as int).take(e - i));
                assert(run_sum(rest) == numfmt::dec_val(rest.take(e - i)) + run_sum(
                    whole.skip(e as int),
                ));
                assert(numfmt::dec_val(rest.take(e - i)) == val_true) by {
                    assert(rest.take(e - i) =~= whole.subrange(i as int, e as int));
                }
                lemma_run_sum_nonneg(whole.skip(e as int));
            }
            let sum = total + val;
            total = if sum > 3000 {
                3001
            } else {
                sum
            };
            proof {
                total_true = total_true + val_true;
            }
            i = e;
        }
    }
    proof {
        assert(whole.skip(whole.len() as int) =~= Seq::<char>::empty());
    }
    total
}

/// How many of the first `n` characters equal `c`.
pub open spec fn char_count(s: Seq<char>, c: char, n: int) -> int
    decreases n,
{
    if n <= 0 {
        0
    } else {
        char_count(s, c, n - 1) + if s[n - 1] == c {
            1int
        } else {
            0int
        }
    }
}

/// The first index holding `c`, if `c` occurs at all.
pub open spec fn first_index(s: Seq<char>, c: char) -> int
    decreases s.len(),
{
    if s.len() == 0 {
        0
    } else if s[0] == c {
        0
    } else {
        1 + first_index(s.skip(1), c)
    }
}

/// Counts occurrences and finds the first index of `c`.
fn count_and_first(v: &Vec<char>, c: char) -> (r: (usize, usize))
    ensures
        r.0 == char_count(v@, c, v@.len() as int),
        char_count(v@, c, v@.len() as int) > 0 ==> r.1 < v@.len() && v@[r.1 as int] == c
            && forall|j: int| 0 <= j < r.1 ==> v@[j] != c,
{
    let mut count: usize = 0;
    let mut first: usize = 0;
    let mut i: usize = 0;
    while i < v.len()
        invariant
            i <= v@.len(),
            count == char_count(v@, c, i as int),
            count <= i,
            count > 0 ==> first < i && v@[first as int] == c && forall|j: int|
                0 <= j < first ==> v@[j] != c,
            count == 0 ==> forall|j: int| 0 <= j < i ==> v@[j] != c,
        decreases v@.len() - i,
    {
        if v[i] == c {
            if count == 0 {
                first = i;
            }
            count = count + 1;
        }
        i = i + 1;
    }
    (count, first)
}

/// Exactly one `j`, one `o` and one `y`, in that order.
pub open spec fn contains_joy(s: Seq<char>) -> bool {
    &&& char_count(s, 'j', s.len() as int) == 1
    &&& char_count(s, 'o', s.len() as int) == 1
    &&& char_count(s, 'y', s.len() as int) == 1
    &&& first_index(s, 'j') < first_index(s, 'o') < first_index(s, 'y')
}

proof fn lemma_first_index_unique(s: Seq<char>, c: char, i: int)
    requires
        0 <= i < s.len(),
        s[i] == c,
        forall|j: int| 0 <= j < i ==> s[j] != c,
    ensures
        first_index(s, c) == i,
    decreases i,
{
    if i > 0 {
        assert(s.skip(1)[i - 1] == s[i]);
        assert forall|j: int| 0 <= j < i - 1 implies s.skip(1)[j] != c by {
            assert(s.skip(1)[j] == s[j + 1]);
        }
        lemma_first_index_unique(s.skip(1), c, i - 1);
    }
}

/// Whether the string has exactly one `j`, `o` and `y`, in that order.
pub fn joy_check(v: &Vec<char>) -> (r: bool)
    ensures
        r == contains_joy(v@),
{
    let (cj, fj) = count_and_first(v, 'j');
    let (co, fo) = count_and_first(v, 'o');
    let (cy, fy) = count_and_first(v, 'y');
    if cj != 1 || co != 1 || cy != 1 {
        return false;
    }
    proof {
        lemma_first_index_unique(v@, 'j', fj as int);
        lemma_first_index_unique(v@, 'o', fo as int);
        lemma_first_index_unique(v@, 'y', fy as int);
    }
    fj < fo && fo < fy
}

/// A character repeated two places later, with a different character in
/// between: the sandwich rule.
pub open spec fn has_sandwich(s: Seq<char>) -> bool {
    exists|i: int|
        0 <= i && i + 2 < s.len() && alphabetic(s[i]) && s[i] == s[i + 2] && s[i + 1] != s[i]
}

/// A character drawn from the decorative mathematical block.
pub open spec fn in_math_block(c: char) -> bool {
    0x2980 <= (c as u32) && (c as u32) <= 0x2BFF
}

/// A character drawn from one of the emoji blocks the game accepts.
pub open spec fn is_emoji(c: char) -> bool {
    let u = c as u32;
    ||| 0x1F600 <= u && u <= 0x1F64F
    ||| 0x1F300 <= u && u <= 0x1F5FF
    ||| 0x1F680 <= u && u <= 0x1F6FF
    ||| 0x1F1E0 <= u && u <= 0x1F1FF
    ||| 0x2702 <= u && u <= 0x27B0
}

/// The digest of the password, as the game's final rule sees it: the
/// result depends on the bytes alone.
pub uninterp spec fn sha256_of(bytes: Seq<u8>) -> Seq<u8>;

/// Relies on `sha2::Sha256`: the SHA-256 digest of the bytes, 32 bytes
/// long.
#[verifier::external_body]
fn sha256_digest(s: &str) -> (r: Vec<u8>)
    ensures
        r@ == sha256_of(s.spec_bytes()),
        r@.len() == 32,
{
    let mut hasher = sha2::Sha256::new();
    sha2::Digest::update(&mut hasher, s.as_bytes());
    hasher.finalize().to_vec()
}

/// The lowercase hexadecimal rendering of a byte string: two digits per
/// byte.
pub open spec fn hex_lower(bs: Seq<u8>) -> Seq<char>
    decreases bs.len(),
{
    if bs.len() == 0 {
        Seq::empty()
    } else {
        hex_lower(bs.drop_last()) + seq![
            wire::hex_digit_char((bs.last() / 16) as u32),
            wire::hex_digit_char((bs.last() % 16) as u32),
        ]
    }
}

/// Relies on `hex::encode`: the lowercase hexadecimal rendering of the
/// bytes, two digits per byte.
#[verifier::external_body]
fn hex_encode(b: &Vec<u8>) -> (r: String)
    ensures
        r@ == hex_lower(b@),
{
    hex::encode(b)
}

proof fn lemma_hex_lower_len(bs: Seq<u8>)
    ensures
        hex_lower(bs).len() == 2 * bs.len(),
    decreases bs.len(),
{
    if bs.len() > 0 {
        lemma_hex_lower_len(bs.drop_last());
    }
}

/// The game's verdict on a password, given the hexadecimal digest its
/// final rule inspects.
pub open spec fn game_verdict(s: Seq<char>, hash_hex: Seq<char>) -> GameOutcome {
    if (encode_utf8(s).len() as usize) < 8 {
        GameOutcome::TooShort
    } else if !((exists|i: int| 0 <= i < s.len() && is_upper(s[i])) && (exists|i: int|
        0 <= i < s.len() && is_lower(s[i])) && (exists|i: int|
        0 <= i < s.len() && is_digit(s[i]))) {
        GameOutcome::MissingVariety
    } else if char_count_digits(s, s.len() as int) < 5 {
        GameOutcome::FewDigits
    } else if run_sum(s) != 2023 {
        GameOutcome::BadMath
    } else if !contains_joy(s) {
        GameOutcome::NoJoy
    } else if !has_sandwich(s) {
        GameOutcome::NoSandwich
    } else if !(exists|i: int| 0 <= i < s.len() && in_math_block(s[i])) {
        GameOutcome::OutOfRange
    } else if !(exists|i: int| 0 <= i < s.len() && is_emoji(s[i])) {
        GameOutcome::NoEmoji
    } else if !(hash_hex.len() > 0 && hash_hex.last() == 'a') {
        GameOutcome::NotBrewing
    } else {
        GameOutcome::Nice
    }
}

/// How many of the first `n` characters are digits.
pub open spec fn char_count_digits(s: Seq<char>, n: int) -> int
    decreases n,
{
    if n <= 0 {
        0
    } else {
        char_count_digits(s, n - 1) + if is_digit(s[n - 1]) {
            1int
        } else {
            0int
        }
    }
}

/// The game's outcome: the first rule a password breaks, or a pass.
#[derive(Clone, Copy, PartialEq, Eq, Structural, Debug)]
pub enum GameOutcome {
    /// Fewer than 8 bytes.
    TooShort,
    /// No uppercase letter, no lowercase letter, or no digit.
    MissingVariety,
    /// Fewer than five digits.
    FewDigits,
    /// The digit runs do not sum to 2023.
    BadMath,
    /// Not exactly one `j`, `o`, `y` in that order.
    NoJoy,
    /// No repeated letter with a different one in between.
    NoSandwich,
    /// No character from the decorative mathematical block.
    OutOfRange,
    /// No emoji.
    NoEmoji,
    /// The digest does not end in `a`.
    NotBrewing,
    /// A nice password.
    Nice,
}

impl GameOutcome {
    /// The HTTP status the outcome is reported with.
    pub fn status(&self) -> (r: u16)
        ensures
            *self is TooShort ==> r == 400,
            *self is MissingVariety ==> r == 400,
            *self is FewDigits ==> r == 400,
            *self is BadMath ==> r == 400,
            *self is NoJoy ==> r == 406,
            *self is NoSandwich ==> r == 451,
            *self is OutOfRange ==> r == 416,
            *self is NoEmoji ==> r == 426,
            *self is NotBrewing ==> r == 418,
            *self is Nice ==> r == 200,
    {
        match self {
            GameOutcome::TooShort => 400,
            GameOutcome::MissingVariety => 400,
            GameOutcome::FewDigits => 400,
            GameOutcome::BadMath => 400,
            GameOutcome::NoJoy => 406,
            GameOutcome::NoSandwich => 451,
            GameOutcome::OutOfRange => 416,
            GameOutcome::NoEmoji => 426,
            GameOutcome::NotBrewing => 418,
            GameOutcome::Nice => 200,
        }
    }

    /// The reason line the outcome is reported with.
    pub fn reason(&self) -> (r: String)
        ensures
            *self is TooShort ==> r@ == "8 chars"@,
            *self is MissingVariety ==> r@ == "more types of chars"@,
            *self is FewDigits ==> r@ == "55555"@,
            *self is BadMath ==> r@ == "math is hard"@,
            *self is NoJoy ==> r@ == "not joyful enough"@,
            *self is NoSandwich ==> r@ == "illegal: no sandwich"@,
            *self is OutOfRange ==> r@ == "outranged"@,
            *self is NoEmoji ==> r@ == "\u{1F633}"@,
            *self is NotBrewing ==> r@ == "not a coffee brewer"@,
            *self is Nice ==> r@ == "that's a nice password"@,
    {
        match self {
            GameOutcome::TooShort => String::from_str("8 chars"),
            GameOutcome::MissingVariety => String::from_str("more types of chars"),
            GameOutcome::FewDigits => String::from_str("55555"),
            GameOutcome::BadMath => String::from_str("math is hard"),
            GameOutcome::NoJoy => String::from_str("not joyful enough"),
            GameOutcome::NoSandwich => String::from_str("illegal: no sandwich"),
            GameOutcome::OutOfRange => String::from_str("outranged"),
            GameOutcome::NoEmoji => String::from_str("\u{1F633}"),
            GameOutcome::NotBrewing => String::from_str("not a coffee brewer"),
            GameOutcome::Nice => String::from_str("that's a nice password"),
        }
    }

    /// The judgement the outcome carries.
    pub fn verdict(&self) -> (r: Verdict)
        ensures
            r is Nice <==> *self is Nice,
    {
        match self {
            GameOutcome::Nice => Verdict::Nice,
            _ => Verdict::Naughty,
        }
    }
}

/// Judges a password by the game's ladder of rules.
pub fn password_game(input: &str) -> (o: GameOutcome)
    ensures
        o == game_verdict(input@, hex_lower(sha256_of(input.spec_bytes()))),
{
    let v = text::chars_vec(input);
    let ghost s = input@;
    if input.len() < 8 {
        return GameOutcome::TooShort;
    }
    let mut has_upper = false;
    let mut has_lower = false;
    let mut digit_count: usize = 0;
    let mut i: usize = 0;
    while i < v.len()
        invariant
            i <= v@.len(),
            v@ == s,
            has_upper == exists|j: int| 0 <= j < i && is_upper(s[j]),
            has_lower == exists|j: int| 0 <= j < i && is_lower(s[j]),
            digit_count == char_count_digits(s, i as int),
            digit_count <= i,
        decreases v@.len() - i,
    {
        let c = v[i];
        let u = c as u32;
        if 0x41 <= u && u <= 0x5A {
            proof {
                assert(is_upper(s[i as int]));
            }
            has_upper = true;
        }
        if 0x61 <= u && u <= 0x7A {
            proof {
                assert(is_lower(s[i as int]));
            }
            has_lower = true;
        }
        if 0x30 <= u && u <= 0x39 {
            digit_count = digit_count + 1;
        }
        i = i + 1;
    }
    if !(has_upper && has_lower && digit_count >= 1) {
        proof {
            if digit_count == 0 {
                assert forall|j: int| 0 <= j < s.len() implies !is_digit(s[j]) by {
                    lemma_digit_count_zero(s, s.len() as int, j);
                }
            }
        }
        return GameOutcome::MissingVariety;
    }
    proof {
        lemma_digit_count_witness(s, s.len() as int);
    }
    if digit_count < 5 {
        return GameOutcome::FewDigits;
    }
    let sum = run_sum_clamped(&v);
    if sum != 2023 {
        return GameOutcome::BadMath;
    }
    if !joy_check(&v) {
        return GameOutcome::NoJoy;
    }
    let mut k: usize = 0;
    let mut sandwich = false;
    while !sandwich && v.len() > 2 && k < v.len() - 2
        invariant
            v@ == s,
            k <= v@.len(),
            sandwich ==> has_sandwich(s),
            !sandwich ==> forall|j: int|
                0 <= j && j + 2 < s.len() && j < k ==> !(alphabetic(s[j]) && s[j] == s[j + 2]
                    && s[j + 1] != s[j]),
        decreases v@.len() - k,
    {
        if v[k] == v[k + 2] && v[k + 1] != v[k] && is_alphabetic_exec(v[k]) {
            sandwich = true;
        }
        k = k + 1;
    }
    if !sandwich {
        return GameOutcome::NoSandwich;
    }
    let mut in_range = false;
    let mut m: usize = 0;
    while m < v.len()
        invariant
            v@ == s,
            m <= v@.len(),
            in_range == exists|j: int| 0 <= j < m && in_math_block(s[j]),
        decreases v@.len() - m,
    {
        let u = v[m] as u32;
        if 0x2980 <= u && u <= 0x2BFF {
            in_range = true;
        }
        m = m + 1;
    }
    if !in_range {
        return GameOutcome::OutOfRange;
    }
    let mut emoji = false;
    let mut n: usize = 0;
    while n < v.len()
        invariant
            v@ == s,
            n <= v@.len(),
            emoji == exists|j: int| 0 <= j < n && is_emoji(s[j]),
        decreases v@.len() - n,
    {
        let u = v[n] as u32;
        if (0x1F600 <= u && u <= 0x1F64F) || (0x1F300 <= u && u <= 0x1F5FF) || (0x1F680 <= u && u
            <= 0x1F6FF) || (0x1F1E0 <= u && u <= 0x1F1FF) || (0x2702 <= u && u <= 0x27B0) {
            emoji = true;
        }
        n = n + 1;
    }
    if !emoji {
        return GameOutcome::NoEmoji;
    }
    let digest = sha256_digest(input);
    let hash_hex = hex_encode(&digest);
    proof {
        lemma_hex_lower_len(digest@);
    }
    let last = hash_hex.as_str().get_char(63);
    if last != 'a' {
        return GameOutcome::NotBrewing;
    }
    GameOutcome::Nice
}

proof fn lemma_digit_count_zero(s: Seq<char>, n: int, j: int)
    requires
        char_count_digits(s, n) == 0,
        0 <= j < n,
    ensures
        !is_digit(s[j]),
    decreases n,
{
    lemma_digit_count_nonneg(s, n - 1);
    if j < n - 1 {
        lemma_digit_count_zero(s, n - 1, j);
    }
}

proof fn lemma_digit_count_nonneg(s: Seq<char>, n: int)
    ensures
        char_count_digits(s, n) >= 0,
    decreases n,
{
    if n > 0 {
        lemma_digit_count_nonneg(s, n - 1);
    }
}

proof fn lemma_digit_count_witness(s: Seq<char>, n: int)
    requires
        char_count_digits(s, n) > 0,
    ensures
        exists|j: int| 0 <= j < n && is_digit(s[j]),
    decreases n,
{
    if n > 0 && !is_digit(s[n - 1]) {
        lemma_digit_count_witness(s, n - 1);
        let j = choose|j: int| 0 <= j < n - 1 && is_digit(s[j]);
        assert(0 <= j < n && is_digit(s[j]));
    } else if n > 0 {
        assert(0 <= n - 1 < n && is_digit(s[n - 1]));
    }
}

} // verus!
