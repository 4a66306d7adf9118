//! Verified text utilities: substring search and splitting.

use vstd::prelude::*;

verus! {

/// Whether `pat` occurs in `s` starting at index `i`.
pub open spec fn occurs_at(s: Seq<char>, pat: Seq<char>, i: int) -> bool {
    0 <= i && i + pat.len() <= s.len() && s.subrange(i, i + pat.len()) == pat
}

/// Whether `pat` occurs anywhere in `s`.
pub open spec fn contains_seq(s: Seq<char>, pat: Seq<char>) -> bool {
    exists|i: int| occurs_at(s, pat, i)
}

/// Whether `v[i..]` starts with `pat`.
fn starts_with_at(v: &Vec<char>, pat: &Vec<char>, i: usize) -> (r: bool)
    requires
        i <= v@.len(),
    ensures
        r == occurs_at(v@, pat@, i as int),
{
    if pat.len() > v.len() - i {
        return false;
    }
    let mut k: usize = 0;
    let mut m: usize = i;
    while k < pat.len()
        invariant
            i + pat@.len() <= v@.len(),
            v@.len() <= usize::MAX,
            k <= pat@.len(),
            m == i + k,
            forall|j: int| 0 <= j < k ==> v@[i + j] == pat@[j],
        decreases pat@.len() - k,
    {
        if v[m] != pat[k] {
            proof {
                assert(v@.subrange(i as int, i + pat@.len())[k as int] == v@[i + k]);
            }
            return false;
        }
        k = k + 1;
        m = m + 1;
    }
    proof {
        assert(v@.subrange(i as int, i + pat@.len()) =~= pat@);
    }
    true
}

/// The first index at or after `from` where `pat` occurs, if any.
pub fn find_from(v: &Vec<char>, pat: &Vec<char>, from: usize) -> (r: Option<usize>)
    requires
        from <= v@.len(),
    ensures
        match r {
            Some(i) => from <= i && occurs_at(v@, pat@, i as int) && forall|j: int|
                from <= j < i ==> !occurs_at(v@, pat@, j),
            None => forall|j: int| from <= j ==> !occurs_at(v@, pat@, j),
        },
{
    let mut i: usize = from;
    loop
        invariant
            from <= i <= v@.len(),
            forall|j: int| from <= j < i ==> !occurs_at(v@, pat@, j),
        decreases v@.len() - i,
    {
        if starts_with_at(v, pat, i) {
            return Some(i);
        }
        if i == v.len() {
            proof {
                assert forall|j: int| from <= j implies !occurs_at(v@, pat@, j) by {
                    if j + pat@.len() <= v@.len() {
                        assert(j <= v@.len());
                    }
                }
            }
            return None;
        }
        i = i + 1;
    }
}

/// Whether `pat` occurs anywhere in `v`.
pub fn contains_chars(v: &Vec<char>, pat: &Vec<char>) -> (r: bool)
    ensures
        r == contains_seq(v@, pat@),
{
    match find_from(v, pat, 0) {
        Some(_) => true,
        None => {
            proof {
                assert forall|j: int| !occurs_at(v@, pat@, j) by {
                    if j >= 0 {
                        assert(!occurs_at(v@, pat@, j));
                    }
                }
            }
            false
        },
    }
}

/// The pieces of `s` split at every occurrence of the separator character:
/// one piece more than there are separators, empty pieces kept.
pub open spec fn split_char_seq(s: Seq<char>, sep: char) -> Seq<Seq<char>>
    decreases s.len(),
{
    let i = first_sep(s, sep, 0);
    if 0 <= i && i < s.len() {
        seq![s.take(i)] + split_char_seq(s.skip(i + 1), sep)
    } else {
        seq![s]
    }
}

/// The first index at or after `i` holding the separator, or the length.
pub open spec fn first_sep(s: Seq<char>, sep: char, i: int) -> int
    decreases s.len() - i,
{
    if i < 0 || i >= s.len() {
        s.len() as int
    } else if s[i] == sep {
        i
    } else {
        first_sep(s, sep, i + 1)
    }
}

proof fn lemma_first_sep_bounds(s: Seq<char>, sep: char, i: int)
    requires
        0 <= i <= s.len(),
    ensures
        i <= first_sep(s, sep, i) <= s.len(),
    decreases s.len() - i,
{
    if i < s.len() && s[i] != sep {
        lemma_first_sep_bounds(s, sep, i + 1);
    }
}

proof fn lemma_first_sep_shift(s: Seq<char>, sep: char, base: int, i: int)
    requires
        0 <= base,
        0 <= i,
        base + i <= s.len(),
    ensures
        first_sep(s.skip(base), sep, i) == first_sep(s, sep, base + i) - base,
    decreases s.len() - base - i,
{
    if base + i < s.len() && s[base + i] != sep {
        lemma_first_sep_shift(s, sep, base, i + 1);
    }
}

/// Relies on `String::push`: appends exactly the given character.
#[verifier::external_body]
pub(crate) fn push_char(out: &mut String, c: char)
    ensures
        final(out)@ == old(out)@.push(c),
{
    out.push(c);
}

/// Collects a range of characters into an owned string.
pub fn string_of_range(v: &Vec<char>, from: usize, to: usize) -> (s: String)
    requires
        from <= to <= v@.len(),
    ensures
        s@ == v@.subrange(from as int, to as int),
{
    let mut s = String::new();
    let mut i = from;
    while i < to
        invariant
            from <= i <= to <= v@.len(),
            s@ == v@.subrange(from as int, i as int),
        decreases to - i,
    {
        push_char(&mut s, v[i]);
        proof {
            assert(s@ =~= v@.subrange(from as int, i + 1));
        }
        i = i + 1;
    }
    s
}

/// Relies on `str::chars`: the characters of the string, in order.
#[verifier::external_body]
pub fn chars_vec(s: &str) -> (v: Vec<char>)
    ensures
        v@ == s@,
{
    s.chars().collect()
}

/// Splits at every occurrence of the separator; empty pieces are kept.
pub fn split_char(s: &str, sep: char) -> (r: Vec<String>)
    ensures
        r@.map_values(|p: String| p@) == split_char_seq(s@, sep),
{
    let v = chars_vec(s);
    let mut out: Vec<String> = Vec::new();
    let mut start: usize = 0;
    let ghost whole = v@;
    proof {
        assert(whole.skip(0) =~= whole);
        assert(out@.map_values(|p: String| p@) =~= Seq::<Seq<char>>::empty());
    }
    loop
        invariant
            start <= v@.len(),
            v@ == whole,
            whole == s@,
            split_char_seq(whole, sep) == out@.map_values(|p: String| p@) + split_char_seq(
                whole.skip(start as int),
                sep,
            ),
        decreases v@.len() - start,
    {
        let mut i = start;
        while i < v.len() && v[i] != sep
            invariant
                start <= i <= v@.len(),
                v@ == whole,
                first_sep(whole, sep, start as int) == first_sep(whole, sep, i as int),
            decreases v@.len() - i,
        {
            i = i + 1;
        }
        proof {
            lemma_first_sep_bounds(whole, sep, start as int);
            lemma_first_sep_shift(whole, sep, start as int, 0);
        }
        let piece = string_of_range(&v, start, i);
        let ghost prev = out@.map_values(|p: String| p@);
        let ghost rest = whole.skip(start as int);
        if i >= v.len() {
            out.push(piece);
            proof {
                assert(split_char_seq(rest, sep) =~= seq![rest]);
                assert(piece@ =~= rest);
                assert(out@.map_values(|p: String| p@) =~= prev + seq![rest]);
                assert(split_char_seq(whole, sep) =~= out@.map_values(|p: String| p@));
            }
            return out;
        }
        out.push(piece);
        proof {
            assert(first_sep(rest, sep, 0) == i - start);
            assert(rest.take(i - start) =~= whole.subrange(start as int, i as int));
            assert(rest.skip(i - start + 1) =~= whole.skip(i + 1));
            assert(split_char_seq(rest, sep) == seq![rest.take(i - start)] + split_char_seq(
                whole.skip(i + 1),
                sep,
            ));
            assert(out@.map_values(|p: String| p@) =~= prev + seq![piece@]);
            assert(split_char_seq(whole, sep) =~= out@.map_values(|p: String| p@)
                + split_char_seq(whole.skip(i + 1), sep));
        }
        start = i + 1;
    }
}


/// Strict lexicographic order on character sequences, by code point:
/// the order `str`'s own comparison realises on valid text.
pub open spec fn lex_lt(a: Seq<char>, b: Seq<char>) -> bool
    decreases a.len(),
{
    if b.len() == 0 {
        false
    } else if a.len() == 0 {
        true
    } else if (a[0] as u32) < (b[0] as u32) {
        true
    } else if a[0] == b[0] {
        lex_lt(a.skip(1), b.skip(1))
    } else {
        false
    }
}

/// Two distinct sequences are ordered one way or the other.
pub proof fn lemma_lex_connected(a: Seq<char>, b: Seq<char>)
    requires
        a != b,
    ensures
        lex_lt(a, b) || lex_lt(b, a),
    decreases a.len(),
{
    if a.len() != 0 && b.len() != 0 {
        if a[0] == b[0] {
            assert(a.skip(1) != b.skip(1)) by {
                if a.skip(1) == b.skip(1) {
                    assert(a =~= seq![a[0]] + a.skip(1));
                    assert(b =~= seq![b[0]] + b.skip(1));
                }
            }
            lemma_lex_connected(a.skip(1), b.skip(1));
        } else {
            // distinct characters have distinct code points
            if (a[0] as u32) == (b[0] as u32) {
                vstd::utf8::char_u32_cast(a[0], a[0] as u32);
                vstd::utf8::char_u32_cast(b[0], b[0] as u32);
            }
        }
    } else if a.len() == 0 && b.len() == 0 {
        assert(a =~= b);
    }
}

/// The order is transitive.
pub proof fn lemma_lex_trans(a: Seq<char>, b: Seq<char>, c: Seq<char>)
    requires
        lex_lt(a, b),
        lex_lt(b, c),
    ensures
        lex_lt(a, c),
    decreases a.len(),
{
    if a.len() != 0 && b.len() != 0 && c.len() != 0 {
        if a[0] == b[0] && b[0] == c[0] {
            lemma_lex_trans(a.skip(1), b.skip(1), c.skip(1));
        }
    }
}

/// Whether `a` comes strictly before `b` in lexicographic order.
pub fn str_lt(a: &str, b: &str) -> (r: bool)
    ensures
        r == lex_lt(a@, b@),
{
    let va = chars_vec(a);
    let vb = chars_vec(b);
    let mut i: usize = 0;
    proof {
        assert(a@.skip(0) =~= a@);
        assert(b@.skip(0) =~= b@);
    }
    loop
        invariant
            va@ == a@,
            vb@ == b@,
            i <= va@.len(),
            i <= vb@.len(),
            lex_lt(a@, b@) == lex_lt(a@.skip(i as int), b@.skip(i as int)),
        decreases va@.len() - i,
    {
        if i >= vb.len() {
            return false;
        }
        if i >= va.len() {
            return true;
        }
        let ca = va[i];
        let cb = vb[i];
        proof {
            assert(a@.skip(i as int)[0] == a@[i as int]);
            assert(b@.skip(i as int)[0] == b@[i as int]);
            assert(a@.skip(i as int).skip(1) =~= a@.skip(i + 1));
            assert(b@.skip(i as int).skip(1) =~= b@.skip(i + 1));
        }
        if (ca as u32) < (cb as u32) {
            return true;
        }
        if ca != cb {
            return false;
        }
        i = i + 1;
    }
}

} // verus!
