//! The elf-census endpoint: counting elves, elves on shelves, and
//! shelves with no elf on them.

use vstd::prelude::*;
use crate::text;

verus! {

/// The census result.
#[derive(Debug, PartialEq, Eq, Structural, Clone, Copy)]
pub struct Answer {
    pub elf: i32,
    pub elf_shelf: i32,
    pub shelf_no_elf: i32,
}

/// How many of the pieces contain the pattern.
pub open spec fn count_containing(pieces: Seq<Seq<char>>, pat: Seq<char>) -> int
    decreases pieces.len(),
{
    if pieces.len() == 0 {
        0
    } else {
        count_containing(pieces.drop_last(), pat) + if text::contains_seq(pieces.last(), pat) {
            1int
        } else {
            0int
        }
    }
}

/// The first index at or after `i` where the pattern occurs, or -1.
pub open spec fn find_first(s: Seq<char>, pat: Seq<char>, i: int) -> int
    decreases s.len() - i,
{
    if i < 0 || i > s.len() {
        -1
    } else if text::occurs_at(s, pat, i) {
        i
    } else if i == s.len() {
        -1
    } else {
        find_first(s, pat, i + 1)
    }
}

proof fn lemma_find_first_at(s: Seq<char>, pat: Seq<char>, i: int)
    requires
        0 <= i <= s.len(),
        text::occurs_at(s, pat, i),
        forall|j: int| 0 <= j < i ==> !text::occurs_at(s, pat, j),
    ensures
        find_first(s, pat, 0) == i,
{
    lemma_find_first_step(s, pat, 0, i);
}

proof fn lemma_find_first_step(s: Seq<char>, pat: Seq<char>, from: int, i: int)
    requires
        0 <= from <= i <= s.len(),
        text::occurs_at(s, pat, i),
        forall|j: int| from <= j < i ==> !text::occurs_at(s, pat, j),
    ensures
        find_first(s, pat, from) == i,
    decreases i - from,
{
    if from < i {
        lemma_find_first_step(s, pat, from + 1, i);
    }
}

proof fn lemma_find_first_none(s: Seq<char>, pat: Seq<char>, from: int)
    requires
        0 <= from <= s.len(),
        forall|j: int| !text::occurs_at(s, pat, j),
    ensures
        find_first(s, pat, from) == -1,
    decreases s.len() - from,
{
    if from < s.len() {
        lemma_find_first_none(s, pat, from + 1);
    }
}

/// How often the pattern can be struck out, each removal splicing the
/// remainder together, first occurrence first.
pub open spec fn removal_count(s: Seq<char>, pat: Seq<char>) -> int
    decreases s.len(),
{
    if pat.len() == 0 {
        0
    } else {
        let i = find_first(s, pat, 0);
        if 0 <= i && i + pat.len() <= s.len() {
            1 + removal_count(s.take(i) + s.skip(i + pat.len()), pat)
        } else {
            0
        }
    }
}

/// What is left of the string after all such removals.
pub open spec fn residual(s: Seq<char>, pat: Seq<char>) -> Seq<char>
    decreases s.len(),
{
    if pat.len() == 0 {
        s
    } else {
        let i = find_first(s, pat, 0);
        if 0 <= i && i + pat.len() <= s.len() {
            residual(s.take(i) + s.skip(i + pat.len()), pat)
        } else {
            s
        }
    }
}

/// Strikes the range `[i, i + plen)` out of the characters.
fn splice_out(v: &Vec<char>, i: usize, plen: usize) -> (r: Vec<char>)
    requires
        i + plen <= v@.len(),
    ensures
        r@ == v@.take(i as int) + v@.skip(i + plen),
{
    let n = v.len();
    let mut r: Vec<char> = Vec::new();
    let mut k: usize = 0;
    while k < i
        invariant
            k <= i,
            i + plen <= v@.len(),
            v@.len() == n,
            r@ =~= v@.take(k as int),
        decreases i - k,
    {
        r.push(v[k]);
        proof {
            assert(r@ =~= v@.take(k + 1));
        }
        k = k + 1;
    }
    let mut m: usize = i + plen;
    while m < v.len()
        invariant
            i + plen <= m <= v@.len(),
            v@.len() == n,
            r@ =~= v@.take(i as int) + v@.subrange(i + plen, m as int),
        decreases v@.len() - m,
    {
        r.push(v[m]);
        proof {
            assert(r@ =~= v@.take(i as int) + v@.subrange(i + plen, m + 1));
        }
        m = m + 1;
    }
    proof {
        assert(v@.subrange(i + plen, v@.len() as int) =~= v@.skip(i + plen));
        assert(r@ =~= v@.take(i as int) + v@.skip(i + plen));
    }
    r
}

/// Counts the pieces containing the pattern.
fn count_pieces_containing(pieces: &Vec<String>, pat: &Vec<char>) -> (r: usize)
    ensures
        r == count_containing(pieces@.map_values(|p: String| p@), pat@),
{
    let ghost all = pieces@.map_values(|p: String| p@);
    let mut count: usize = 0;
    let mut i: usize = 0;
    while i < pieces.len()
        invariant
            i <= pieces@.len(),
            all == pieces@.map_values(|p: String| p@),
            count == count_containing(all.take(i as int), pat@),
            count <= i,
        decreases pieces@.len() - i,
    {
        proof {
            assert(all.take(i + 1).drop_last() =~= all.take(i as int));
            assert(all.take(i + 1).last() == all[i as int]);
            assert(all[i as int] == pieces@[i as int]@);
        }
        let pv = text::chars_vec(pieces[i].as_str());
        if text::contains_chars(&pv, pat) {
            count = count + 1;
        }
        i = i + 1;
    }
    proof {
        assert(all.take(all.len() as int) =~= all);
    }
    count
}

/// The census: words containing `elf`; how often `elf on a shelf` can be
/// struck out; words of what remains that contain `shelf`.
pub fn analyze_elves(input: &str) -> (a: Answer)
    ensures
        ({
            let s = input@;
            let words = text::split_char_seq(s, ' ');
            let pat = "elf on a shelf"@;
            let rest = residual(s, pat);
            &&& a.elf == count_containing(words, "elf"@) as i32
            &&& a.elf_shelf == removal_count(s, pat) as i32
            &&& a.shelf_no_elf == count_containing(
                text::split_char_seq(rest, ' '),
                "shelf"@,
            ) as i32
        }),
{
    let words = text::split_char(input, ' ');
    let elf_pat = text::chars_vec("elf");
    let elves = count_pieces_containing(&words, &elf_pat);
    let pat = text::chars_vec("elf on a shelf");
    proof {
        reveal_strlit("elf on a shelf");
        assert(pat@.len() == 14);
    }
    let mut v = text::chars_vec(input);
    let n0 = v.len();
    let ghost whole = input@;
    let mut removals: usize = 0;
    loop
        invariant
            pat@ == "elf on a shelf"@,
            pat@.len() == 14,
            removal_count(whole, pat@) == removals + removal_count(v@, pat@),
            residual(whole, pat@) == residual(v@, pat@),
            removals + v@.len() <= whole.len(),
            whole.len() <= usize::MAX,
        ensures
            removal_count(whole, pat@) == removals,
            residual(whole, pat@) == v@,
        decreases v@.len(),
    {
        match text::find_from(&v, &pat, 0) {
            None => {
                proof {
                    lemma_find_first_none(v@, pat@, 0);
                    assert(removal_count(v@, pat@) == 0);
                    assert(residual(v@, pat@) == v@);
                }
                break ;
            },
            Some(i) => {
                proof {
                    lemma_find_first_at(v@, pat@, i as int);
                }
                let next = splice_out(&v, i, pat.len());
                proof {
                    assert(removal_count(v@, pat@) == 1 + removal_count(next@, pat@));
                    assert(residual(v@, pat@) == residual(next@, pat@));
                    assert(next@.len() < v@.len());
                }
                v = next;
                removals = removals + 1;
            },
        }
    }
    let rest = crate::wire::string_from_chars(&v);
    let rest_words = text::split_char(rest.as_str(), ' ');
    let shelf_pat = text::chars_vec("shelf");
    let shelves = count_pieces_containing(&rest_words, &shelf_pat);
    let elf_count: i32 = #[verifier::truncate] (elves as i32);
    let shelf_count: i32 = #[verifier::truncate] (removals as i32);
    let lone_shelves: i32 = #[verifier::truncate] (shelves as i32);
    Answer { elf: elf_count, elf_shelf: shelf_count, shelf_no_elf: lone_shelves }
}

} // verus!
