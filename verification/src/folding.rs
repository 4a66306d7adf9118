//! The numeric folding puzzles: exclusive-or over a list of packet ids,
//! cubed; and exclusive-or over a list of integers, paid out in presents.

use vstd::prelude::*;
use crate::numfmt;
use crate::text;
use crate::text::push_char;

verus! {

/// The exclusive-or of a list of packet ids.
pub open spec fn xor_fold_i32(nums: Seq<i32>) -> i32
    decreases nums.len(),
{
    if nums.len() == 0 {
        0
    } else {
        xor_fold_i32(nums.drop_last()) ^ nums.last()
    }
}

/// The exclusive-or of a list of machine integers.
pub open spec fn xor_fold_usize(nums: Seq<usize>) -> usize
    decreases nums.len(),
{
    if nums.len() == 0 {
        0
    } else {
        xor_fold_usize(nums.drop_last()) ^ nums.last()
    }
}

/// The path split at every `/`, with one trailing empty piece removed, as
/// `str::split_terminator` does.
pub open spec fn path_segments(s: Seq<char>) -> Seq<Seq<char>> {
    let raw = text::split_char_seq(s, '/');
    if raw.len() > 0 && raw.last().len() == 0 {
        raw.drop_last()
    } else {
        raw
    }
}

/// All segments parsed as decimal packet ids, or nothing if one of them
/// is not one.
pub open spec fn parse_segments(segs: Seq<Seq<char>>) -> Option<Seq<i32>>
    decreases segs.len(),
{
    if segs.len() == 0 {
        Some(Seq::empty())
    } else {
        match numfmt::parse_i32_spec(segs[0]) {
            None => None,
            Some(v) => match parse_segments(segs.drop_first()) {
                None => None,
                Some(t) => Some(seq![v] + t),
            },
        }
    }
}

/// The cube of a packet id, truncated to the id type's width.
pub open spec fn cube_trunc(x: i32) -> i32 {
    ((x as int) * (x as int) * (x as int)) as i32
}

/// Why a sled id request is rejected.
#[derive(Debug, PartialEq, Eq, Structural, Clone, Copy)]
pub enum PathError {
    /// A segment is not a decimal packet id.
    Unparseable,
    /// More than 20 packet ids were given.
    TooLong,
}

/// Parses the path `a/b/c/...` into packet ids and yields the decimal
/// rendering of the cube of their exclusive-or.  At most 20 ids are
/// accepted; a segment that is no id rejects the request.
pub fn sled_id(path: &str) -> (r: Result<String, PathError>)
    ensures
        ({
            let segs = path_segments(path@);
            match parse_segments(segs) {
                None => r == Result::<String, PathError>::Err(PathError::Unparseable),
                Some(nums) => {
                    if nums.len() > 20 {
                        r == Result::<String, PathError>::Err(PathError::TooLong)
                    } else {
                        r matches Ok(t) && t@ == numfmt::dec_str_int(
                            cube_trunc(xor_fold_i32(nums)) as int,
                        )
                    }
                },
            }
        }),
{
    let mut segs = text::split_char(path, '/');
    if segs.len() > 0 && segs[segs.len() - 1].as_str().is_empty() {
        let ghost raw = segs@.map_values(|p: String| p@);
        segs.pop();
        proof {
            assert(segs@.map_values(|p: String| p@) =~= raw.drop_last());
        }
    }
    let ghost spec_segs = path_segments(path@);
    proof {
        assert(segs@.map_values(|p: String| p@) =~= spec_segs);
        assert(spec_segs.skip(0) =~= spec_segs);
        if parse_segments(spec_segs) is Some {
            let t = parse_segments(spec_segs)->0;
            assert(Seq::<i32>::empty() + t =~= t);
        }
    }
    let mut nums: Vec<i32> = Vec::new();
    let mut i: usize = 0;
    while i < segs.len()
        invariant
            i <= segs@.len(),
            spec_segs == path_segments(path@),
            segs@.map_values(|p: String| p@) == spec_segs,
            parse_segments(spec_segs) == (match parse_segments(spec_segs.skip(i as int)) {
                Some(t) => Some(nums@ + t),
                None => None::<Seq<i32>>,
            }),
        decreases segs@.len() - i,
    {
        let ghost suffix = spec_segs.skip(i as int);
        proof {
            assert(suffix[0] == spec_segs[i as int]);
            assert(spec_segs[i as int] == segs@[i as int]@);
        }
        match numfmt::parse_i32(segs[i].as_str()) {
            None => {
                proof {
                    assert(parse_segments(spec_segs.skip(i as int)) is None);
                }
                return Err(PathError::Unparseable);
            },
            Some(v) => {
                let ghost prev = nums@;
                nums.push(v);
                proof {
                    assert(suffix.drop_first() =~= spec_segs.skip(i + 1));
                    if parse_segments(suffix.drop_first()) is Some {
                        let t = parse_segments(suffix.drop_first())->0;
                        assert(prev + (seq![v] + t) =~= (prev + seq![v]) + t);
                        assert(nums@ =~= prev + seq![v]);
                    }
                }
            },
        }
        i = i + 1;
    }
    proof {
        assert(spec_segs.skip(segs@.len() as int) =~= Seq::<Seq<char>>::empty());
        assert(nums@ + Seq::<i32>::empty() =~= nums@);
        assert(parse_segments(spec_segs) == Some(nums@));
    }
    if nums.len() > 20 {
        return Err(PathError::TooLong);
    }
    let mut acc: i32 = 0;
    let mut k: usize = 0;
    while k < nums.len()
        invariant
            k <= nums@.len(),
            acc == xor_fold_i32(nums@.take(k as int)),
        decreases nums@.len() - k,
    {
        acc = acc ^ nums[k];
        proof {
            assert(nums@.take(k + 1).drop_last() =~= nums@.take(k as int));
            assert(nums@.take(k + 1).last() == nums@[k as int]);
        }
        k = k + 1;
    }
    proof {
        assert(nums@.take(nums@.len() as int) =~= nums@);
    }
    let a: i128 = acc as i128;
    proof {
        assert(a * a >= 0 && a * a <= 0x4000_0000_0000_0000i128) by (nonlinear_arith)
            requires
                -0x8000_0000i128 <= a <= 0x7FFF_FFFFi128,
        ;
        assert((a * a) * a >= -0x2000_0000_0000_0000_0000_0000i128 && (a * a) * a
            <= 0x2000_0000_0000_0000_0000_0000i128) by (nonlinear_arith)
            requires
                -0x8000_0000i128 <= a <= 0x7FFF_FFFFi128,
                0 <= a * a <= 0x4000_0000_0000_0000i128,
        ;
    }
    let sq: i128 = a * a;
    let big: i128 = sq * a;
    let cube: i32 = #[verifier::truncate] (big as i32);
    Ok(numfmt::i64_to_string(cube as i64))
}

/// The exclusive-or of all lines, each a decimal integer, or nothing if a
/// line is not one.
pub open spec fn parse_usize_lines(lines: Seq<Seq<char>>) -> Option<Seq<usize>>
    decreases lines.len(),
{
    if lines.len() == 0 {
        Some(Seq::empty())
    } else {
        match numfmt::parse_usize_spec(lines[0]) {
            None => None,
            Some(v) => match parse_usize_lines(lines.drop_first()) {
                None => None,
                Some(t) => Some(seq![v] + t),
            },
        }
    }
}

/// Folds all lines with exclusive-or, as the present-counting endpoint
/// does before paying out one present per unit.
pub fn xor_of_lines(lines: &Vec<String>) -> (r: Option<usize>)
    ensures
        ({
            let parsed = parse_usize_lines(lines@.map_values(|p: String| p@));
            match r {
                Some(n) => parsed matches Some(nums) && n == xor_fold_usize(nums),
                None => parsed is None,
            }
        }),
{
    let ghost all = lines@.map_values(|p: String| p@);
    proof {
        assert(all.skip(0) =~= all);
        if parse_usize_lines(all) is Some {
            let t = parse_usize_lines(all)->0;
            assert(Seq::<usize>::empty() + t =~= t);
        }
    }
    let mut nums: Vec<usize> = Vec::new();
    let mut i: usize = 0;
    while i < lines.len()
        invariant
            i <= lines@.len(),
            all == lines@.map_values(|p: String| p@),
            parse_usize_lines(all) == (match parse_usize_lines(all.skip(i as int)) {
                Some(t) => Some(nums@ + t),
                None => None::<Seq<usize>>,
            }),
        decreases lines@.len() - i,
    {
        let ghost suffix = all.skip(i as int);
        proof {
            assert(suffix[0] == all[i as int]);
            assert(all[i as int] == lines@[i as int]@);
        }
        match numfmt::parse_usize(lines[i].as_str()) {
            None => {
                proof {
                    assert(parse_usize_lines(suffix) is None);
                }
                return None;
            },
            Some(v) => {
                let ghost prev = nums@;
                nums.push(v);
                proof {
                    assert(suffix[0] == all[i as int]);
                    assert(suffix.drop_first() =~= all.skip(i + 1));
                    if parse_usize_lines(suffix.drop_first()) is Some {
                        let t = parse_usize_lines(suffix.drop_first())->0;
                        assert(prev + (seq![v] + t) =~= (prev + seq![v]) + t);
                        assert(nums@ =~= prev + seq![v]);
                    }
                }
            },
        }
        i = i + 1;
    }
    proof {
        assert(all.skip(all.len() as int) =~= Seq::<Seq<char>>::empty());
        assert(nums@ + Seq::<usize>::empty() =~= nums@);
        assert(parse_usize_lines(all) == Some(nums@));
    }
    let mut acc: usize = 0;
    let mut k: usize = 0;
    while k < nums.len()
        invariant
            k <= nums@.len(),
            acc == xor_fold_usize(nums@.take(k as int)),
        decreases nums@.len() - k,
    {
        acc = acc ^ nums[k];
        proof {
            assert(nums@.take(k + 1).drop_last() =~= nums@.take(k as int));
            assert(nums@.take(k + 1).last() == nums@[k as int]);
        }
        k = k + 1;
    }
    proof {
        assert(nums@.take(nums@.len() as int) =~= nums@);
    }
    Some(acc)
}

/// A string of `n` copies of one character.
pub fn repeat_char(c: char, n: usize) -> (s: String)
    ensures
        s@ == Seq::new(n as nat, |i: int| c),
{
    let mut s = String::new();
    let mut i: usize = 0;
    while i < n
        invariant
            i <= n,
            s@ == Seq::new(i as nat, |k: int| c),
        decreases n - i,
    {
        push_char(&mut s, c);
        proof {
            assert(s@ =~= Seq::new((i + 1) as nat, |k: int| c));
        }
        i = i + 1;
    }
    s
}


} // verus!
