//! The reindeer roster: summed strength, and the cross-discipline contest
//! summary.

use vstd::prelude::*;
use vstd::string::StringExecFns;
use crate::numfmt;

verus! {

/// A reindeer as the strength endpoint sees it.
pub struct Reindeer {
    pub name: String,
    pub strength: i32,
}

/// A contestant.  The speed discipline is judged outside the library (it
/// is measured in floating point); the caller hands in the winner's index.
pub struct ContestEntry {
    pub name: String,
    pub strength: i32,
    pub height: i32,
    pub antler_width: i32,
    pub snow_magic_power: i32,
    pub favorite_food: String,
    pub candies_eaten_yesterday: i32,
}

/// The four contest verdict lines.
#[derive(Debug, PartialEq, Eq)]
pub struct ContestResult {
    pub fastest: String,
    pub tallest: String,
    pub magician: String,
    pub consumer: String,
}

/// The summed strength of the roster.
pub open spec fn strength_sum(rs: Seq<Reindeer>) -> int
    decreases rs.len(),
{
    if rs.len() == 0 {
        0
    } else {
        strength_sum(rs.drop_last()) + rs.last().strength
    }
}

proof fn lemma_strength_sum_bound(rs: Seq<Reindeer>)
    ensures
        -(rs.len() * 0x8000_0000) <= strength_sum(rs) <= rs.len() * 0x8000_0000,
    decreases rs.len(),
{
    if rs.len() > 0 {
        lemma_strength_sum_bound(rs.drop_last());
    }
}

/// The total strength of the roster, rendered as a decimal string.
pub fn total_strength(reindeers: &Vec<Reindeer>) -> (r: String)
    requires
        reindeers@.len() < 0x1_0000_0000,
    ensures
        r@ == numfmt::dec_str_int(strength_sum(reindeers@)),
{
    let mut sum: i64 = 0;
    let mut i: usize = 0;
    while i < reindeers.len()
        invariant
            i <= reindeers@.len(),
            reindeers@.len() < 0x1_0000_0000,
            sum == strength_sum(reindeers@.take(i as int)),
            -(i * 0x8000_0000) <= sum <= i * 0x8000_0000,
        decreases reindeers@.len() - i,
    {
        sum = sum + (reindeers[i].strength as i64);
        proof {
            assert(reindeers@.take(i + 1).drop_last() =~= reindeers@.take(i as int));
            assert(reindeers@.take(i + 1).last() == reindeers@[i as int]);
        }
        i = i + 1;
    }
    proof {
        assert(reindeers@.take(reindeers@.len() as int) =~= reindeers@);
    }
    numfmt::i64_to_string(sum)
}

/// Index of the last entry with the maximal value, as an iterator's
/// `max_by_key` picks it.
pub open spec fn argmax_last(vals: Seq<int>) -> int
    decreases vals.len(),
{
    if vals.len() <= 1 {
        0
    } else {
        let r = argmax_last(vals.drop_last());
        if vals.last() >= vals[r] {
            vals.len() - 1
        } else {
            r
        }
    }
}

proof fn lemma_argmax_last_bound(vals: Seq<int>)
    requires
        vals.len() > 0,
    ensures
        0 <= argmax_last(vals) < vals.len(),
    decreases vals.len(),
{
    if vals.len() > 1 {
        lemma_argmax_last_bound(vals.drop_last());
    }
}

/// The heights of the contestants.
pub open spec fn heights(rs: Seq<ContestEntry>) -> Seq<int> {
    rs.map_values(|r: ContestEntry| r.height as int)
}

/// The snow magic powers of the contestants.
pub open spec fn magic_powers(rs: Seq<ContestEntry>) -> Seq<int> {
    rs.map_values(|r: ContestEntry| r.snow_magic_power as int)
}

/// The candy counts of the contestants.
pub open spec fn candies(rs: Seq<ContestEntry>) -> Seq<int> {
    rs.map_values(|r: ContestEntry| r.candies_eaten_yesterday as int)
}

/// Index of the last entry with the maximal projected value.
fn argmax_exec(vals: &Vec<i32>) -> (r: usize)
    requires
        vals@.len() > 0,
    ensures
        r as int == argmax_last(vals@.map_values(|v: i32| v as int)),
        r < vals@.len(),
{
    let ghost ivals = vals@.map_values(|v: i32| v as int);
    let mut best: usize = 0;
    let mut i: usize = 1;
    while i < vals.len()
        invariant
            ivals == vals@.map_values(|v: i32| v as int),
            1 <= i <= vals@.len() || (vals@.len() == 1 && i == 1),
            best < i,
            best as int == argmax_last(ivals.take(i as int)),
        decreases vals@.len() - i,
    {
        proof {
            assert(ivals.take(i + 1).drop_last() =~= ivals.take(i as int));
            assert(ivals.take(i + 1).last() == ivals[i as int]);
            lemma_argmax_last_bound(ivals.take(i as int));
        }
        if vals[i] >= vals[best] {
            best = i;
        }
        i = i + 1;
    }
    proof {
        assert(ivals.take(vals@.len() as int) =~= ivals);
    }
    best
}

/// The verdict line for the speed discipline.
pub open spec fn fastest_line(e: ContestEntry) -> Seq<char> {
    "Speeding past the finish line with a strength of "@ + numfmt::dec_str_int(e.strength as int)
        + " is "@ + e.name@
}

/// The verdict line for the height discipline.
pub open spec fn tallest_line(e: ContestEntry) -> Seq<char> {
    e.name@ + " is standing tall with his "@ + numfmt::dec_str_int(e.antler_width as int)
        + " cm wide antlers"@
}

/// The verdict line for the snow magic discipline.
pub open spec fn magician_line(e: ContestEntry) -> Seq<char> {
    e.name@ + " could blast you away with a snow magic power of "@ + numfmt::dec_str_int(
        e.snow_magic_power as int,
    )
}

/// The verdict line for the candy discipline.
pub open spec fn consumer_line(e: ContestEntry) -> Seq<char> {
    e.name@ + " ate lots of candies, but also some "@ + e.favorite_food@
}

/// The contest verdict.  The caller names the index of the fastest
/// contestant (speed is judged outside); the other disciplines pick the
/// last contestant with the maximal value, as an iterator's maximum
/// does.  An empty roster, or a winner index outside it, yields nothing.
pub fn contest(reindeers: &Vec<ContestEntry>, fastest: usize) -> (r: Option<ContestResult>)
    ensures
        r is Some <==> reindeers@.len() > 0 && fastest < reindeers@.len(),
        r matches Some(c) ==> {
            &&& c.fastest@ == fastest_line(reindeers@[fastest as int])
            &&& c.tallest@ == tallest_line(reindeers@[argmax_last(heights(reindeers@))])
            &&& c.magician@ == magician_line(reindeers@[argmax_last(magic_powers(reindeers@))])
            &&& c.consumer@ == consumer_line(reindeers@[argmax_last(candies(reindeers@))])
        },
{
    if reindeers.len() == 0 || fastest >= reindeers.len() {
        return None;
    }
    let mut hs: Vec<i32> = Vec::new();
    let mut ms: Vec<i32> = Vec::new();
    let mut cs: Vec<i32> = Vec::new();
    let mut i: usize = 0;
    while i < reindeers.len()
        invariant
            i <= reindeers@.len(),
            hs@.len() == i && ms@.len() == i && cs@.len() == i,
            forall|j: int| 0 <= j < i ==> (#[trigger] hs@[j]) == reindeers@[j].height,
            forall|j: int| 0 <= j < i ==> (#[trigger] ms@[j]) == reindeers@[j].snow_magic_power,
            forall|j: int| 0 <= j < i ==> (#[trigger] cs@[j]) == reindeers@[j].candies_eaten_yesterday,
        decreases reindeers@.len() - i,
    {
        hs.push(reindeers[i].height);
        ms.push(reindeers[i].snow_magic_power);
        cs.push(reindeers[i].candies_eaten_yesterday);
        i = i + 1;
    }
    proof {
        assert(hs@.map_values(|v: i32| v as int) =~= heights(reindeers@));
        assert(ms@.map_values(|v: i32| v as int) =~= magic_powers(reindeers@));
        assert(cs@.map_values(|v: i32| v as int) =~= candies(reindeers@));
    }
    let tallest = argmax_exec(&hs);
    let magician = argmax_exec(&ms);
    let consumer = argmax_exec(&cs);
    proof {
        lemma_argmax_last_bound(heights(reindeers@));
        lemma_argmax_last_bound(magic_powers(reindeers@));
        lemma_argmax_last_bound(candies(reindeers@));
    }
    let f = &reindeers[fastest];
    let mut fast_text = String::from_str("Speeding past the finish line with a strength of ");
    fast_text.append(numfmt::i64_to_string(f.strength as i64).as_str());
    fast_text.append(" is ");
    fast_text.append(f.name.as_str());
    let t = &reindeers[tallest];
    let mut tall_text = String::from_str(t.name.as_str());
    tall_text.append(" is standing tall with his ");
    tall_text.append(numfmt::i64_to_string(t.antler_width as i64).as_str());
    tall_text.append(" cm wide antlers");
    let m = &reindeers[magician];
    let mut magic_text = String::from_str(m.name.as_str());
    magic_text.append(" could blast you away with a snow magic power of ");
    magic_text.append(numfmt::i64_to_string(m.snow_magic_power as i64).as_str());
    let c = &reindeers[consumer];
    let mut candy_text = String::from_str(c.name.as_str());
    candy_text.append(" ate lots of candies, but also some ");
    candy_text.append(c.favorite_food.as_str());
    proof {
        assert(fast_text@ =~= fastest_line(reindeers@[fastest as int]));
        assert(tall_text@ =~= tallest_line(reindeers@[tallest as int]));
        assert(magic_text@ =~= magician_line(reindeers@[magician as int]));
        assert(candy_text@ =~= consumer_line(reindeers@[consumer as int]));
    }
    Some(
        ContestResult {
            fastest: fast_text,
            tallest: tall_text,
            magician: magic_text,
            consumer: candy_text,
        },
    )
}

} // verus!
