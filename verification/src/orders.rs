//! The gift-order ledger: totals and popularity reports, computed from
//! plain order and region rows.  Storing and fetching the rows is the
//! database's business and stays outside the library.

use vstd::prelude::*;
use crate::wire;
use crate::text;

verus! {

/// One gift order row.
pub struct Order {
    pub id: i32,
    pub region_id: i32,
    pub gift_name: String,
    pub quantity: i32,
}

/// One region row.
pub struct Region {
    pub id: i32,
    pub name: String,
}

/// A region's summed order quantity.
pub struct OrderPerRegionCount {
    pub region: String,
    pub total: i64,
}

/// A region's most popular gifts, best first.
pub struct Popular {
    pub region: String,
    pub top_gifts: Vec<String>,
}

/// The summed quantity of all orders.
pub open spec fn quantity_sum(orders: Seq<Order>) -> int
    decreases orders.len(),
{
    if orders.len() == 0 {
        0
    } else {
        quantity_sum(orders.drop_last()) + orders.last().quantity
    }
}

/// The total of all orders, as the order-total endpoint reports it.
pub fn total_quantity(orders: &Vec<Order>) -> (r: i64)
    requires
        orders@.len() < 0x1_0000_0000,
    ensures
        r == quantity_sum(orders@),
{
    let mut sum: i64 = 0;
    let mut i: usize = 0;
    while i < orders.len()
        invariant
            i <= orders@.len(),
            orders@.len() < 0x1_0000_0000,
            sum == quantity_sum(orders@.take(i as int)),
            -(i * 0x8000_0000) <= sum <= i * 0x8000_0000,
        decreases orders@.len() - i,
    {
        sum = sum + (orders[i].quantity as i64);
        proof {
            assert(orders@.take(i + 1).drop_last() =~= orders@.take(i as int));
            assert(orders@.take(i + 1).last() == orders@[i as int]);
        }
        i = i + 1;
    }
    proof {
        assert(orders@.take(orders@.len() as int) =~= orders@);
    }
    sum
}

/// The summed quantity of the orders for one gift.
pub open spec fn gift_total(orders: Seq<Order>, gift: Seq<char>) -> int
    decreases orders.len(),
{
    if orders.len() == 0 {
        0
    } else {
        gift_total(orders.drop_last(), gift) + if orders.last().gift_name@ == gift {
            orders.last().quantity as int
        } else {
            0
        }
    }
}

proof fn lemma_gift_total_absent(orders: Seq<Order>, gift: Seq<char>)
    requires
        forall|k: int| 0 <= k < orders.len() ==> (#[trigger] orders[k]).gift_name@ != gift,
    ensures
        gift_total(orders, gift) == 0,
    decreases orders.len(),
{
    if orders.len() > 0 {
        lemma_gift_total_absent(orders.drop_last(), gift);
    }
}

proof fn lemma_gift_total_bound(orders: Seq<Order>, gift: Seq<char>)
    ensures
        -(orders.len() * 0x8000_0000) <= gift_total(orders, gift) <= orders.len() * 0x8000_0000,
    decreases orders.len(),
{
    if orders.len() > 0 {
        lemma_gift_total_bound(orders.drop_last(), gift);
    }
}

/// The summed quantity of the orders for one gift, computed outright.
pub fn gift_total_exec(orders: &Vec<Order>, gift: &str) -> (r: i64)
    requires
        orders@.len() < 0x1_0000_0000,
    ensures
        r == gift_total(orders@, gift@),
{
    let mut sum: i64 = 0;
    let mut i: usize = 0;
    while i < orders.len()
        invariant
            i <= orders@.len(),
            orders@.len() < 0x1_0000_0000,
            sum == gift_total(orders@.take(i as int), gift@),
            -(i * 0x8000_0000) <= sum <= i * 0x8000_0000,
        decreases orders@.len() - i,
    {
        proof {
            assert(orders@.take(i + 1).drop_last() =~= orders@.take(i as int));
            assert(orders@.take(i + 1).last() == orders@[i as int]);
        }
        if wire::str_eq(orders[i].gift_name.as_str(), gift) {
            sum = sum + (orders[i].quantity as i64);
        }
        i = i + 1;
    }
    proof {
        assert(orders@.take(orders@.len() as int) =~= orders@);
    }
    sum
}

/// A gift whose summed quantity no other gift exceeds, or nothing when
/// there are no orders.  A tie between gifts may fall either way.
pub fn popular_gift(orders: &Vec<Order>) -> (r: Option<String>)
    requires
        orders@.len() < 0x1_0000_0000,
    ensures
        r is Some <==> orders@.len() > 0,
        r matches Some(g) ==> (exists|k: int|
            0 <= k < orders@.len() && (#[trigger] orders@[k]).gift_name@ == g@) && (forall|k: int|
            0 <= k < orders@.len() ==> gift_total(orders@, (#[trigger] orders@[k]).gift_name@)
                <= gift_total(orders@, g@)),
{
    if orders.len() == 0 {
        return None;
    }
    let mut best: usize = 0;
    let mut best_total: i64 = gift_total_exec(orders, orders[0].gift_name.as_str());
    let mut k: usize = 1;
    while k < orders.len()
        invariant
            orders@.len() < 0x1_0000_0000,
            1 <= k <= orders@.len() || (orders@.len() == 1 && k == 1),
            best < k,
            best_total == gift_total(orders@, orders@[best as int].gift_name@),
            forall|p: int|
                0 <= p < k ==> gift_total(orders@, (#[trigger] orders@[p]).gift_name@)
                    <= best_total,
        decreases orders@.len() - k,
    {
        let tk = gift_total_exec(orders, orders[k].gift_name.as_str());
        if tk > best_total {
            best = k;
            best_total = tk;
        }
        k = k + 1;
    }
    let g = orders[best].gift_name.clone();
    Some(g)
}

/// The name of the first region row with the given id, if any: with the
/// id a primary key, the join's one matching row.
pub open spec fn region_name(regions: Seq<Region>, id: i32) -> Option<Seq<char>>
    decreases regions.len(),
{
    if regions.len() == 0 {
        None
    } else if regions[0].id == id {
        Some(regions[0].name@)
    } else {
        region_name(regions.drop_first(), id)
    }
}

/// The name of the first region row with the given id, if any.
pub fn region_name_of(regions: &Vec<Region>, id: i32) -> (r: Option<String>)
    ensures
        match r {
            Some(n) => region_name(regions@, id) == Some(n@),
            None => region_name(regions@, id) is None,
        },
{
    let mut i: usize = 0;
    proof {
        assert(regions@.skip(0) =~= regions@);
    }
    while i < regions.len()
        invariant
            i <= regions@.len(),
            region_name(regions@, id) == region_name(regions@.skip(i as int), id),
        decreases regions@.len() - i,
    {
        proof {
            assert(regions@.skip(i as int)[0] == regions@[i as int]);
            assert(regions@.skip(i as int).drop_first() =~= regions@.skip(i + 1));
        }
        if regions[i].id == id {
            return Some(regions[i].name.clone());
        }
        i = i + 1;
    }
    proof {
        assert(regions@.skip(regions@.len() as int) =~= Seq::<Region>::empty());
    }
    None
}

/// The summed quantity of the orders whose region row carries the given
/// name: what the join's GROUP BY yields for that region name.
pub open spec fn region_total(orders: Seq<Order>, regions: Seq<Region>, rname: Seq<char>) -> int
    decreases orders.len(),
{
    if orders.len() == 0 {
        0
    } else {
        region_total(orders.drop_last(), regions, rname) + (
        if region_name(regions, orders.last().region_id) == Some(rname) {
            orders.last().quantity as int
        } else {
            0
        })
    }
}

/// The summed quantity of the orders joined to a region name.
pub fn region_total_exec(orders: &Vec<Order>, regions: &Vec<Region>, rname: &str) -> (r: i64)
    requires
        orders@.len() < 0x1_0000_0000,
    ensures
        r == region_total(orders@, regions@, rname@),
{
    let mut sum: i64 = 0;
    let mut i: usize = 0;
    while i < orders.len()
        invariant
            i <= orders@.len(),
            orders@.len() < 0x1_0000_0000,
            sum == region_total(orders@.take(i as int), regions@, rname@),
            -(i * 0x8000_0000) <= sum <= i * 0x8000_0000,
        decreases orders@.len() - i,
    {
        proof {
            assert(orders@.take(i + 1).drop_last() =~= orders@.take(i as int));
            assert(orders@.take(i + 1).last() == orders@[i as int]);
        }
        match region_name_of(regions, orders[i].region_id) {
            Some(n) => {
                if wire::str_eq(n.as_str(), rname) {
                    sum = sum + (orders[i].quantity as i64);
                }
            },
            None => {},
        }
        i = i + 1;
    }
    proof {
        assert(orders@.take(orders@.len() as int) =~= orders@);
    }
    sum
}

/// The summed quantity of the orders joined to a region name for one
/// gift: what the per-gift GROUP BY yields.
pub open spec fn region_gift_total(
    orders: Seq<Order>,
    regions: Seq<Region>,
    rname: Seq<char>,
    gift: Seq<char>,
) -> int
    decreases orders.len(),
{
    if orders.len() == 0 {
        0
    } else {
        region_gift_total(orders.drop_last(), regions, rname, gift) + (
        if region_name(regions, orders.last().region_id) == Some(rname)
            && orders.last().gift_name@ == gift {
            orders.last().quantity as int
        } else {
            0
        })
    }
}

/// The summed quantity of one gift's orders joined to a region name.
pub fn region_gift_total_exec(
    orders: &Vec<Order>,
    regions: &Vec<Region>,
    rname: &str,
    gift: &str,
) -> (r: i64)
    requires
        orders@.len() < 0x1_0000_0000,
    ensures
        r == region_gift_total(orders@, regions@, rname@, gift@),
{
    let mut sum: i64 = 0;
    let mut i: usize = 0;
    while i < orders.len()
        invariant
            i <= orders@.len(),
            orders@.len() < 0x1_0000_0000,
            sum == region_gift_total(orders@.take(i as int), regions@, rname@, gift@),
            -(i * 0x8000_0000) <= sum <= i * 0x8000_0000,
        decreases orders@.len() - i,
    {
        proof {
            assert(orders@.take(i + 1).drop_last() =~= orders@.take(i as int));
            assert(orders@.take(i + 1).last() == orders@[i as int]);
        }
        match region_name_of(regions, orders[i].region_id) {
            Some(n) => {
                if wire::str_eq(n.as_str(), rname) && wire::str_eq(
                    orders[i].gift_name.as_str(),
                    gift,
                ) {
                    sum = sum + (orders[i].quantity as i64);
                }
            },
            None => {},
        }
        i = i + 1;
    }
    proof {
        assert(orders@.take(orders@.len() as int) =~= orders@);
    }
    sum
}


/// A region name that at least one order is joined to.
pub open spec fn joined(orders: Seq<Order>, regions: Seq<Region>, name: Seq<char>) -> bool {
    exists|k: int|
        0 <= k < orders.len() && region_name(regions, (#[trigger] orders[k]).region_id) == Some(
            name,
        )
}

/// The per-region totals report: every region name some order is joined
/// to, with its summed quantity, sorted by name.
#[verifier::rlimit(60)]
pub fn region_report(orders: &Vec<Order>, regions: &Vec<Region>) -> (r: Vec<OrderPerRegionCount>)
    requires
        orders@.len() < 0x1_0000_0000,
    ensures
        forall|p: int, q: int|
            0 <= p < q < r@.len() ==> text::lex_lt(
                (#[trigger] r@[p]).region@,
                (#[trigger] r@[q]).region@,
            ),
        forall|p: int|
            0 <= p < r@.len() ==> joined(orders@, regions@, (#[trigger] r@[p]).region@)
                && r@[p].total == region_total(orders@, regions@, r@[p].region@),
        forall|name: Seq<char>| #[trigger]
            joined(orders@, regions@, name) ==> exists|p: int|
                0 <= p < r@.len() && (#[trigger] r@[p]).region@ == name,
{
    let mut out: Vec<OrderPerRegionCount> = Vec::new();
    let mut k: usize = 0;
    while k < orders.len()
        invariant
            orders@.len() < 0x1_0000_0000,
            k <= orders@.len(),
            forall|p: int, q: int|
                0 <= p < q < out@.len() ==> text::lex_lt(
                    (#[trigger] out@[p]).region@,
                    (#[trigger] out@[q]).region@,
                ),
            forall|p: int|
                0 <= p < out@.len() ==> joined(orders@, regions@, (#[trigger] out@[p]).region@)
                    && out@[p].total == region_total(orders@, regions@, out@[p].region@),
            forall|name: Seq<char>| #[trigger]
                joined(orders@.take(k as int), regions@, name) ==> exists|p: int|
                    0 <= p < out@.len() && (#[trigger] out@[p]).region@ == name,
        decreases orders@.len() - k,
    {
        let ghost prefix = orders@.take(k as int);
        proof {
            assert(orders@.take(k + 1).drop_last() =~= prefix);
            assert(orders@.take(k + 1).last() == orders@[k as int]);
        }
        match region_name_of(regions, orders[k].region_id) {
            None => {
                proof {
                    assert forall|name: Seq<char>| #[trigger]
                        joined(orders@.take(k + 1), regions@, name) implies exists|p: int|
                        0 <= p < out@.len() && (#[trigger] out@[p]).region@ == name by {
                        let w = choose|w: int|
                            0 <= w < orders@.take(k + 1).len() && region_name(
                                regions@,
                                (#[trigger] orders@.take(k + 1)[w]).region_id,
                            ) == Some(name);
                        assert(w < k);
                        assert(prefix[w] == orders@[w]);
                        assert(joined(prefix, regions@, name));
                    }
                }
            },
            Some(name) => {
                let ghost namev = name@;
                proof {
                    assert(joined(orders@, regions@, namev)) by {
                        assert(region_name(regions@, orders@[k as int].region_id) == Some(namev));
                    }
                }
                let mut present = false;
                let mut s: usize = 0;
                while s < out.len() && !present
                    invariant
                        s <= out@.len(),
                        present ==> exists|p: int|
                            0 <= p < out@.len() && (#[trigger] out@[p]).region@ == namev,
                        !present ==> forall|p: int|
                            0 <= p < s ==> (#[trigger] out@[p]).region@ != namev,
                        namev == name@,
                    decreases out@.len() - s,
                {
                    if wire::str_eq(out[s].region.as_str(), name.as_str()) {
                        present = true;
                    }
                    s = s + 1;
                }
                if !present {
                    let total = region_total_exec(orders, regions, name.as_str());
                    let mut pos: usize = 0;
                    while pos < out.len() && text::str_lt(out[pos].region.as_str(), name.as_str())
                        invariant
                            pos <= out@.len(),
                            namev == name@,
                            forall|q: int|
                                0 <= q < pos ==> text::lex_lt(
                                    (#[trigger] out@[q]).region@,
                                    namev,
                                ),
                        decreases out@.len() - pos,
                    {
                        pos = pos + 1;
                    }
                    let ghost before = out@;
                    let entry = OrderPerRegionCount { region: name, total };
                    let ghost ent = entry;
                    out.insert(pos, entry);
                    proof {
                        assert(ent.region@ == namev);
                        assert(out@ == before.insert(pos as int, ent));
                        assert forall|j: int| 0 <= j < pos implies out@[j] == before[j] by {}
                        assert(out@[pos as int] == ent);
                        assert forall|j: int|
                            pos < j < out@.len() implies out@[j] == before[j - 1] by {}
                        if pos < before.len() {
                            assert(before[pos as int].region@ != namev);
                            text::lemma_lex_connected(namev, before[pos as int].region@);
                            assert(text::lex_lt(namev, before[pos as int].region@));
                        }
                        assert forall|p: int, q: int|
                            0 <= p < q < out@.len() implies text::lex_lt(
                            (#[trigger] out@[p]).region@,
                            (#[trigger] out@[q]).region@,
                        ) by {
                            if q < pos {
                            } else if p < pos && q == pos {
                            } else if p < pos && q > pos {
                            } else if p == pos && q > pos {
                                if q - 1 > pos as int - 1 && q - 1 >= pos {
                                    if q - 1 == pos {
                                    } else {
                                        text::lemma_lex_trans(
                                            namev,
                                            before[pos as int].region@,
                                            before[q - 1].region@,
                                        );
                                    }
                                }
                            } else {
                            }
                        }
                        assert forall|name2: Seq<char>| #[trigger]
                            joined(orders@.take(k + 1), regions@, name2) implies exists|p: int|
                            0 <= p < out@.len() && (#[trigger] out@[p]).region@ == name2 by {
                            if name2 == namev {
                                assert(out@[pos as int].region@ == name2);
                            } else {
                                let w = choose|w: int|
                                    0 <= w < orders@.take(k + 1).len() && region_name(
                                        regions@,
                                        (#[trigger] orders@.take(k + 1)[w]).region_id,
                                    ) == Some(name2);
                                assert(w < k || name2 == namev);
                                assert(prefix[w] == orders@[w]);
                                assert(joined(prefix, regions@, name2));
                                let pp = choose|pp: int|
                                    0 <= pp < before.len() && (#[trigger] before[pp]).region@
                                        == name2;
                                if pp < pos {
                                    assert(out@[pp].region@ == name2);
                                } else {
                                    assert(out@[pp + 1].region@ == name2);
                                }
                            }
                        }
                    }
                } else {
                    proof {
                        assert forall|name2: Seq<char>| #[trigger]
                            joined(orders@.take(k + 1), regions@, name2) implies exists|p: int|
                            0 <= p < out@.len() && (#[trigger] out@[p]).region@ == name2 by {
                            if name2 != namev {
                                let w = choose|w: int|
                                    0 <= w < orders@.take(k + 1).len() && region_name(
                                        regions@,
                                        (#[trigger] orders@.take(k + 1)[w]).region_id,
                                    ) == Some(name2);
                                assert(w < k || name2 == namev);
                                assert(prefix[w] == orders@[w]);
                                assert(joined(prefix, regions@, name2));
                            }
                        }
                    }
                }
            },
        }
        k = k + 1;
    }
    proof {
        assert(orders@.take(orders@.len() as int) =~= orders@);
    }
    out
}


/// The ranking the popularity report uses: a greater total first, ties
/// by name.
pub open spec fn rank_before(a: (Seq<char>, int), b: (Seq<char>, int)) -> bool {
    a.1 > b.1 || (a.1 == b.1 && text::lex_lt(a.0, b.0))
}

/// Two entries with distinct names are ranked one way or the other.
pub proof fn lemma_rank_connected(a: (Seq<char>, int), b: (Seq<char>, int))
    requires
        a.0 != b.0,
    ensures
        rank_before(a, b) || rank_before(b, a),
{
    if a.1 == b.1 {
        text::lemma_lex_connected(a.0, b.0);
    }
}

/// The ranking is transitive.
pub proof fn lemma_rank_trans(a: (Seq<char>, int), b: (Seq<char>, int), c: (Seq<char>, int))
    requires
        rank_before(a, b),
        rank_before(b, c),
    ensures
        rank_before(a, c),
{
    if a.1 == b.1 && b.1 == c.1 {
        text::lemma_lex_trans(a.0, b.0, c.0);
    }
}

/// A gift name that some order for the region carries.
pub open spec fn joined_gift(
    orders: Seq<Order>,
    regions: Seq<Region>,
    rname: Seq<char>,
    gift: Seq<char>,
) -> bool {
    exists|k: int|
        0 <= k < orders.len() && (#[trigger] orders[k]).gift_name@ == gift && region_name(
            regions,
            orders[k].region_id,
        ) == Some(rname)
}

/// The ranked gift list of one region: every gift name joined to the
/// region, with its summed quantity, best rank first.
#[verifier::rlimit(60)]
pub fn region_gifts(orders: &Vec<Order>, regions: &Vec<Region>, rname: &str) -> (r: Vec<(
    String,
    i64,
)>)
    requires
        orders@.len() < 0x1_0000_0000,
    ensures
        forall|p: int, q: int|
            0 <= p < q < r@.len() ==> rank_before(
                ((#[trigger] r@[p]).0@, r@[p].1 as int),
                ((#[trigger] r@[q]).0@, r@[q].1 as int),
            ),
        forall|p: int|
            0 <= p < r@.len() ==> joined_gift(orders@, regions@, rname@, (#[trigger] r@[p]).0@)
                && r@[p].1 == region_gift_total(orders@, regions@, rname@, r@[p].0@),
        forall|gift: Seq<char>| #[trigger]
            joined_gift(orders@, regions@, rname@, gift) ==> exists|p: int|
                0 <= p < r@.len() && (#[trigger] r@[p]).0@ == gift,
{
    let mut out: Vec<(String, i64)> = Vec::new();
    let mut k: usize = 0;
    while k < orders.len()
        invariant
            orders@.len() < 0x1_0000_0000,
            k <= orders@.len(),
            forall|p: int, q: int|
                0 <= p < q < out@.len() ==> rank_before(
                    ((#[trigger] out@[p]).0@, out@[p].1 as int),
                    ((#[trigger] out@[q]).0@, out@[q].1 as int),
                ),
            forall|p: int|
                0 <= p < out@.len() ==> joined_gift(
                    orders@,
                    regions@,
                    rname@,
                    (#[trigger] out@[p]).0@,
                ) && out@[p].1 == region_gift_total(orders@, regions@, rname@, out@[p].0@),
            forall|gift: Seq<char>| #[trigger]
                joined_gift(orders@.take(k as int), regions@, rname@, gift) ==> exists|p: int|
                    0 <= p < out@.len() && (#[trigger] out@[p]).0@ == gift,
        decreases orders@.len() - k,
    {
        let ghost prefix = orders@.take(k as int);
        proof {
            assert(orders@.take(k + 1).drop_last() =~= prefix);
            assert(orders@.take(k + 1).last() == orders@[k as int]);
        }
        let gift = orders[k].gift_name.clone();
        let ghost giftv = gift@;
        let belongs = match region_name_of(regions, orders[k].region_id) {
            Some(n) => wire::str_eq(n.as_str(), rname),
            None => false,
        };
        let mut present = false;
        let mut s: usize = 0;
        while s < out.len() && !present
            invariant
                s <= out@.len(),
                present ==> exists|p: int| 0 <= p < out@.len() && (#[trigger] out@[p]).0@ == giftv,
                !present ==> forall|p: int| 0 <= p < s ==> (#[trigger] out@[p]).0@ != giftv,
                giftv == gift@,
            decreases out@.len() - s,
        {
            if wire::str_eq(out[s].0.as_str(), gift.as_str()) {
                present = true;
            }
            s = s + 1;
        }
        if belongs && !present {
            proof {
                assert(joined_gift(orders@, regions@, rname@, giftv)) by {
                    assert((#[trigger] orders@[k as int]).gift_name@ == giftv && region_name(
                        regions@,
                        orders@[k as int].region_id,
                    ) == Some(rname@));
                }
            }
            let total = region_gift_total_exec(orders, regions, rname, gift.as_str());
            let mut pos: usize = 0;
            while pos < out.len() && (out[pos].1 > total || (out[pos].1 == total && text::str_lt(
                out[pos].0.as_str(),
                gift.as_str(),
            )))
                invariant
                    pos <= out@.len(),
                    giftv == gift@,
                    total == region_gift_total(orders@, regions@, rname@, giftv),
                    forall|q: int|
                        0 <= q < pos ==> rank_before(
                            ((#[trigger] out@[q]).0@, out@[q].1 as int),
                            (giftv, total as int),
                        ),
                decreases out@.len() - pos,
            {
                pos = pos + 1;
            }
            let ghost before = out@;
            let entry = (gift, total);
            let ghost ent = entry;
            out.insert(pos, entry);
            proof {
                assert(ent.0@ == giftv);
                assert(out@ == before.insert(pos as int, ent));
                assert forall|j: int| 0 <= j < pos implies out@[j] == before[j] by {}
                assert(out@[pos as int] == ent);
                assert forall|j: int| pos < j < out@.len() implies out@[j] == before[j - 1] by {}
                if pos < before.len() {
                    assert(before[pos as int].0@ != giftv);
                    lemma_rank_connected(
                        (giftv, total as int),
                        (before[pos as int].0@, before[pos as int].1 as int),
                    );
                    assert(rank_before(
                        (giftv, total as int),
                        (before[pos as int].0@, before[pos as int].1 as int),
                    ));
                }
                assert forall|p: int, q: int|
                    0 <= p < q < out@.len() implies rank_before(
                    ((#[trigger] out@[p]).0@, out@[p].1 as int),
                    ((#[trigger] out@[q]).0@, out@[q].1 as int),
                ) by {
                    if p == pos && q > pos {
                        if q - 1 > pos {
                            lemma_rank_trans(
                                (giftv, total as int),
                                (before[pos as int].0@, before[pos as int].1 as int),
                                (before[q - 1].0@, before[q - 1].1 as int),
                            );
                        }
                    }
                }
                assert forall|g2: Seq<char>| #[trigger]
                    joined_gift(orders@.take(k + 1), regions@, rname@, g2) implies exists|p: int|
                    0 <= p < out@.len() && (#[trigger] out@[p]).0@ == g2 by {
                    if g2 == giftv {
                        assert(out@[pos as int].0@ == g2);
                    } else {
                        let w = choose|w: int|
                            0 <= w < orders@.take(k + 1).len() && (#[trigger] orders@.take(
                                k + 1,
                            )[w]).gift_name@ == g2 && region_name(
                                regions@,
                                orders@.take(k + 1)[w].region_id,
                            ) == Some(rname@);
                        assert(w < k);
                        assert(prefix[w] == orders@[w]);
                        assert(joined_gift(prefix, regions@, rname@, g2));
                        let pp = choose|pp: int|
                            0 <= pp < before.len() && (#[trigger] before[pp]).0@ == g2;
                        if pp < pos {
                            assert(out@[pp].0@ == g2);
                        } else {
                            assert(out@[pp + 1].0@ == g2);
                        }
                    }
                }
            }
        } else {
            proof {
                assert forall|g2: Seq<char>| #[trigger]
                    joined_gift(orders@.take(k + 1), regions@, rname@, g2) implies exists|p: int|
                    0 <= p < out@.len() && (#[trigger] out@[p]).0@ == g2 by {
                    let w = choose|w: int|
                        0 <= w < orders@.take(k + 1).len() && (#[trigger] orders@.take(
                            k + 1,
                        )[w]).gift_name@ == g2 && region_name(
                            regions@,
                            orders@.take(k + 1)[w].region_id,
                        ) == Some(rname@);
                    if w < k {
                        assert(prefix[w] == orders@[w]);
                        assert(joined_gift(prefix, regions@, rname@, g2));
                    } else {
                        assert(g2 == giftv);
                        assert(region_name(regions@, orders@[k as int].region_id) == Some(rname@));
                        assert(belongs);
                        assert(present);
                    }
                }
            }
        }
        k = k + 1;
    }
    proof {
        assert(orders@.take(orders@.len() as int) =~= orders@);
    }
    out
}


/// Some region row carries this name.
pub open spec fn region_row_named(regions: Seq<Region>, name: Seq<char>) -> bool {
    exists|w: int| 0 <= w < regions.len() && (#[trigger] regions[w]).name@ == name
}

/// The name stands somewhere in the list.
pub open spec fn name_listed(names: Seq<String>, name: Seq<char>) -> bool {
    exists|p: int| 0 <= p < names.len() && (#[trigger] names[p])@ == name
}

/// The distinct names of the region rows, sorted.
#[verifier::rlimit(60)]
pub fn region_names_sorted(regions: &Vec<Region>) -> (r: Vec<String>)
    ensures
        forall|p: int, q: int|
            0 <= p < q < r@.len() ==> text::lex_lt((#[trigger] r@[p])@, (#[trigger] r@[q])@),
        forall|p: int| 0 <= p < r@.len() ==> region_row_named(regions@, (#[trigger] r@[p])@),
        forall|w: int|
            0 <= w < regions@.len() ==> name_listed(r@, (#[trigger] regions@[w]).name@),
{
    let mut out: Vec<String> = Vec::new();
    let mut k: usize = 0;
    while k < regions.len()
        invariant
            k <= regions@.len(),
            forall|p: int, q: int|
                0 <= p < q < out@.len() ==> text::lex_lt(
                    (#[trigger] out@[p])@,
                    (#[trigger] out@[q])@,
                ),
            forall|p: int|
                0 <= p < out@.len() ==> region_row_named(regions@, (#[trigger] out@[p])@),
            forall|w: int| 0 <= w < k ==> name_listed(out@, (#[trigger] regions@[w]).name@),
        decreases regions@.len() - k,
    {
        let name = regions[k].name.clone();
        let ghost namev = name@;
        proof {
            assert(region_row_named(regions@, namev)) by {
                assert((#[trigger] regions@[k as int]).name@ == namev);
            }
        }
        let mut present = false;
        let mut s: usize = 0;
        while s < out.len() && !present
            invariant
                s <= out@.len(),
                present ==> name_listed(out@, namev),
                !present ==> forall|p: int| 0 <= p < s ==> (#[trigger] out@[p])@ != namev,
                namev == name@,
            decreases out@.len() - s,
        {
            if wire::str_eq(out[s].as_str(), name.as_str()) {
                present = true;
            }
            s = s + 1;
        }
        if !present {
            let mut pos: usize = 0;
            while pos < out.len() && text::str_lt(out[pos].as_str(), name.as_str())
                invariant
                    pos <= out@.len(),
                    namev == name@,
                    forall|q: int| 0 <= q < pos ==> text::lex_lt((#[trigger] out@[q])@, namev),
                decreases out@.len() - pos,
            {
                pos = pos + 1;
            }
            let ghost before = out@;
            out.insert(pos, name);
            proof {
                assert(out@ == before.insert(pos as int, out@[pos as int]));
                assert(out@[pos as int]@ == namev);
                assert forall|j: int| 0 <= j < pos implies out@[j] == before[j] by {}
                assert forall|j: int| pos < j < out@.len() implies out@[j] == before[j - 1] by {}
                if pos < before.len() {
                    assert(before[pos as int]@ != namev);
                    text::lemma_lex_connected(namev, before[pos as int]@);
                }
                assert forall|p: int, q: int|
                    0 <= p < q < out@.len() implies text::lex_lt(
                    (#[trigger] out@[p])@,
                    (#[trigger] out@[q])@,
                ) by {
                    if p == pos && q > pos {
                        if q - 1 > pos {
                            text::lemma_lex_trans(namev, before[pos as int]@, before[q - 1]@);
                        }
                    }
                }
                assert forall|p: int|
                    0 <= p < out@.len() implies region_row_named(
                    regions@,
                    (#[trigger] out@[p])@,
                ) by {
                    if p < pos {
                        assert(out@[p] == before[p]);
                    } else if p > pos {
                        assert(out@[p] == before[p - 1]);
                    }
                }
                assert forall|w: int|
                    0 <= w < k + 1 implies name_listed(
                    out@,
                    (#[trigger] regions@[w]).name@,
                ) by {
                    if w == k {
                        assert((#[trigger] out@[pos as int])@ == regions@[k as int].name@);
                    } else {
                        let pp = choose|pp: int|
                            0 <= pp < before.len() && (#[trigger] before[pp])@
                                == regions@[w].name@;
                        if pp < pos {
                            assert((#[trigger] out@[pp])@ == regions@[w].name@);
                        } else {
                            assert((#[trigger] out@[pp + 1])@ == regions@[w].name@);
                        }
                    }
                }
            }
        } else {
            proof {
                assert forall|w: int|
                    0 <= w < k + 1 implies name_listed(
                    out@,
                    (#[trigger] regions@[w]).name@,
                ) by {}
            }
        }
        k = k + 1;
    }
    out
}

/// The quantity the popularity ranking weighs a gift with.
pub open spec fn gift_weight(
    orders: Seq<Order>,
    regions: Seq<Region>,
    rn: Seq<char>,
    g: Seq<char>,
) -> (Seq<char>, int) {
    (g, region_gift_total(orders, regions, rn, g))
}

/// What a region's listed top gifts must satisfy: at most `max` names,
/// each joined to the region, in rank order; all joined gifts when the
/// list is not full; and no unlisted joined gift ranking better than a
/// listed one.
pub open spec fn top_gifts_ok(
    orders: Seq<Order>,
    regions: Seq<Region>,
    rn: Seq<char>,
    max: int,
    gs: Seq<Seq<char>>,
) -> bool {
    &&& gs.len() <= max
    &&& forall|i: int, j: int|
        0 <= i < j < gs.len() ==> rank_before(
            gift_weight(orders, regions, rn, #[trigger] gs[i]),
            gift_weight(orders, regions, rn, #[trigger] gs[j]),
        )
    &&& forall|i: int| 0 <= i < gs.len() ==> joined_gift(orders, regions, rn, #[trigger] gs[i])
    &&& (gs.len() < max ==> forall|g: Seq<char>| #[trigger]
        joined_gift(orders, regions, rn, g) ==> gs.contains(g))
    &&& forall|g: Seq<char>| #[trigger]
        joined_gift(orders, regions, rn, g) && !gs.contains(g) ==> forall|i: int|
            0 <= i < gs.len() ==> rank_before(
                gift_weight(orders, regions, rn, #[trigger] gs[i]),
                gift_weight(orders, regions, rn, g),
            )
}

/// The popularity report: every region name of the rows, sorted, each
/// with its `max` best-ranked joined gifts.
#[verifier::rlimit(60)]
pub fn popular_report(orders: &Vec<Order>, regions: &Vec<Region>, max: usize) -> (r: Vec<Popular>)
    requires
        orders@.len() < 0x1_0000_0000,
    ensures
        forall|p: int, q: int|
            0 <= p < q < r@.len() ==> text::lex_lt(
                (#[trigger] r@[p]).region@,
                (#[trigger] r@[q]).region@,
            ),
        forall|p: int|
            0 <= p < r@.len() ==> region_row_named(regions@, (#[trigger] r@[p]).region@),
        forall|w: int|
            0 <= w < regions@.len() ==> name_listed(
                r@.map_values(|e: Popular| e.region),
                (#[trigger] regions@[w]).name@,
            ),
        forall|p: int|
            0 <= p < r@.len() ==> top_gifts_ok(
                orders@,
                regions@,
                (#[trigger] r@[p]).region@,
                max as int,
                r@[p].top_gifts@.map_values(|s: String| s@),
            ),
{
    let names = region_names_sorted(regions);
    let mut out: Vec<Popular> = Vec::new();
    let mut i: usize = 0;
    while i < names.len()
        invariant
            orders@.len() < 0x1_0000_0000,
            i <= names@.len(),
            out@.len() == i,
            forall|p: int, q: int|
                0 <= p < q < names@.len() ==> text::lex_lt(
                    (#[trigger] names@[p])@,
                    (#[trigger] names@[q])@,
                ),
            forall|p: int|
                0 <= p < names@.len() ==> region_row_named(regions@, (#[trigger] names@[p])@),
            forall|w: int|
                0 <= w < regions@.len() ==> name_listed(names@, (#[trigger] regions@[w]).name@),
            forall|p: int| 0 <= p < i ==> (#[trigger] out@[p]).region@ == names@[p]@,
            forall|p: int|
                0 <= p < i ==> top_gifts_ok(
                    orders@,
                    regions@,
                    (#[trigger] out@[p]).region@,
                    max as int,
                    out@[p].top_gifts@.map_values(|s: String| s@),
                ),
        decreases names@.len() - i,
    {
        let rname = names[i].clone();
        let gifts = region_gifts(orders, regions, rname.as_str());
        let ghost full = gifts@;
        let cut = if max > gifts.len() {
            gifts.len()
        } else {
            max
        };
        let mut top: Vec<String> = Vec::new();
        let mut j: usize = 0;
        while j < cut
            invariant
                j <= cut <= gifts@.len(),
                gifts@ == full,
                top@.len() == j,
                forall|t: int| 0 <= t < j ==> (#[trigger] top@[t])@ == full[t].0@,
            decreases cut - j,
        {
            top.push(gifts[j].0.clone());
            j = j + 1;
        }
        proof {
            let rn = rname@;
            let gs = top@.map_values(|s: String| s@);
            assert(gs.len() == cut);
            assert forall|t: int| 0 <= t < cut implies (#[trigger] gs[t]) == full[t].0@ by {}
            assert forall|g: Seq<char>| gs.contains(g) implies exists|t: int|
                0 <= t < cut && full[t].0@ == g by {
                let t = choose|t: int| 0 <= t < gs.len() && gs[t] == g;
                assert(full[t].0@ == g);
            }
            assert forall|ii: int, jj: int|
                0 <= ii < jj < gs.len() implies rank_before(
                gift_weight(orders@, regions@, rn, #[trigger] gs[ii]),
                gift_weight(orders@, regions@, rn, #[trigger] gs[jj]),
            ) by {
                assert(gs[ii] == full[ii].0@ && gs[jj] == full[jj].0@);
                assert(full[ii].1 == region_gift_total(orders@, regions@, rn, full[ii].0@));
                assert(full[jj].1 == region_gift_total(orders@, regions@, rn, full[jj].0@));
            }
            assert forall|g: Seq<char>| #[trigger]
                joined_gift(orders@, regions@, rn, g) && !gs.contains(g) implies forall|t: int|
                0 <= t < gs.len() ==> rank_before(
                    gift_weight(orders@, regions@, rn, #[trigger] gs[t]),
                    gift_weight(orders@, regions@, rn, g),
                ) by {
                let q = choose|q: int| 0 <= q < full.len() && (#[trigger] full[q]).0@ == g;
                assert(q >= cut) by {
                    if q < cut {
                        assert(gs[q] == g);
                        assert(gs.contains(g));
                    }
                }
                assert forall|t: int|
                    0 <= t < gs.len() implies rank_before(
                    gift_weight(orders@, regions@, rn, #[trigger] gs[t]),
                    gift_weight(orders@, regions@, rn, g),
                ) by {
                    assert(gs[t] == full[t].0@);
                    assert(rank_before(
                        (full[t].0@, full[t].1 as int),
                        (full[q].0@, full[q].1 as int),
                    ));
                    assert(full[t].1 == region_gift_total(orders@, regions@, rn, full[t].0@));
                    assert(full[q].1 == region_gift_total(orders@, regions@, rn, g));
                }
            }
            if cut < max {
                assert(cut == full.len());
                assert forall|g: Seq<char>| #[trigger]
                    joined_gift(orders@, regions@, rn, g) implies gs.contains(g) by {
                    let q = choose|q: int| 0 <= q < full.len() && (#[trigger] full[q]).0@ == g;
                    assert(gs[q] == g);
                }
            }
            assert(top_gifts_ok(orders@, regions@, rn, max as int, gs));
        }
        out.push(Popular { region: rname, top_gifts: top });
        i = i + 1;
    }
    proof {
        assert forall|w: int|
            0 <= w < regions@.len() implies name_listed(
            out@.map_values(|e: Popular| e.region),
            (#[trigger] regions@[w]).name@,
        ) by {
            let pp = choose|pp: int|
                0 <= pp < names@.len() && (#[trigger] names@[pp])@ == regions@[w].name@;
            assert((#[trigger] out@.map_values(|e: Popular| e.region)[pp])@
                == regions@[w].name@);
        }
    }
    out
}

} // verus!
