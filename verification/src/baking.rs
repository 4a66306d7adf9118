//! The cookie recipe endpoints: decoding the recipe cookie and running
//! the bake simulation.

use vstd::prelude::*;
use crate::wire;
use lib_base64::Base64;

verus! {

/// What the base64 decoder yields for a string: the result depends on
/// the characters alone.
pub uninterp spec fn b64_decoded(s: Seq<char>) -> Option<Seq<char>>;

/// Relies on `lib_base64::Base64::decode` for `String`: decodes the
/// base64 text to a string, or fails.  The decoder indexes the input by
/// bytes while walking it by characters, so only ASCII input is handed
/// to it.
#[verifier::external_body]
fn b64_decode(s: &String) -> (r: Option<String>)
    requires
        vstd::string::string_is_ascii(s),
    ensures
        match r {
            Some(t) => b64_decoded(s@) == Some(t@),
            None => b64_decoded(s@) is None,
        },
{
    s.decode().ok()
}

/// Decodes a base64 cookie value.  Input that is not ASCII cannot be
/// base64 and is rejected outright.
pub fn decode_cookie(s: &String) -> (r: Option<String>)
    ensures
        match r {
            Some(t) => s.is_ascii() && b64_decoded(s@) == Some(t@),
            None => !vstd::string::string_is_ascii(s) || b64_decoded(s@) is None,
        },
{
    if !s.is_ascii() {
        return None;
    }
    b64_decode(s)
}

/// Index of the first entry with the given key, or -1 if there is none.
spec fn key_find(entries: Seq<(String, i64)>, key: Seq<char>) -> int
    decreases entries.len(),
{
    if entries.len() == 0 {
        -1
    } else if entries[0].0@ == key {
        0
    } else {
        let r = key_find(entries.drop_first(), key);
        if r < 0 {
            -1
        } else {
            r + 1
        }
    }
}

/// The amount stored under a key, if the key is present.
pub closed spec fn amount_at(entries: Seq<(String, i64)>, key: Seq<char>) -> Option<i64> {
    if key_find(entries, key) >= 0 {
        Some(entries[key_find(entries, key)].1)
    } else {
        None
    }
}

proof fn lemma_key_find_props(entries: Seq<(String, i64)>, key: Seq<char>)
    ensures
        key_find(entries, key) == -1 ==> forall|k: int|
            0 <= k < entries.len() ==> (#[trigger] entries[k]).0@ != key,
        key_find(entries, key) != -1 ==> {
            let r = key_find(entries, key);
            &&& 0 <= r < entries.len()
            &&& entries[r].0@ == key
        },
    decreases entries.len(),
{
    if entries.len() > 0 && entries[0].0@ != key {
        let tail = entries.drop_first();
        lemma_key_find_props(tail, key);
        if key_find(entries, key) == -1 {
            assert forall|k: int| 0 <= k < entries.len() implies (#[trigger] entries[k]).0@
                != key by {
                if k > 0 {
                    assert(tail[k - 1] == entries[k]);
                }
            }
        } else {
            assert(tail[key_find(entries, key) - 1] == entries[key_find(entries, key)]);
        }
    }
}

proof fn lemma_key_find_at(entries: Seq<(String, i64)>, key: Seq<char>, i: int)
    requires
        0 <= i < entries.len(),
        entries[i].0@ == key,
        forall|k: int| 0 <= k < i ==> (#[trigger] entries[k]).0@ != key,
    ensures
        key_find(entries, key) == i,
    decreases i,
{
    if i > 0 {
        let tail = entries.drop_first();
        assert(tail[i - 1] == entries[i]);
        assert forall|k: int| 0 <= k < i - 1 implies (#[trigger] tail[k]).0@ != key by {
            assert(tail[k] == entries[k + 1]);
        }
        lemma_key_find_at(tail, key, i - 1);
    }
}

proof fn lemma_key_find_same_keys(a: Seq<(String, i64)>, b: Seq<(String, i64)>, key: Seq<char>)
    requires
        a.len() == b.len(),
        forall|p: int| 0 <= p < a.len() ==> (#[trigger] a[p]).0@ == b[p].0@,
    ensures
        key_find(a, key) == key_find(b, key),
    decreases a.len(),
{
    if a.len() > 0 && a[0].0@ != key {
        let ta = a.drop_first();
        let tb = b.drop_first();
        assert forall|p: int| 0 <= p < ta.len() implies (#[trigger] ta[p]).0@ == tb[p].0@ by {
            assert(ta[p] == a[p + 1]);
            assert(tb[p] == b[p + 1]);
        }
        lemma_key_find_same_keys(ta, tb, key);
    }
}

/// The pantry and the recipe of one bake request.
pub struct BakeData {
    recipe: Vec<(String, i64)>,
    pantry: Vec<(String, i64)>,
}

/// The outcome of a bake: how many cookies, and what the pantry holds
/// afterwards.
pub struct BakeResult {
    pub cookies: i64,
    pub pantry: Vec<(String, i64)>,
}

impl BakeData {
    /// The recipe entries, in order.
    pub closed spec fn recipe_view(self) -> Seq<(Seq<char>, int)> {
        self.recipe@.map_values(|e: (String, i64)| (e.0@, e.1 as int))
    }

    /// The amount of an ingredient on the pantry shelf.
    pub closed spec fn pantry_at(self, key: Seq<char>) -> Option<i64> {
        amount_at(self.pantry@, key)
    }

    /// The pantry entries, in order.
    pub closed spec fn pantry_view(self) -> Seq<(String, i64)> {
        self.pantry@
    }

    /// Distinct keys on both lists: what parsing a JSON object yields.
    pub closed spec fn wf(self) -> bool {
        &&& forall|p: int, q: int|
            0 <= p < q < self.recipe@.len() ==> (#[trigger] self.recipe@[p]).0@ != (
            #[trigger] self.recipe@[q]).0@
        &&& forall|p: int, q: int|
            0 <= p < q < self.pantry@.len() ==> (#[trigger] self.pantry@[p]).0@ != (
            #[trigger] self.pantry@[q]).0@
    }

    /// Builds a bake request from parsed recipe and pantry entries.
    /// A later entry for the same key replaces an earlier one, as parsing
    /// a JSON object does.
    pub fn new(recipe: Vec<(String, i64)>, pantry: Vec<(String, i64)>) -> (b: BakeData)
        ensures
            b.wf(),
    {
        BakeData { recipe: dedup_keys(recipe), pantry: dedup_keys(pantry) }
    }

    /// Index of the pantry entry with the given key.
    fn pantry_find(&self, key: &str) -> (r: Option<usize>)
        ensures
            match r {
                Some(ix) => ix as int == key_find(self.pantry@, key@) && ix < self.pantry@.len(),
                None => key_find(self.pantry@, key@) == -1,
            },
    {
        let mut i: usize = 0;
        while i < self.pantry.len()
            invariant
                i <= self.pantry@.len(),
                forall|k: int| 0 <= k < i ==> (#[trigger] self.pantry@[k]).0@ != key@,
            decreases self.pantry@.len() - i,
        {
            if wire::str_eq(self.pantry[i].0.as_str(), key) {
                proof {
                    lemma_key_find_at(self.pantry@, key@, i as int);
                }
                return Some(i);
            }
            i = i + 1;
        }
        proof {
            lemma_key_find_none(self.pantry@, key@);
        }
        None
    }

    /// The amount of an ingredient on the shelf.
    pub fn pantry_amount(&self, key: &str) -> (r: Option<i64>)
        ensures
            r == self.pantry_at(key@),
    {
        proof {
            lemma_key_find_props(self.pantry@, key@);
        }
        match self.pantry_find(key) {
            Some(ix) => Some(self.pantry[ix].1),
            None => None,
        }
    }

    /// Whether every recipe ingredient is on the shelf in at least its
    /// required amount; if so, one batch is taken from the shelf.  A
    /// negative amount passes the check whenever the ingredient is on the
    /// shelf at all, and taking the batch then grows that shelf entry.
    pub fn ingredients_available(&mut self) -> (r: bool)
        requires
            old(self).wf(),
            batch_fits(old(self).recipe_view(), *old(self)),
        ensures
            final(self).wf(),
            final(self).recipe_view() == old(self).recipe_view(),
            r == can_bake(old(self).recipe_view(), *old(self)),
            r ==> forall|k: int|
                0 <= k < old(self).recipe_view().len() ==> #[trigger] final(self).pantry_at(
                    old(self).recipe_view()[k].0,
                ) == Some(
                    (old(self).pantry_at(old(self).recipe_view()[k].0)->0 - old(self).recipe_view()[k].1) as i64,
                ),
            r ==> forall|key: Seq<char>|
                (forall|k: int|
                    0 <= k < old(self).recipe_view().len() ==> (
                    #[trigger] old(self).recipe_view()[k]).0 != key) ==> #[trigger] final(self).pantry_at(key) == old(self).pantry_at(key),
            !r ==> forall|key: Seq<char>| #[trigger]
                final(self).pantry_at(key) == old(self).pantry_at(key),
    {
        let ghost old_self = *old(self);
        let mut ok = true;
        let mut i: usize = 0;
        while i < self.recipe.len()
            invariant
                *self == old_self,
                i <= self.recipe@.len(),
                ok == forall|k: int|
                    0 <= k < i ==> ingredient_ok(old_self.recipe_view()[k], old_self),
            decreases self.recipe@.len() - i,
        {
            let (name, amount) = (&self.recipe[i].0, self.recipe[i].1);
            let ghost prev_ok = ok;
            match self.pantry_find(name.as_str()) {
                Some(ix) => {
                    if self.pantry[ix].1 < amount {
                        ok = false;
                    }
                },
                None => {
                    ok = false;
                },
            }
            proof {
                assert(old_self.recipe_view()[i as int] == (
                    self.recipe@[i as int].0@,
                    self.recipe@[i as int].1 as int,
                ));
                if ok {
                    assert(ingredient_ok(old_self.recipe_view()[i as int], old_self));
                }
            }
            i = i + 1;
        }
        if !ok {
            return false;
        }
        proof {
            assert(can_bake(old_self.recipe_view(), old_self));
        }
        let mut j: usize = 0;
        while j < self.recipe.len()
            invariant
                old_self.wf(),
                batch_fits(old_self.recipe_view(), old_self),
                can_bake(old_self.recipe_view(), old_self),
                j <= self.recipe@.len(),
                self.recipe@ == old_self.recipe@,
                self.wf(),
                self.pantry@.len() == old_self.pantry@.len(),
                forall|p: int|
                    0 <= p < self.pantry@.len() ==> (#[trigger] self.pantry@[p]).0@
                        == old_self.pantry@[p].0@,
                forall|k: int|
                    0 <= k < j ==> #[trigger] self.pantry_at(old_self.recipe_view()[k].0) == Some(
                        (old_self.pantry_at(old_self.recipe_view()[k].0)->0
                            - old_self.recipe_view()[k].1) as i64,
                    ),
                forall|k: int|
                    j <= k < old_self.recipe_view().len() ==> #[trigger] self.pantry_at(
                        old_self.recipe_view()[k].0,
                    ) == old_self.pantry_at(old_self.recipe_view()[k].0),
                forall|key: Seq<char>|
                    (forall|k: int|
                        0 <= k < old_self.recipe_view().len() ==> (
                        #[trigger] old_self.recipe_view()[k]).0 != key) ==> #[trigger] self.pantry_at(
                        key,
                    ) == old_self.pantry_at(key),
            decreases self.recipe@.len() - j,
        {
            let (name, amount) = (self.recipe[j].0.clone(), self.recipe[j].1);
            let ghost before = self.pantry@;
            let found = self.pantry_find(name.as_str());
            proof {
                assert(old_self.recipe_view()[j as int].0 == name@);
                assert(self.pantry_at(name@) == old_self.pantry_at(name@)) by {
                    assert(forall|k: int|
                        j <= k < old_self.recipe_view().len() ==> #[trigger] self.pantry_at(
                            old_self.recipe_view()[k].0,
                        ) == old_self.pantry_at(old_self.recipe_view()[k].0));
                }
                assert(ingredient_ok(old_self.recipe_view()[j as int], old_self));
                lemma_key_find_props(self.pantry@, name@);
                assert forall|k: int| 0 <= k < j implies #[trigger] amount_at(
                    before,
                    old_self.recipe_view()[k].0,
                ) == Some(
                    (old_self.pantry_at(old_self.recipe_view()[k].0)->0
                        - old_self.recipe_view()[k].1) as i64,
                ) by {
                    assert(self.pantry_at(old_self.recipe_view()[k].0) == amount_at(
                        before,
                        old_self.recipe_view()[k].0,
                    ));
                }
                assert forall|k: int|
                    j <= k < old_self.recipe_view().len() implies #[trigger] amount_at(
                    before,
                    old_self.recipe_view()[k].0,
                ) == old_self.pantry_at(old_self.recipe_view()[k].0) by {
                    assert(self.pantry_at(old_self.recipe_view()[k].0) == amount_at(
                        before,
                        old_self.recipe_view()[k].0,
                    ));
                }
                assert forall|key: Seq<char>|
                    (forall|k: int|
                        0 <= k < old_self.recipe_view().len() ==> (
                        #[trigger] old_self.recipe_view()[k]).0 != key) implies #[trigger] amount_at(
                    before,
                    key,
                ) == old_self.pantry_at(key) by {
                    assert(self.pantry_at(key) == amount_at(before, key));
                }
            }
            let ix = found.unwrap();
            let entry = self.pantry.remove(ix);
            let updated = (entry.0, entry.1 - amount);
            self.pantry.insert(ix, updated);
            proof {
                let news = self.pantry@;
                assert(news =~= before.update(ix as int, updated));
                assert forall|key: Seq<char>| #[trigger] key_find(news, key) == key_find(
                    before,
                    key,
                ) by {
                    lemma_key_find_same_keys(news, before, key);
                }
                assert(self.pantry_at(name@) == Some((old_self.pantry_at(name@)->0
                    - amount) as i64));
                assert forall|key: Seq<char>| key != name@ implies #[trigger] amount_at(news, key)
                    == amount_at(before, key) by {
                    lemma_key_find_props(before, key);
                    if key_find(before, key) >= 0 {
                        assert(news[key_find(before, key)] == before[key_find(before, key)]);
                    }
                }
                assert forall|k: int|
                    0 <= k < j + 1 implies #[trigger] self.pantry_at(old_self.recipe_view()[k].0)
                    == Some(
                    (old_self.pantry_at(old_self.recipe_view()[k].0)->0
                        - old_self.recipe_view()[k].1) as i64,
                ) by {
                    if k < j {
                        assert(old_self.recipe_view()[k].0 != name@) by {
                            assert(old_self.recipe@[k].0@ != old_self.recipe@[j as int].0@);
                        }
                        assert(amount_at(news, old_self.recipe_view()[k].0) == amount_at(
                            before,
                            old_self.recipe_view()[k].0,
                        ));
                    }
                }
                assert forall|k: int|
                    j + 1 <= k < old_self.recipe_view().len() implies #[trigger] self.pantry_at(
                    old_self.recipe_view()[k].0,
                ) == old_self.pantry_at(old_self.recipe_view()[k].0) by {
                    assert(old_self.recipe_view()[k].0 != name@) by {
                        assert(old_self.recipe@[k].0@ != old_self.recipe@[j as int].0@);
                    }
                    assert(amount_at(news, old_self.recipe_view()[k].0) == amount_at(
                        before,
                        old_self.recipe_view()[k].0,
                    ));
                }
            }
            j = j + 1;
        }
        true
    }
}

/// The recipe entries with a positive amount, in order.
pub open spec fn keep_positive(recipe: Seq<(Seq<char>, int)>) -> Seq<(Seq<char>, int)>
    decreases recipe.len(),
{
    if recipe.len() == 0 {
        Seq::empty()
    } else if recipe.last().1 > 0 {
        keep_positive(recipe.drop_last()).push(recipe.last())
    } else {
        keep_positive(recipe.drop_last())
    }
}

impl BakeData {
    /// Bakes as many cookies as the pantry allows: drops recipe entries
    /// with no positive amount, then takes batch after batch until some
    /// ingredient runs short.  The count and the final pantry pin each
    /// other down: the pantry is the old one less `cookies` batches, every
    /// touched amount stays non-negative, and no further batch fits.
    pub fn bake(&mut self) -> (r: BakeResult)
        requires
            old(self).wf(),
        ensures
            final(self).wf(),
            final(self).recipe_view() == keep_positive(old(self).recipe_view()),
            r.cookies >= 0,
            r.pantry@ == final(self).pantry_view(),
            ({
                let rv = keep_positive(old(self).recipe_view());
                &&& forall|k: int|
                    0 <= k < rv.len() ==> (old(self).pantry_at((#[trigger] rv[k]).0) matches Some(
                        p,
                    ) ==> final(self).pantry_at(rv[k].0) == Some(
                        (p - r.cookies * rv[k].1) as i64,
                    ) && (r.cookies > 0 ==> p - r.cookies * rv[k].1 >= 0))
                &&& forall|k: int|
                    0 <= k < rv.len() ==> (old(self).pantry_at((#[trigger] rv[k]).0) is None
                        ==> final(self).pantry_at(rv[k].0) is None && r.cookies == 0)
                &&& forall|key: Seq<char>|
                    (forall|k: int| 0 <= k < rv.len() ==> (#[trigger] rv[k]).0 != key)
                        ==> #[trigger] final(self).pantry_at(key) == old(self).pantry_at(key)
                &&& rv.len() > 0 ==> !can_bake(rv, *final(self))
                &&& rv.len() == 0 ==> r.cookies == 0
            }),
    {
        let ghost old_self = *old(self);
        let ghost rv = keep_positive(old_self.recipe_view());
        // drop non-positive recipe entries
        let mut kept: Vec<(String, i64)> = Vec::new();
        let mut i: usize = 0;
        while i < self.recipe.len()
            invariant
                *self == old_self,
                i <= self.recipe@.len(),
                kept@.map_values(|e: (String, i64)| (e.0@, e.1 as int)) == keep_positive(
                    old_self.recipe_view().take(i as int),
                ),
                forall|p: int|
                    0 <= p < kept@.len() ==> exists|q: int|
                        0 <= q < i && (#[trigger] kept@[p]).0@ == old_self.recipe@[q].0@,
            decreases self.recipe@.len() - i,
        {
            let ghost prev = kept@.map_values(|e: (String, i64)| (e.0@, e.1 as int));
            proof {
                assert(old_self.recipe_view().take(i + 1).drop_last() =~= old_self.recipe_view().take(i as int));
                assert(old_self.recipe_view().take(i + 1).last() == old_self.recipe_view()[i as int]);
            }
            if self.recipe[i].1 > 0 {
                let ghost namev = self.recipe@[i as int].0@;
                kept.push((self.recipe[i].0.clone(), self.recipe[i].1));
                proof {
                    assert(kept@.map_values(|e: (String, i64)| (e.0@, e.1 as int)) =~= prev.push(
                        old_self.recipe_view()[i as int],
                    ));
                    assert(kept@[kept@.len() - 1].0@ == namev);
                }
            }
            i = i + 1;
        }
        proof {
            assert(old_self.recipe_view().take(old_self.recipe_view().len() as int)
                =~= old_self.recipe_view());
        }
        let ghost old_pantry = self.pantry@;
        self.recipe = kept;
        proof {
            assert(self.recipe_view() == rv);
            assert(self.wf()) by {
                assert forall|p: int, q: int|
                    0 <= p < q < self.recipe@.len() implies (#[trigger] self.recipe@[p]).0@ != (
                    #[trigger] self.recipe@[q]).0@ by {
                    lemma_keep_positive_distinct(old_self.recipe_view(), rv, p, q);
                    assert(rv[p].0 == self.recipe@[p].0@);
                    assert(rv[q].0 == self.recipe@[q].0@);
                }
            }
            assert forall|k: int| 0 <= k < rv.len() implies (#[trigger] rv[k]).1 > 0 by {
                lemma_keep_positive_pos(old_self.recipe_view(), k);
            }
        }
        let mut cookies: i64 = 0;
        proof {
            assert forall|k: int|
                0 <= k < rv.len() implies (amount_at(old_pantry, (#[trigger] rv[k]).0)
                matches Some(p) ==> self.pantry_at(rv[k].0) == Some((p - 0 * rv[k].1) as i64)) && (
            amount_at(old_pantry, rv[k].0) is None ==> self.pantry_at(rv[k].0) is None) by {
                assert(self.pantry_at(rv[k].0) == amount_at(old_pantry, rv[k].0));
            }
        }
        loop
            invariant
                self.wf(),
                self.recipe_view() == rv,
                forall|k: int| 0 <= k < rv.len() ==> (#[trigger] rv[k]).1 > 0,
                cookies >= 0,
                rv.len() == 0 ==> cookies == 0,
                forall|k: int|
                    0 <= k < rv.len() ==> (amount_at(old_pantry, (#[trigger] rv[k]).0) matches Some(
                        p,
                    ) ==> self.pantry_at(rv[k].0) == Some((p - cookies * rv[k].1) as i64) && (
                    cookies > 0 ==> p - cookies * rv[k].1 >= 0)) && (amount_at(old_pantry, rv[k].0)
                        is None ==> self.pantry_at(rv[k].0) is None && cookies == 0),
                forall|key: Seq<char>|
                    (forall|k: int| 0 <= k < rv.len() ==> (#[trigger] rv[k]).0 != key)
                        ==> #[trigger] self.pantry_at(key) == amount_at(old_pantry, key),
            ensures
                rv.len() > 0 ==> !can_bake(rv, *self),
            decreases (if rv.len() > 0 && amount_at(old_pantry, rv[0].0) is Some {
                amount_at(old_pantry, rv[0].0)->0 - cookies * rv[0].1
            } else {
                0
            }),
        {
            if self.recipe.len() == 0 {
                proof {
                    assert(self.recipe_view().len() == 0);
                }
                break ;
            }
            let ghost pre = *self;
            let available = self.ingredients_available();
            if !available {
                proof {
                    assert(!can_bake(rv, pre));
                    let k = choose|k: int| 0 <= k < rv.len() && !ingredient_ok(rv[k], pre);
                    assert(self.pantry_at(rv[k].0) == pre.pantry_at(rv[k].0));
                    assert(!ingredient_ok(rv[k], *self));
                    assert(!can_bake(rv, *self));
                }
                break ;
            }
            proof {
                assert(can_bake(rv, pre));
                assert(amount_at(old_pantry, rv[0].0) is Some) by {
                    if amount_at(old_pantry, rv[0].0) is None {
                        assert(pre.pantry_at(rv[0].0) is None);
                        assert(ingredient_ok(rv[0], pre));
                    }
                }
                assert forall|k: int|
                    0 <= k < rv.len() implies (amount_at(old_pantry, (#[trigger] rv[k]).0)
                    matches Some(p) ==> self.pantry_at(rv[k].0) == Some(
                    (p - (cookies + 1) * rv[k].1) as i64,
                ) && p - (cookies + 1) * rv[k].1 >= 0) && (amount_at(old_pantry, rv[k].0) is None
                    ==> self.pantry_at(rv[k].0) is None && cookies + 1 == 0) by {
                    if amount_at(old_pantry, rv[k].0) is Some {
                        let p = amount_at(old_pantry, rv[k].0)->0;
                        assert(ingredient_ok(rv[k], pre));
                        assert(pre.pantry_at(rv[k].0) == Some((p - cookies * rv[k].1) as i64));
                        assert(cookies * rv[k].1 >= 0) by (nonlinear_arith)
                            requires
                                cookies >= 0,
                                rv[k].1 >= 1,
                        ;
                        assert(p - cookies * rv[k].1 >= rv[k].1);
                        assert(self.pantry_at(rv[k].0) == Some(
                            ((p - cookies * rv[k].1) - rv[k].1) as i64,
                        ));
                        assert((p - cookies * rv[k].1) - rv[k].1 == p - (cookies + 1) * rv[k].1)
                            by (nonlinear_arith);
                    } else {
                        assert(pre.pantry_at(rv[k].0) is None);
                        assert(ingredient_ok(rv[k], pre));
                    }
                }
                assert(cookies + 1 <= i64::MAX) by {
                    let p0 = amount_at(old_pantry, rv[0].0)->0;
                    assert(p0 - (cookies + 1) * rv[0].1 >= 0);
                    assert(cookies + 1 <= (cookies + 1) * rv[0].1) by (nonlinear_arith)
                        requires
                            cookies + 1 >= 1,
                            rv[0].1 >= 1,
                    ;
                }
                assert((if rv.len() > 0 && amount_at(old_pantry, rv[0].0) is Some {
                    amount_at(old_pantry, rv[0].0)->0 - (cookies + 1) * rv[0].1
                } else {
                    0
                }) < (if rv.len() > 0 && amount_at(old_pantry, rv[0].0) is Some {
                    amount_at(old_pantry, rv[0].0)->0 - cookies * rv[0].1
                } else {
                    0
                })) by {
                    let p0 = amount_at(old_pantry, rv[0].0)->0;
                    assert((cookies + 1) * rv[0].1 == cookies * rv[0].1 + rv[0].1)
                        by (nonlinear_arith);
                }
            }
            cookies = cookies + 1;
        }
        BakeResult { cookies, pantry: copy_entries(&self.pantry) }
    }
}

/// Copies a list of entries, key by key.
fn copy_entries(v: &Vec<(String, i64)>) -> (r: Vec<(String, i64)>)
    ensures
        r@ == v@,
{
    let mut r: Vec<(String, i64)> = Vec::new();
    let mut i: usize = 0;
    while i < v.len()
        invariant
            i <= v@.len(),
            r@ =~= v@.take(i as int),
        decreases v@.len() - i,
    {
        r.push((v[i].0.clone(), v[i].1));
        proof {
            assert(r@ =~= v@.take(i + 1));
        }
        i = i + 1;
    }
    proof {
        assert(v@.take(v@.len() as int) =~= v@);
    }
    r
}

proof fn lemma_keep_positive_pos(recipe: Seq<(Seq<char>, int)>, k: int)
    requires
        0 <= k < keep_positive(recipe).len(),
    ensures
        keep_positive(recipe)[k].1 > 0,
    decreases recipe.len(),
{
    if recipe.len() > 0 {
        if recipe.last().1 > 0 {
            if k < keep_positive(recipe).len() - 1 {
                lemma_keep_positive_pos(recipe.drop_last(), k);
            }
        } else {
            lemma_keep_positive_pos(recipe.drop_last(), k);
        }
    }
}

/// Every entry kept from a list with distinct keys keeps a distinct key.
proof fn lemma_keep_positive_sub(recipe: Seq<(Seq<char>, int)>, k: int)
    requires
        0 <= k < keep_positive(recipe).len(),
    ensures
        exists|q: int| 0 <= q < recipe.len() && keep_positive(recipe)[k] == recipe[q],
    decreases recipe.len(),
{
    if recipe.len() > 0 {
        if recipe.last().1 > 0 && k == keep_positive(recipe).len() - 1 {
            assert(keep_positive(recipe)[k] == recipe[recipe.len() - 1]);
        } else {
            lemma_keep_positive_sub(recipe.drop_last(), k);
            let q = choose|q: int|
                0 <= q < recipe.drop_last().len() && keep_positive(recipe.drop_last())[k]
                    == recipe.drop_last()[q];
            assert(recipe.drop_last()[q] == recipe[q]);
            assert(keep_positive(recipe)[k] == recipe[q]);
        }
    }
}

/// Kept entries preserve their relative order, so distinct source keys
/// stay distinct.
proof fn lemma_keep_positive_distinct(recipe: Seq<(Seq<char>, int)>, rv: Seq<(Seq<char>, int)>, p: int, q: int)
    requires
        rv == keep_positive(recipe),
        forall|a: int, b: int|
            0 <= a < b < recipe.len() ==> (#[trigger] recipe[a]).0 != (#[trigger] recipe[b]).0,
        0 <= p < q < rv.len(),
    ensures
        rv[p].0 != rv[q].0,
    decreases recipe.len(),
{
    if recipe.len() > 0 {
        let tail = recipe.drop_last();
        assert(forall|a: int, b: int|
            0 <= a < b < tail.len() ==> (#[trigger] tail[a]).0 != (#[trigger] tail[b]).0);
        if recipe.last().1 > 0 {
            if q == rv.len() - 1 {
                lemma_keep_positive_sub(tail, p);
                let w = choose|w: int|
                    0 <= w < tail.len() && keep_positive(tail)[p] == tail[w];
                assert(recipe[w] == tail[w]);
                assert(rv[p] == recipe[w]);
                assert(rv[q] == recipe[recipe.len() - 1]);
                assert(recipe[w].0 != recipe[recipe.len() - 1].0);
            } else {
                lemma_keep_positive_distinct(tail, keep_positive(tail), p, q);
            }
        } else {
            lemma_keep_positive_distinct(tail, keep_positive(tail), p, q);
        }
    }
}

/// One recipe entry is on the shelf in its required amount.
pub open spec fn ingredient_ok(entry: (Seq<char>, int), b: BakeData) -> bool {
    b.pantry_at(entry.0) matches Some(have) && have >= entry.1
}

/// The subtraction the availability check licenses stays within the
/// amount type: relevant only for negative amounts, which grow the shelf.
pub open spec fn batch_fits(recipe: Seq<(Seq<char>, int)>, b: BakeData) -> bool {
    forall|k: int|
        0 <= k < recipe.len() ==> (b.pantry_at((#[trigger] recipe[k]).0) matches Some(have) ==> (
        have >= recipe[k].1 ==> have - recipe[k].1 <= i64::MAX))
}

/// Every recipe ingredient is on the shelf in its required amount.
pub open spec fn can_bake(recipe: Seq<(Seq<char>, int)>, b: BakeData) -> bool {
    forall|k: int| 0 <= k < recipe.len() ==> ingredient_ok(#[trigger] recipe[k], b)
}

proof fn lemma_key_find_none(entries: Seq<(String, i64)>, key: Seq<char>)
    requires
        forall|k: int| 0 <= k < entries.len() ==> (#[trigger] entries[k]).0@ != key,
    ensures
        key_find(entries, key) == -1,
    decreases entries.len(),
{
    if entries.len() > 0 {
        let tail = entries.drop_first();
        assert forall|k: int| 0 <= k < tail.len() implies (#[trigger] tail[k]).0@ != key by {
            assert(tail[k] == entries[k + 1]);
        }
        lemma_key_find_none(tail, key);
    }
}

/// Keeps the last entry for every key, in order of first appearance of
/// the surviving entries.
fn dedup_keys(entries: Vec<(String, i64)>) -> (r: Vec<(String, i64)>)
    ensures
        forall|p: int, q: int|
            0 <= p < q < r@.len() ==> (#[trigger] r@[p]).0@ != (#[trigger] r@[q]).0@,
{
    let mut out: Vec<(String, i64)> = Vec::new();
    let mut i: usize = 0;
    while i < entries.len()
        invariant
            i <= entries@.len(),
            forall|p: int, q: int|
                0 <= p < q < out@.len() ==> (#[trigger] out@[p]).0@ != (#[trigger] out@[q]).0@,
        decreases entries@.len() - i,
    {
        let (name, amount) = (entries[i].0.clone(), entries[i].1);
        let mut found = false;
        let mut k: usize = 0;
        while k < out.len() && !found
            invariant
                k <= out@.len(),
                forall|p: int, q: int|
                    0 <= p < q < out@.len() ==> (#[trigger] out@[p]).0@ != (#[trigger] out@[q]).0@,
                found ==> k >= 1 && k - 1 < out@.len() && out@[k - 1].0@ == name@,
                !found ==> forall|p: int| 0 <= p < k ==> (#[trigger] out@[p]).0@ != name@,
            decreases out@.len() - k,
        {
            if wire::str_eq(out[k].0.as_str(), name.as_str()) {
                found = true;
            }
            k = k + 1;
        }
        if found {
            let ghost before = out@;
            let _ = out.remove(k - 1);
            let updated = (name, amount);
            let ghost upd = updated;
            out.insert(k - 1, updated);
            proof {
                assert(out@ =~= before.update(k - 1, upd));
                assert(upd.0@ == before[k - 1].0@);
                assert forall|p: int, q: int|
                    0 <= p < q < out@.len() implies (#[trigger] out@[p]).0@ != (
                    #[trigger] out@[q]).0@ by {
                    assert(out@[p].0@ == before[p].0@ || (p == k - 1 && out@[p].0@ == upd.0@));
                    assert(out@[q].0@ == before[q].0@ || (q == k - 1 && out@[q].0@ == upd.0@));
                    assert(before[k - 1].0@ == upd.0@);
                }
            }
        } else {
            let ghost namev = name@;
            let ghost before = out@;
            out.push((name, amount));
            proof {
                assert(out@[out@.len() - 1].0@ == namev);
                assert forall|p: int, q: int|
                    0 <= p < q < out@.len() implies (#[trigger] out@[p]).0@ != (
                    #[trigger] out@[q]).0@ by {
                    if q == out@.len() - 1 {
                        assert(out@[p] == before[p]);
                        assert(out@[q].0@ == namev);
                    } else {
                        assert(out@[p] == before[p]);
                        assert(out@[q] == before[q]);
                    }
                }
            }
        }
        i = i + 1;
    }
    out
}

} // verus!
