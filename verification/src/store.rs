//! A small timestamp store: texts saved with the moment they arrived, and
//! looked up for the seconds elapsed since.  The clock itself lives
//! outside the library; both operations take the current moment as a
//! plain value.

use vstd::prelude::*;
use crate::wire;
use vstd::string::StringExecFns;

verus! {

/// Texts with the moment (in seconds) each was last saved.
pub struct TextStore {
    entries: Vec<(String, i64)>,
}

/// Index of the first entry with the given key, or -1 if there is none.
spec fn entry_find(entries: Seq<(String, i64)>, key: Seq<char>) -> int
    decreases entries.len(),
{
    if entries.len() == 0 {
        -1
    } else if entries[0].0@ == key {
        0
    } else {
        let r = entry_find(entries.drop_first(), key);
        if r < 0 {
            -1
        } else {
            r + 1
        }
    }
}

proof fn lemma_entry_find_props(entries: Seq<(String, i64)>, key: Seq<char>)
    ensures
        entry_find(entries, key) == -1 ==> forall|k: int|
            0 <= k < entries.len() ==> (#[trigger] entries[k]).0@ != key,
        entry_find(entries, key) != -1 ==> {
            let r = entry_find(entries, key);
            &&& 0 <= r < entries.len()
            &&& entries[r].0@ == key
        },
    decreases entries.len(),
{
    if entries.len() > 0 && entries[0].0@ != key {
        let tail = entries.drop_first();
        lemma_entry_find_props(tail, key);
        if entry_find(entries, key) == -1 {
            assert forall|k: int| 0 <= k < entries.len() implies (#[trigger] entries[k]).0@
                != key by {
                if k > 0 {
                    assert(tail[k - 1] == entries[k]);
                }
            }
        } else {
            assert(tail[entry_find(entries, key) - 1] == entries[entry_find(entries, key)]);
        }
    }
}

proof fn lemma_entry_find_at(entries: Seq<(String, i64)>, key: Seq<char>, i: int)
    requires
        0 <= i < entries.len(),
        entries[i].0@ == key,
        forall|k: int| 0 <= k < i ==> (#[trigger] entries[k]).0@ != key,
    ensures
        entry_find(entries, key) == i,
    decreases i,
{
    if i > 0 {
        let tail = entries.drop_first();
        assert(tail[i - 1] == entries[i]);
        assert forall|k: int| 0 <= k < i - 1 implies (#[trigger] tail[k]).0@ != key by {
            assert(tail[k] == entries[k + 1]);
        }
        lemma_entry_find_at(tail, key, i - 1);
    }
}

impl TextStore {
    /// The moment the text was last saved, if it ever was.
    pub closed spec fn saved_at(self, key: Seq<char>) -> Option<i64> {
        if entry_find(self.entries@, key) >= 0 {
            Some(self.entries@[entry_find(self.entries@, key)].1)
        } else {
            None
        }
    }

    /// An empty store.
    pub fn new() -> (s: TextStore)
        ensures
            forall|k: Seq<char>| s.saved_at(k) is None,
    {
        TextStore { entries: Vec::new() }
    }

    /// Index of the entry with the given key.
    fn find(&self, text: &str) -> (r: Option<usize>)
        ensures
            match r {
                Some(ix) => ix as int == entry_find(self.entries@, text@) && ix
                    < self.entries@.len(),
                None => entry_find(self.entries@, text@) == -1,
            },
    {
        let mut i: usize = 0;
        while i < self.entries.len()
            invariant
                i <= self.entries@.len(),
                forall|k: int| 0 <= k < i ==> (#[trigger] self.entries@[k]).0@ != text@,
            decreases self.entries@.len() - i,
        {
            if wire::str_eq(self.entries[i].0.as_str(), text) {
                proof {
                    lemma_entry_find_at(self.entries@, text@, i as int);
                }
                return Some(i);
            }
            i = i + 1;
        }
        proof {
            lemma_entry_find_props(self.entries@, text@);
            if entry_find(self.entries@, text@) != -1 {
                assert(false);
            }
        }
        None
    }

    /// Saves the text with the given moment, replacing an earlier save.
    pub fn save(&mut self, text: &str, now: i64)
        ensures
            final(self).saved_at(text@) == Some(now),
            forall|k: Seq<char>|
                k != text@ ==> #[trigger] final(self).saved_at(k) == old(self).saved_at(k),
    {
        let found = self.find(text);
        let ghost old_entries = self.entries@;
        match found {
            Some(ix) => {
                let entry = self.entries.remove(ix);
                let updated = (entry.0, now);
                self.entries.insert(ix, updated);
                proof {
                    let news = self.entries@;
                    assert(news =~= old_entries.update(ix as int, updated));
                    lemma_entry_find_props(old_entries, text@);
                    assert forall|k: Seq<char>| #[trigger] entry_find(news, k) == entry_find(
                        old_entries,
                        k,
                    ) by {
                        lemma_find_same_keys(news, old_entries, k);
                    }
                    assert(self.saved_at(text@) == Some(now));
                    assert forall|k: Seq<char>| k != text@ implies #[trigger] self.saved_at(k)
                        == old(self).saved_at(k) by {
                        lemma_entry_find_props(old_entries, k);
                        if entry_find(old_entries, k) >= 0 {
                            let r = entry_find(old_entries, k);
                            assert(r != ix);
                            assert(news[r] == old_entries[r]);
                        }
                    }
                }
            },
            None => {
                let owned = String::from_str(text);
                self.entries.push((owned, now));
                proof {
                    let news = self.entries@;
                    lemma_entry_find_props(old_entries, text@);
                    lemma_entry_find_at(news, text@, old_entries.len() as int);
                    assert(self.saved_at(text@) == Some(now));
                    assert forall|k: Seq<char>| k != text@ implies #[trigger] self.saved_at(k)
                        == old(self).saved_at(k) by {
                        lemma_find_push_other(old_entries, (news.last()), k);
                        assert(news =~= old_entries.push(news.last()));
                        lemma_entry_find_props(old_entries, k);
                        if entry_find(old_entries, k) >= 0 {
                            let r = entry_find(old_entries, k);
                            assert(news[r] == old_entries[r]);
                        }
                    }
                }
            },
        }
    }

    /// The seconds elapsed between the text's save and `now`, if it was
    /// ever saved.  The span must fit the result type.
    pub fn elapsed(&self, text: &str, now: i64) -> (r: Option<i64>)
        requires
            self.saved_at(text@) matches Some(t) ==> i64::MIN <= now - t <= i64::MAX,
        ensures
            match r {
                Some(d) => self.saved_at(text@) matches Some(t) && d == now - t,
                None => self.saved_at(text@) is None,
            },
    {
        match self.find(text) {
            Some(ix) => Some(now - self.entries[ix].1),
            None => None,
        }
    }
}

proof fn lemma_entry_find_none(entries: Seq<(String, i64)>, key: Seq<char>)
    requires
        forall|k: int| 0 <= k < entries.len() ==> (#[trigger] entries[k]).0@ != key,
    ensures
        entry_find(entries, key) == -1,
    decreases entries.len(),
{
    if entries.len() > 0 {
        let tail = entries.drop_first();
        assert forall|k: int| 0 <= k < tail.len() implies (#[trigger] tail[k]).0@ != key by {
            assert(tail[k] == entries[k + 1]);
        }
        lemma_entry_find_none(tail, key);
    }
}


/// Two entry lists with the same keys in the same places have the same
/// find index for every key.
proof fn lemma_find_same_keys(a: Seq<(String, i64)>, b: Seq<(String, i64)>, key: Seq<char>)
    requires
        a.len() == b.len(),
        forall|p: int| 0 <= p < a.len() ==> (#[trigger] a[p]).0@ == b[p].0@,
    ensures
        entry_find(a, key) == entry_find(b, key),
    decreases a.len(),
{
    if a.len() > 0 && a[0].0@ != key {
        let ta = a.drop_first();
        let tb = b.drop_first();
        assert forall|p: int| 0 <= p < ta.len() implies (#[trigger] ta[p]).0@ == tb[p].0@ by {
            assert(ta[p] == a[p + 1]);
            assert(tb[p] == b[p + 1]);
        }
        lemma_find_same_keys(ta, tb, key);
    }
}

/// Appending an entry with a different key leaves a key's find index as
/// it was.
proof fn lemma_find_push_other(entries: Seq<(String, i64)>, item: (String, i64), key: Seq<char>)
    requires
        item.0@ != key,
    ensures
        entry_find(entries.push(item), key) == entry_find(entries, key),
    decreases entries.len(),
{
    let pushed = entries.push(item);
    if entries.len() == 0 {
        assert(pushed[0] == item);
        assert(pushed.drop_first() =~= Seq::<(String, i64)>::empty());
        assert(entry_find(pushed.drop_first(), key) == -1);
        assert(entry_find(pushed, key) == -1);
        assert(entry_find(entries, key) == -1);
    } else if entries[0].0@ == key {
        assert(pushed[0] == entries[0]);
        assert(entry_find(pushed, key) == 0);
    } else {
        assert(pushed[0] == entries[0]);
        assert(pushed.drop_first() =~= entries.drop_first().push(item));
        lemma_find_push_other(entries.drop_first(), item, key);
        assert(entry_find(pushed.drop_first(), key) == entry_find(entries.drop_first(), key));
    }
}

} // verus!
