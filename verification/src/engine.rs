//! The ordered transactional KV engine: an in-memory ordered map from byte
//! keys to byte values, kept as an entry vector sorted strictly ascending in
//! byte-lexicographic key order. Its abstract view is a `Map<Seq<u8>, Seq<u8>>`;
//! snapshots hand the entries out in ascending key order for iteration.
//! Persistence of the entry list is the embedding application's concern.

use vstd::prelude::*;

verus! {

use crate::order::{
    KeyOrder,
    compare_bytes,
    lex_lt,
    lemma_lex_connex,
    lemma_lex_lt_trans,
};

/// The keys of `s` are strictly ascending in byte-lexicographic order.
pub open spec fn strict_sorted(s: Seq<(Seq<u8>, Seq<u8>)>) -> bool {
    forall|i: int, j: int|
        0 <= i < j < s.len() ==> lex_lt(#[trigger] s[i].0, #[trigger] s[j].0)
}

/// No two entries of `s` share a key.
pub open spec fn distinct_keys(s: Seq<(Seq<u8>, Seq<u8>)>) -> bool {
    forall|i: int, j: int|
        0 <= i < s.len() && 0 <= j < s.len() && i != j ==> (#[trigger] s[i].0) != (
        #[trigger] s[j].0)
}

/// Some entry of `s` has key `k`.
pub open spec fn kv_contains(s: Seq<(Seq<u8>, Seq<u8>)>, k: Seq<u8>) -> bool {
    exists|i: int| 0 <= i < s.len() && (#[trigger] s[i].0) == k
}

/// The index of the entry with key `k` (meaningful when one exists and keys
/// are distinct).
pub open spec fn kv_index(s: Seq<(Seq<u8>, Seq<u8>)>, k: Seq<u8>) -> int {
    choose|i: int| 0 <= i < s.len() && (#[trigger] s[i].0) == k
}

/// The finite map an entry sequence denotes.
pub open spec fn kv_map(s: Seq<(Seq<u8>, Seq<u8>)>) -> Map<Seq<u8>, Seq<u8>> {
    Map::new(|k: Seq<u8>| kv_contains(s, k), |k: Seq<u8>| s[kv_index(s, k)].1)
}

/// Strictly sorted entries have distinct keys.
pub proof fn lemma_sorted_distinct(s: Seq<(Seq<u8>, Seq<u8>)>)
    requires
        strict_sorted(s),
    ensures
        distinct_keys(s),
{
    assert forall|i: int, j: int|
        0 <= i < s.len() && 0 <= j < s.len() && i != j implies (#[trigger] s[i].0) != (
    #[trigger] s[j].0) by {
        if i < j {
            lemma_lex_connex(s[i].0, s[j].0);
        } else {
            lemma_lex_connex(s[j].0, s[i].0);
        }
    }
}

/// With distinct keys, the entry at `i` is what the map stores for its key.
pub proof fn lemma_kv_map_at(s: Seq<(Seq<u8>, Seq<u8>)>, i: int)
    requires
        distinct_keys(s),
        0 <= i < s.len(),
    ensures
        kv_map(s).contains_key(s[i].0),
        kv_map(s)[s[i].0] == s[i].1,
{
    assert(kv_contains(s, s[i].0));
    assert(kv_index(s, s[i].0) == i);
}

/// Updating the entry at `i` in place rewrites the map at its key.
pub proof fn lemma_kv_map_update(s: Seq<(Seq<u8>, Seq<u8>)>, i: int, v: Seq<u8>)
    requires
        distinct_keys(s),
        0 <= i < s.len(),
    ensures
        kv_map(s.update(i, (s[i].0, v))) =~= kv_map(s).insert(s[i].0, v),
        distinct_keys(s.update(i, (s[i].0, v))),
{
    let k = s[i].0;
    let t = s.update(i, (k, v));
    assert forall|q: Seq<u8>| kv_contains(t, q) implies kv_map(s).insert(k, v).contains_key(
        q,
    ) by {
        let j = choose|j: int| 0 <= j < t.len() && (#[trigger] t[j].0) == q;
        assert(s[j].0 == q);
    }
    assert forall|q: Seq<u8>| kv_map(s).insert(k, v).contains_key(q) implies kv_contains(
        t,
        q,
    ) by {
        if q == k {
            assert(t[i].0 == q);
        } else {
            let j = choose|j: int| 0 <= j < s.len() && (#[trigger] s[j].0) == q;
            assert(t[j].0 == q);
        }
    }
    assert forall|q: Seq<u8>| kv_contains(t, q) implies kv_map(t)[q] == kv_map(s).insert(
        k,
        v,
    )[q] by {
        let j = kv_index(t, q);
        assert(0 <= j < t.len() && t[j].0 == q);
        if q == k {
            assert(j == i);
        } else {
            assert(j != i);
            assert(s[j].0 == q);
            assert(kv_index(s, q) == j);
        }
    }
}

/// Inserting an entry with a fresh key at any position adds it to the map.
pub proof fn lemma_kv_map_insert(s: Seq<(Seq<u8>, Seq<u8>)>, i: int, k: Seq<u8>, v: Seq<u8>)
    requires
        distinct_keys(s),
        !kv_contains(s, k),
        0 <= i <= s.len(),
    ensures
        kv_map(s.insert(i, (k, v))) =~= kv_map(s).insert(k, v),
        distinct_keys(s.insert(i, (k, v))),
{
    let t = s.insert(i, (k, v));
    assert(t.len() == s.len() + 1);
    assert(forall|j: int| 0 <= j < i ==> #[trigger] t[j] == s[j]);
    assert(forall|j: int| i < j < t.len() ==> #[trigger] t[j] == s[j - 1]);
    assert(t[i] == (k, v));
    assert forall|a: int, b: int|
        0 <= a < t.len() && 0 <= b < t.len() && a != b implies (#[trigger] t[a].0) != (
    #[trigger] t[b].0) by {
        if a == i {
            if b < i {
                assert(t[b] == s[b]);
            } else {
                assert(t[b] == s[b - 1]);
            }
        } else if b == i {
            if a < i {
                assert(t[a] == s[a]);
            } else {
                assert(t[a] == s[a - 1]);
            }
        }
    }
    assert forall|q: Seq<u8>| kv_contains(t, q) implies kv_map(s).insert(k, v).contains_key(
        q,
    ) by {
        let j = choose|j: int| 0 <= j < t.len() && (#[trigger] t[j].0) == q;
        if j != i {
            if j < i {
                assert(s[j].0 == q);
            } else {
                assert(s[j - 1].0 == q);
            }
        }
    }
    assert forall|q: Seq<u8>| kv_map(s).insert(k, v).contains_key(q) implies kv_contains(
        t,
        q,
    ) by {
        if q == k {
            assert(t[i].0 == q);
        } else {
            let j = choose|j: int| 0 <= j < s.len() && (#[trigger] s[j].0) == q;
            if j < i {
                assert(t[j].0 == q);
            } else {
                assert(t[j + 1].0 == q);
            }
        }
    }
    assert forall|q: Seq<u8>| kv_contains(t, q) implies kv_map(t)[q] == kv_map(s).insert(
        k,
        v,
    )[q] by {
        let j = kv_index(t, q);
        assert(0 <= j < t.len() && t[j].0 == q);
        if q == k {
            assert(j == i);
        } else {
            assert(j != i);
            if j < i {
                assert(s[j].0 == q);
                assert(kv_index(s, q) == j);
            } else {
                assert(s[j - 1].0 == q);
                assert(kv_index(s, q) == j - 1);
            }
        }
    }
}

/// Removing the entry at `i` removes its key from the map.
pub proof fn lemma_kv_map_remove(s: Seq<(Seq<u8>, Seq<u8>)>, i: int)
    requires
        distinct_keys(s),
        0 <= i < s.len(),
    ensures
        kv_map(s.remove(i)) =~= kv_map(s).remove(s[i].0),
        distinct_keys(s.remove(i)),
{
    let k = s[i].0;
    let t = s.remove(i);
    assert(t.len() == s.len() - 1);
    assert(forall|j: int| 0 <= j < i ==> #[trigger] t[j] == s[j]);
    assert(forall|j: int| i <= j < t.len() ==> #[trigger] t[j] == s[j + 1]);
    assert forall|q: Seq<u8>| kv_contains(t, q) implies kv_map(s).remove(k).contains_key(q) by {
        let j = choose|j: int| 0 <= j < t.len() && (#[trigger] t[j].0) == q;
        if j < i {
            assert(s[j].0 == q);
            assert(q != k);
        } else {
            assert(s[j + 1].0 == q);
            assert(q != k);
        }
    }
    assert forall|q: Seq<u8>| kv_map(s).remove(k).contains_key(q) implies kv_contains(t, q) by {
        let j = choose|j: int| 0 <= j < s.len() && (#[trigger] s[j].0) == q;
        assert(j != i);
        if j < i {
            assert(t[j].0 == q);
        } else {
            assert(t[j - 1].0 == q);
        }
    }
    assert forall|q: Seq<u8>| kv_contains(t, q) implies kv_map(t)[q] == kv_map(s).remove(k)[q] by {
        let j = kv_index(t, q);
        assert(0 <= j < t.len() && t[j].0 == q);
        if j < i {
            assert(s[j].0 == q);
            assert(kv_index(s, q) == j);
        } else {
            assert(s[j + 1].0 == q);
            assert(kv_index(s, q) == j + 1);
        }
    }
}

/// Entries stored one after another into a contents map: a later entry with
/// the same key replaces an earlier one.
pub open spec fn puts_applied(
    m: Map<Seq<u8>, Seq<u8>>,
    s: Seq<(Seq<u8>, Seq<u8>)>,
) -> Map<Seq<u8>, Seq<u8>>
    decreases s.len(),
{
    if s.len() == 0 {
        m
    } else {
        puts_applied(m, s.drop_last()).insert(s.last().0, s.last().1)
    }
}

/// The engine itself: the sorted entry vector.
pub struct Engine {
    pub entries: Vec<(Vec<u8>, Vec<u8>)>,
}

impl View for Engine {
    type V = Map<Seq<u8>, Seq<u8>>;

    open spec fn view(&self) -> Map<Seq<u8>, Seq<u8>> {
        kv_map(self.rep())
    }
}

impl Engine {
    /// The entry sequence, with each entry abstracted to its byte sequences.
    pub open spec fn rep(self) -> Seq<(Seq<u8>, Seq<u8>)> {
        self.entries@.map_values(|p: (Vec<u8>, Vec<u8>)| (p.0@, p.1@))
    }

    /// Well-formedness: entries strictly sorted by key.
    pub open spec fn inv(self) -> bool {
        strict_sorted(self.rep())
    }

    /// An engine over no entries at all.
    pub fn empty() -> (engine: Engine)
        ensures
            engine.inv(),
            engine@ =~= Map::<Seq<u8>, Seq<u8>>::empty(),
            engine.rep() =~= Seq::<(Seq<u8>, Seq<u8>)>::empty(),
    {
        let engine = Engine { entries: Vec::new() };
        proof {
            assert(engine.rep() =~= Seq::<(Seq<u8>, Seq<u8>)>::empty());
            assert forall|q: Seq<u8>| !kv_contains(engine.rep(), q) by {}
        }
        engine
    }

    /// Point lookup: a clone of the stored value, if the key is present.
    pub fn get(&self, key: &Vec<u8>) -> (r: Option<Vec<u8>>)
        requires
            self.inv(),
        ensures
            r is Some <==> self@.contains_key(key@),
            r is Some ==> r->0@ == self@[key@],
    {
        proof {
            lemma_sorted_distinct(self.rep());
        }
        let n = self.entries.len();
        let mut i: usize = 0;
        while i < n
            invariant
                n == self.entries.len(),
                i <= n,
                self.inv(),
                forall|j: int| 0 <= j < i ==> (#[trigger] self.rep()[j].0) != key@,
            decreases n - i,
        {
            let ord = compare_bytes(&self.entries[i].0, key);
            if matches!(ord, KeyOrder::Equal) {
                proof {
                    lemma_sorted_distinct(self.rep());
                    lemma_kv_map_at(self.rep(), i as int);
                }
                return Some(self.entries[i].1.clone());
            }
            i = i + 1;
        }
        proof {
            assert(!kv_contains(self.rep(), key@));
        }
        None
    }

    /// Whether the key is present.
    pub fn contains(&self, key: &Vec<u8>) -> (r: bool)
        requires
            self.inv(),
        ensures
            r == self@.contains_key(key@),
    {
        let got = self.get(key);
        got.is_some()
    }

    /// Store `value` under `key`, replacing any previous value.
    pub fn put(&mut self, key: Vec<u8>, value: Vec<u8>)
        requires
            old(self).inv(),
        ensures
            final(self).inv(),
            final(self)@ =~= old(self)@.insert(key@, value@),
    {
        proof {
            lemma_sorted_distinct(self.rep());
        }
        let ghost s0 = self.rep();
        let n = self.entries.len();
        let mut i: usize = 0;
        while i < n && matches!(compare_bytes(&self.entries[i].0, &key), KeyOrder::Less)
            invariant
                n == self.entries.len(),
                i <= n,
                self.inv(),
                self.rep() == s0,
                forall|j: int| 0 <= j < i ==> lex_lt(#[trigger] s0[j].0, key@),
            decreases n - i,
        {
            i = i + 1;
        }
        if i < n {
            let ord = compare_bytes(&self.entries[i].0, &key);
            if matches!(ord, KeyOrder::Equal) {
                proof {
                    lemma_kv_map_update(s0, i as int, value@);
                }
                self.entries.set(i, (key, value));
                proof {
                    assert(self.rep() =~= s0.update(i as int, (s0[i as int].0, value@)));
                }
                return ;
            }
            proof {
                assert(lex_lt(key@, s0[i as int].0));
            }
        }
        proof {
            assert forall|j: int| i <= j < s0.len() implies lex_lt(key@, #[trigger] s0[j].0) by {
                if j > i {
                    lemma_lex_lt_trans(key@, s0[i as int].0, s0[j].0);
                }
            }
            assert forall|j: int| 0 <= j < s0.len() implies (#[trigger] s0[j].0) != key@ by {
                if j < i {
                    lemma_lex_connex(s0[j].0, key@);
                } else {
                    lemma_lex_connex(key@, s0[j].0);
                }
            }
            assert(!kv_contains(s0, key@));
            lemma_kv_map_insert(s0, i as int, key@, value@);
        }
        self.entries.insert(i, (key, value));
        proof {
            assert(self.rep() =~= s0.insert(i as int, (key@, value@)));
            let t = self.rep();
            assert forall|a: int, b: int|
                0 <= a < b < t.len() implies lex_lt(#[trigger] t[a].0, #[trigger] t[b].0) by {
                if b < i {
                    assert(t[a] == s0[a] && t[b] == s0[b]);
                } else if a > i {
                    assert(t[a] == s0[a - 1] && t[b] == s0[b - 1]);
                } else if a == i {
                    assert(t[a].0 == key@ && t[b] == s0[b - 1]);
                } else if b == i {
                    assert(t[a] == s0[a] && t[b].0 == key@);
                } else {
                    assert(t[a] == s0[a] && t[b] == s0[b - 1]);
                    if a < i && i < b {
                        assert(lex_lt(s0[a].0, key@) && lex_lt(key@, s0[b - 1].0)) by {
                            assert(b - 1 >= i);
                        }
                        lemma_lex_lt_trans(s0[a].0, key@, s0[b - 1].0);
                    }
                }
            }
        }
    }

    /// Remove `key` if present.
    pub fn delete(&mut self, key: &Vec<u8>)
        requires
            old(self).inv(),
        ensures
            final(self).inv(),
            final(self)@ =~= old(self)@.remove(key@),
    {
        proof {
            lemma_sorted_distinct(self.rep());
        }
        let ghost s0 = self.rep();
        let n = self.entries.len();
        let mut i: usize = 0;
        while i < n
            invariant
                n == self.entries.len(),
                i <= n,
                self.inv(),
                self.rep() == s0,
                s0 == old(self).rep(),
                forall|j: int| 0 <= j < i ==> (#[trigger] s0[j].0) != key@,
            decreases n - i,
        {
            let ord = compare_bytes(&self.entries[i].0, key);
            if matches!(ord, KeyOrder::Equal) {
                proof {
                    lemma_sorted_distinct(s0);
                    lemma_kv_map_remove(s0, i as int);
                }
                self.entries.remove(i);
                proof {
                    assert(self.rep() =~= s0.remove(i as int));
                    let t = self.rep();
                    assert forall|a: int, b: int|
                        0 <= a < b < t.len() implies lex_lt(
                        #[trigger] t[a].0,
                        #[trigger] t[b].0,
                    ) by {
                        if a < i {
                            assert(t[a] == s0[a]);
                        } else {
                            assert(t[a] == s0[a + 1]);
                        }
                        if b < i {
                            assert(t[b] == s0[b]);
                        } else {
                            assert(t[b] == s0[b + 1]);
                        }
                    }
                }
                return ;
            }
            i = i + 1;
        }
        proof {
            assert(!kv_contains(s0, key@));
            assert(self@ =~= old(self)@.remove(key@));
        }
    }

    /// Whether the engine holds no entries at all.
    pub fn is_empty(&self) -> (r: bool)
        requires
            self.inv(),
        ensures
            r <==> self.rep().len() == 0,
            r <==> self@.dom() =~= Set::<Seq<u8>>::empty(),
    {
        proof {
            if self.rep().len() > 0 {
                assert(kv_contains(self.rep(), self.rep()[0].0));
                assert(self@.contains_key(self.rep()[0].0));
            }
            if self.rep().len() == 0 {
                assert forall|q: Seq<u8>| !kv_contains(self.rep(), q) by {}
            }
        }
        self.entries.len() == 0
    }

    /// A clone of all entries, in ascending key order.
    pub fn snapshot(&self) -> (r: Vec<(Vec<u8>, Vec<u8>)>)
        requires
            self.inv(),
        ensures
            r@.map_values(|p: (Vec<u8>, Vec<u8>)| (p.0@, p.1@)) == self.rep(),
    {
        let n = self.entries.len();
        let mut r: Vec<(Vec<u8>, Vec<u8>)> = Vec::new();
        let mut i: usize = 0;
        while i < n
            invariant
                n == self.entries.len(),
                i <= n,
                r@.len() == i,
                forall|j: int|
                    0 <= j < i ==> (#[trigger] r@[j]).0@ == self.rep()[j].0 && r@[j].1@
                        == self.rep()[j].1,
            decreases n - i,
        {
            let k = self.entries[i].0.clone();
            let v = self.entries[i].1.clone();
            r.push((k, v));
            i = i + 1;
        }
        proof {
            assert(r@.map_values(|p: (Vec<u8>, Vec<u8>)| (p.0@, p.1@)) =~= self.rep());
        }
        r
    }

    /// An engine holding the given entries, stored in order: a later entry
    /// with the same key wins, as a sequence of single puts would have it.
    pub fn from_entries(entries: Vec<(Vec<u8>, Vec<u8>)>) -> (engine: Engine)
        ensures
            engine.inv(),
            engine@ =~= puts_applied(
                Map::<Seq<u8>, Seq<u8>>::empty(),
                entries@.map_values(|p: (Vec<u8>, Vec<u8>)| (p.0@, p.1@)),
            ),
    {
        let ghost ev = entries@.map_values(|p: (Vec<u8>, Vec<u8>)| (p.0@, p.1@));
        let mut engine = Engine::empty();
        let n = entries.len();
        let mut i: usize = 0;
        while i < n
            invariant
                n == entries@.len(),
                ev == entries@.map_values(|p: (Vec<u8>, Vec<u8>)| (p.0@, p.1@)),
                i <= n,
                engine.inv(),
                engine@ =~= puts_applied(Map::<Seq<u8>, Seq<u8>>::empty(), ev.take(i as int)),
            decreases n - i,
        {
            proof {
                assert(ev[i as int] == (entries@[i as int].0@, entries@[i as int].1@));
                assert(ev.take(i + 1).drop_last() =~= ev.take(i as int));
                assert(ev.take(i + 1).last() == ev[i as int]);
            }
            let k = entries[i].0.clone();
            let v = entries[i].1.clone();
            engine.put(k, v);
            i = i + 1;
        }
        proof {
            assert(ev.take(n as int) =~= ev);
        }
        engine
    }

}

} // verus!
