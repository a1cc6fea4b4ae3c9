//! A map keyed by strings, kept as a vector of distinct entries.

use vstd::prelude::*;

verus! {

/// `ks` without the elements of `gone`, in the same order.
pub open spec fn without_keys(ks: Seq<Seq<char>>, gone: Set<Seq<char>>) -> Seq<Seq<char>>
    decreases ks.len(),
{
    if ks.len() == 0 {
        ks
    } else {
        let rest = without_keys(ks.drop_last(), gone);
        if gone.contains(ks.last()) {
            rest
        } else {
            rest.push(ks.last())
        }
    }
}

/// Dropping nothing that occurs leaves a sequence as it is.
pub proof fn lemma_without_absent(ks: Seq<Seq<char>>, gone: Set<Seq<char>>)
    requires
        forall|j: int| 0 <= j < ks.len() ==> !gone.contains(#[trigger] ks[j]),
    ensures
        without_keys(ks, gone) == ks,
    decreases ks.len(),
{
    if ks.len() > 0 {
        let pre = ks.drop_last();
        assert forall|j: int| 0 <= j < pre.len() implies !gone.contains(#[trigger] pre[j]) by {
            assert(pre[j] == ks[j]);
        }
        lemma_without_absent(pre, gone);
        assert(!gone.contains(ks[ks.len() - 1]));
        assert(pre.push(ks.last()) =~= ks);
    }
}

/// Removing the only occurrence of `x`, at position `i`, is dropping `{x}`.
pub proof fn lemma_remove_is_without(ks: Seq<Seq<char>>, i: int)
    requires
        ks.no_duplicates(),
        0 <= i < ks.len(),
    ensures
        ks.remove(i) == without_keys(ks, set![ks[i]]),
    decreases ks.len(),
{
    let x = ks[i];
    let pre = ks.drop_last();
    if i == ks.len() - 1 {
        assert forall|j: int| 0 <= j < pre.len() implies !set![x].contains(#[trigger] pre[j]) by {
            assert(pre[j] == ks[j]);
        }
        lemma_without_absent(pre, set![x]);
        assert(ks.remove(i) =~= pre);
    } else {
        assert(pre[i] == x);
        assert forall|a: int, b: int| 0 <= a < b < pre.len() implies pre[a] != pre[b] by {
            assert(pre[a] == ks[a] && pre[b] == ks[b]);
        }
        lemma_remove_is_without(pre, i);
        assert(ks.last() != x) by {
            assert(ks[ks.len() - 1] == ks.last());
        }
        assert(ks.remove(i) =~= pre.remove(i).push(ks.last()));
    }
}

/// Dropping `a` and then `b` is dropping their union.
pub proof fn lemma_without_twice(ks: Seq<Seq<char>>, a: Set<Seq<char>>, b: Set<Seq<char>>)
    ensures
        without_keys(without_keys(ks, a), b) == without_keys(ks, a.union(b)),
    decreases ks.len(),
{
    if ks.len() > 0 {
        let pre = ks.drop_last();
        lemma_without_twice(pre, a, b);
        let r = without_keys(pre, a);
        if !a.contains(ks.last()) {
            assert(r.push(ks.last()).drop_last() =~= r);
        }
    }
}

/// The keys `ks`, with `id` appended unless it is already among them.
pub open spec fn keys_with(ks: Seq<Seq<char>>, id: Seq<char>) -> Seq<Seq<char>> {
    if ks.contains(id) {
        ks
    } else {
        ks.push(id)
    }
}

/// The keys `ks`, with each of `ids` in turn appended unless it is already there.
pub open spec fn keys_with_all(ks: Seq<Seq<char>>, ids: Seq<Seq<char>>) -> Seq<Seq<char>>
    decreases ids.len(),
{
    if ids.len() == 0 {
        ks
    } else {
        keys_with(keys_with_all(ks, ids.drop_last()), ids.last())
    }
}

/// A map from string keys to values; each key occurs at most once, and the
/// entries keep the order in which their keys were first inserted.
#[derive(Debug)]
pub struct StrMap<V> {
    entries: Vec<(String, V)>,
}

impl<V> StrMap<V> {
    /// The keys, as character sequences, in entry order.
    pub closed spec fn keys(self) -> Seq<Seq<char>> {
        self.entries@.map_values(|e: (String, V)| e.0@)
    }

    /// No key occurs twice.
    #[verifier::type_invariant]
    closed spec fn distinct_keys(self) -> bool {
        self.keys().no_duplicates()
    }

    proof fn lemma_view_at(self, i: int)
        requires
            self.distinct_keys(),
            0 <= i < self.entries@.len(),
        ensures
            self@.contains_key(self.keys()[i]),
            self@[self.keys()[i]] == self.entries@[i].1,
    {
        let k = self.keys()[i];
        assert(self.keys().contains(k));
        let j = self.keys().index_of(k);
        assert(self.keys()[j] == k);
    }
}

impl<V> View for StrMap<V> {
    type V = Map<Seq<char>, V>;

    closed spec fn view(&self) -> Map<Seq<char>, V> {
        Map::new(
            |k: Seq<char>| self.keys().contains(k),
            |k: Seq<char>| self.entries@[self.keys().index_of(k)].1,
        )
    }
}

impl<V> StrMap<V> {
    /// The keys listed by `keys()` are exactly the keys of the map.
    pub proof fn lemma_keys_are_domain(self)
        ensures
            forall|k: Seq<char>| #[trigger] self@.contains_key(k) <==> self.keys().contains(k),
    {
    }

    /// An empty map.
    pub fn new() -> (m: Self)
        ensures
            m@ == Map::<Seq<char>, V>::empty(),
            m.keys() == Seq::<Seq<char>>::empty(),
    {
        let m = StrMap { entries: Vec::new() };
        assert(m@ =~= Map::<Seq<char>, V>::empty());
        assert(m.keys() =~= Seq::<Seq<char>>::empty());
        m
    }

    /// The number of keys; also tells that `keys()` lists the domain without repetition.
    pub fn len(&self) -> (n: usize)
        ensures
            n == self.keys().len(),
            self.keys().no_duplicates(),
            forall|k: Seq<char>| #[trigger] self@.contains_key(k) <==> self.keys().contains(k),
            forall|i: int|
                0 <= i < self.keys().len() ==> #[trigger] self@.contains_key(self.keys()[i]),
    {
        proof {
            use_type_invariant(self);
            assert forall|i: int| 0 <= i < self.keys().len() implies #[trigger] self@.contains_key(
                self.keys()[i],
            ) by {
                self.lemma_view_at(i);
            }
        }
        self.entries.len()
    }

    /// Whether the map holds no key.
    pub fn is_empty(&self) -> (b: bool)
        ensures
            b <==> self@.dom() == Set::<Seq<char>>::empty(),
    {
        proof {
            use_type_invariant(self);
        }
        if self.entries.len() == 0 {
            assert(self@.dom() =~= Set::<Seq<char>>::empty());
            true
        } else {
            proof {
                self.lemma_view_at(0);
                assert(self@.dom().contains(self.keys()[0]));
            }
            false
        }
    }

    /// The key at position `i` of the entry order.
    pub fn key_at(&self, i: usize) -> (k: &String)
        requires
            i < self.keys().len(),
        ensures
            k@ == self.keys()[i as int],
            self@.contains_key(k@),
    {
        proof {
            use_type_invariant(self);
            self.lemma_view_at(i as int);
        }
        &self.entries[i].0
    }

    /// The value at position `i` of the entry order.
    pub fn value_at(&self, i: usize) -> (v: &V)
        requires
            i < self.keys().len(),
        ensures
            self@.contains_key(self.keys()[i as int]),
            *v == self@[self.keys()[i as int]],
    {
        proof {
            use_type_invariant(self);
            self.lemma_view_at(i as int);
        }
        &self.entries[i].1
    }

    /// The position of `k`, if it is a key.
    fn position(&self, k: &String) -> (r: Option<usize>)
        ensures
            match r {
                Some(i) => i < self.keys().len() && self.keys()[i as int] == k@,
                None => !self.keys().contains(k@),
            },
    {
        let n = self.entries.len();
        let mut i: usize = 0;
        while i < n
            invariant
                n == self.entries@.len(),
                i <= n,
                forall|j: int| 0 <= j < i ==> self.keys()[j] != k@,
            decreases n - i,
        {
            if self.entries[i].0 == *k {
                return Some(i);
            }
            i = i + 1;
        }
        None
    }

    /// Whether `k` is a key.
    pub fn contains_key(&self, k: &str) -> (b: bool)
        ensures
            b == self@.contains_key(k@),
    {
        let key = k.to_owned();
        match self.position(&key) {
            Some(_) => true,
            None => false,
        }
    }

    /// The value stored under `k`.
    pub fn get(&self, k: &str) -> (r: Option<&V>)
        ensures
            match r {
                Some(v) => self@.contains_key(k@) && *v == self@[k@],
                None => !self@.contains_key(k@),
            },
    {
        proof {
            use_type_invariant(self);
        }
        let key = k.to_owned();
        match self.position(&key) {
            Some(i) => {
                proof {
                    self.lemma_view_at(i as int);
                }
                Some(&self.entries[i].1)
            },
            None => None,
        }
    }

    /// Stores `v` under `k`, replacing the value that was there; a new key goes last.
    pub fn insert(&mut self, k: String, v: V)
        ensures
            final(self)@ == old(self)@.insert(k@, v),
            old(self)@.contains_key(k@) ==> final(self).keys() == old(self).keys(),
            !old(self)@.contains_key(k@) ==> final(self).keys() == old(self).keys().push(k@),
    {
        proof {
            use_type_invariant(&*self);
        }
        let ghost old_keys = self.keys();
        let ghost old_view = self@;
        let pos = self.position(&k);
        let mut entries: Vec<(String, V)> = Vec::new();
        std::mem::swap(&mut entries, &mut self.entries);
        let ghost old_entries = entries@;
        match pos {
            Some(i) => {
                entries.set(i, (k, v));
                assert(entries@.map_values(|e: (String, V)| e.0@) =~= old_keys);
            },
            None => {
                entries.push((k, v));
                assert(entries@.map_values(|e: (String, V)| e.0@) =~= old_keys.push(k@));
            },
        }
        self.entries = entries;
        proof {
            assert forall|key: Seq<char>| #[trigger] self@.contains_key(key) <==> old_view.insert(k@, v).contains_key(key) by {
                if old_view.contains_key(key) {
                    let j = old_keys.index_of(key);
                    assert(self.keys()[j] == old_keys[j]);
                }
                if key == k@ && pos is None {
                    assert(self.keys()[old_keys.len() as int] == k@);
                }
            }
            assert forall|key: Seq<char>| #[trigger] self@.contains_key(key) implies self@[key] == old_view.insert(k@, v)[key] by {
                let j = self.keys().index_of(key);
                self.lemma_view_at(j);
                if key != k@ {
                    old(self).lemma_view_at(j);
                }
            }
            assert(self@ =~= old_view.insert(k@, v));
        }
    }

    /// Removes `k` and its value; the other entries keep their order.
    pub fn remove(&mut self, k: &str)
        ensures
            final(self)@ == old(self)@.remove(k@),
            final(self).keys() == without_keys(old(self).keys(), set![k@]),
    {
        proof {
            use_type_invariant(&*self);
        }
        let ghost old_keys = self.keys();
        let ghost old_view = self@;
        let key = k.to_owned();
        match self.position(&key) {
            Some(i) => {
                let mut entries: Vec<(String, V)> = Vec::new();
                std::mem::swap(&mut entries, &mut self.entries);
                let ghost old_entries = entries@;
                entries.remove(i);
                proof {
                    let nk = entries@.map_values(|e: (String, V)| e.0@);
                    assert(nk =~= old_keys.remove(i as int));
                    lemma_remove_is_without(old_keys, i as int);
                    assert forall|a: int, b: int| 0 <= a < b < nk.len() implies nk[a] != nk[b] by {
                        let oa = if a < i { a } else { a + 1 };
                        let ob = if b < i { b } else { b + 1 };
                        assert(nk[a] == old_keys[oa]);
                        assert(nk[b] == old_keys[ob]);
                    }
                }
                self.entries = entries;
                proof {
                    assert forall|x: Seq<char>| #[trigger] self@.contains_key(x) <==> old_view.remove(k@).contains_key(x) by {
                        if old_view.contains_key(x) && x != k@ {
                            let j = old_keys.index_of(x);
                            assert(j != i);
                            let nj = if j < i { j } else { j - 1 };
                            assert(self.keys()[nj] == x);
                        }
                        if self@.contains_key(x) {
                            let j = self.keys().index_of(x);
                            let oj = if j < i { j } else { j + 1 };
                            assert(old_keys[oj] == x);
                        }
                    }
                    assert forall|x: Seq<char>| #[trigger] self@.contains_key(x) implies self@[x] == old_view.remove(k@)[x] by {
                        let j = self.keys().index_of(x);
                        self.lemma_view_at(j);
                        let oj = if j < i { j } else { j + 1 };
                        assert(old_keys[oj] == x);
                        old(self).lemma_view_at(oj);
                    }
                    assert(self@ =~= old_view.remove(k@));
                }
            },
            None => {
                proof {
                    assert(self@ =~= old_view.remove(k@));
                    assert forall|j: int| 0 <= j < old_keys.len() implies !set![k@].contains(#[trigger] old_keys[j]) by {
                        if old_keys[j] == k@ {
                            assert(old_keys.contains(k@));
                        }
                    }
                    lemma_without_absent(old_keys, set![k@]);
                }
            },
        }
    }
}

impl<V: Clone> Clone for StrMap<V> {
    /// A copy with the same keys in the same order; each value is a clone.
    fn clone(&self) -> (res: Self)
        ensures
            res.keys() == self.keys(),
            res@.dom() == self@.dom(),
            forall|k: Seq<char>| #[trigger] res@.contains_key(k) ==> cloned::<V>(self@[k], res@[k]),
    {
        proof {
            use_type_invariant(self);
        }
        let n = self.entries.len();
        let mut entries: Vec<(String, V)> = Vec::new();
        let mut i: usize = 0;
        while i < n
            invariant
                n == self.entries@.len(),
                i <= n,
                entries@.len() == i,
                forall|j: int| 0 <= j < i ==> #[trigger] entries@[j].0@ == self.entries@[j].0@,
                forall|j: int| 0 <= j < i ==> cloned::<V>(self.entries@[j].1, #[trigger] entries@[j].1),
            decreases n - i,
        {
            let key = self.entries[i].0.clone();
            let value = self.entries[i].1.clone();
            entries.push((key, value));
            i = i + 1;
        }
        proof {
            assert(entries@.map_values(|e: (String, V)| e.0@) =~= self.keys());
        }
        let res = StrMap { entries };
        proof {
            assert forall|k: Seq<char>| #[trigger] res@.contains_key(k) <==> self@.contains_key(k) by {}
            assert(res@.dom() =~= self@.dom());
            assert forall|k: Seq<char>| #[trigger] res@.contains_key(k) implies cloned::<V>(self@[k], res@[k]) by {
                let j = res.keys().index_of(k);
                res.lemma_view_at(j);
                self.lemma_view_at(j);
            }
        }
        res
    }
}

} // verus!
