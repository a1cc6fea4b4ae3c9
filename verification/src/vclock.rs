//! Vector clocks: one counter per replica, compared pointwise.

use vstd::prelude::*;
use crate::str_map::{keys_with, keys_with_all, StrMap};

verus! {

/// The counter of replica `r` in clock `c`; a replica that is absent counts 0.
pub open spec fn count(c: Map<Seq<char>, u64>, r: Seq<char>) -> int {
    if c.contains_key(r) {
        c[r] as int
    } else {
        0
    }
}

/// `a` has seen no event that `b` has not: each counter of `a` is at most that of `b`.
pub open spec fn clock_le(a: Map<Seq<char>, u64>, b: Map<Seq<char>, u64>) -> bool {
    forall|r: Seq<char>| #[trigger] a.contains_key(r) ==> a[r] <= count(b, r)
}

/// Neither clock dominates the other.
pub open spec fn clock_concurrent(a: Map<Seq<char>, u64>, b: Map<Seq<char>, u64>) -> bool {
    !clock_le(a, b) && !clock_le(b, a)
}

/// The larger of two counters.
pub open spec fn max_count(x: int, y: int) -> int {
    if x < y {
        y
    } else {
        x
    }
}

/// The pointwise maximum of two clocks, over the replicas that either one names.
pub open spec fn clock_join(a: Map<Seq<char>, u64>, b: Map<Seq<char>, u64>) -> Map<Seq<char>, u64> {
    Map::new(
        |r: Seq<char>| a.contains_key(r) || b.contains_key(r),
        |r: Seq<char>| max_count(count(a, r), count(b, r)) as u64,
    )
}

/// The clock `a` after one more event of replica `r`.
pub open spec fn clock_tick(a: Map<Seq<char>, u64>, r: Seq<char>) -> Map<Seq<char>, u64> {
    a.insert(r, (count(a, r) + 1) as u64)
}

/// `a` joined, one replica after the other, with the counters that `b` holds for `ks`.
spec fn join_keys(a: Map<Seq<char>, u64>, b: Map<Seq<char>, u64>, ks: Seq<Seq<char>>) -> Map<Seq<char>, u64>
    decreases ks.len(),
{
    if ks.len() == 0 {
        a
    } else {
        let m = join_keys(a, b, ks.drop_last());
        m.insert(ks.last(), max_count(count(m, ks.last()), b[ks.last()] as int) as u64)
    }
}

proof fn lemma_join_keys(a: Map<Seq<char>, u64>, b: Map<Seq<char>, u64>, ks: Seq<Seq<char>>)
    requires
        ks.no_duplicates(),
        forall|j: int| 0 <= j < ks.len() ==> #[trigger] b.contains_key(ks[j]),
    ensures
        join_keys(a, b, ks) == Map::new(
            |r: Seq<char>| a.contains_key(r) || ks.contains(r),
            |r: Seq<char>|
                if ks.contains(r) {
                    max_count(count(a, r), count(b, r)) as u64
                } else {
                    a[r]
                },
        ),
    decreases ks.len(),
{
    let target = Map::new(
        |r: Seq<char>| a.contains_key(r) || ks.contains(r),
        |r: Seq<char>|
            if ks.contains(r) {
                max_count(count(a, r), count(b, r)) as u64
            } else {
                a[r]
            },
    );
    if ks.len() == 0 {
        assert(join_keys(a, b, ks) =~= target);
    } else {
        let pre = ks.drop_last();
        let x = ks.last();
        assert forall|a1: int, b1: int| 0 <= a1 < b1 < pre.len() implies pre[a1] != pre[b1] by {
            assert(pre[a1] == ks[a1] && pre[b1] == ks[b1]);
        }
        assert forall|j: int| 0 <= j < pre.len() implies #[trigger] b.contains_key(pre[j]) by {
            assert(pre[j] == ks[j]);
        }
        lemma_join_keys(a, b, pre);
        assert(!pre.contains(x)) by {
            if pre.contains(x) {
                let j = pre.index_of(x);
                assert(ks[j] == ks[ks.len() - 1]);
            }
        }
        assert(b.contains_key(x)) by {
            assert(ks[ks.len() - 1] == x);
        }
        assert forall|r: Seq<char>| ks.contains(r) <==> (pre.contains(r) || r == x) by {
            if ks.contains(r) && r != x {
                let j = ks.index_of(r);
                assert(j < ks.len() - 1);
                assert(pre[j] == r);
            }
            if pre.contains(r) {
                let j = pre.index_of(r);
                assert(ks[j] == r);
            }
            if r == x {
                assert(ks[ks.len() - 1] == r);
            }
        }
        assert(join_keys(a, b, ks) =~= target);
    }
}

/// A vector clock: how many operations of each replica have been observed.
/// For example {"A": 5, "B": 3} records five operations of A and three of B.
#[derive(Debug)]
pub struct VClock(pub StrMap<u64>);

impl View for VClock {
    type V = Map<Seq<char>, u64>;

    open spec fn view(&self) -> Map<Seq<char>, u64> {
        self.0@
    }
}

impl VClock {
    /// An empty clock, which has observed nothing.
    pub fn new() -> (c: VClock)
        ensures
            c@ == Map::<Seq<char>, u64>::empty(),
    {
        VClock(StrMap::new())
    }

    /// The counter of replica `replica_id` (0 where it has none).
    pub fn get(&self, replica_id: &str) -> (n: u64)
        ensures
            n == count(self@, replica_id@),
    {
        match self.0.get(replica_id) {
            Some(v) => *v,
            None => 0,
        }
    }

    /// Increments the counter of the given replica.
    pub fn inc(&mut self, replica_id: &str)
        requires
            count(old(self)@, replica_id@) < u64::MAX,
        ensures
            final(self)@ == clock_tick(old(self)@, replica_id@),
            final(self).0.keys() == keys_with(old(self).0.keys(), replica_id@),
    {
        proof {
            self.0.lemma_keys_are_domain();
        }
        let cur = self.get(replica_id);
        self.0.insert(replica_id.to_owned(), cur + 1);
    }

    /// Merges this clock with another by taking the maximum counter per replica.
    pub fn merge_max(&mut self, other: &VClock)
        ensures
            final(self)@ == clock_join(old(self)@, other@),
            final(self).0.keys() == keys_with_all(old(self).0.keys(), other.0.keys()),
    {
        let ghost a = self@;
        let n = other.0.len();
        let mut i: usize = 0;
        while i < n
            invariant
                n == other.0.keys().len(),
                i <= n,
                other.0.keys().no_duplicates(),
                forall|k: Seq<char>| #[trigger] other@.contains_key(k) <==> other.0.keys().contains(k),
                forall|j: int| 0 <= j < n ==> #[trigger] other@.contains_key(other.0.keys()[j]),
                self@ == join_keys(a, other@, other.0.keys().take(i as int)),
                self.0.keys() == keys_with_all(old(self).0.keys(), other.0.keys().take(i as int)),
            decreases n - i,
        {
            let replica = other.0.key_at(i);
            let value = *other.0.value_at(i);
            let mine = self.get(replica.as_str());
            proof {
                self.0.lemma_keys_are_domain();
            }
            if mine < value {
                self.0.insert(replica.clone(), value);
            } else {
                self.0.insert(replica.clone(), mine);
            }
            proof {
                let ks = other.0.keys().take(i + 1);
                assert(ks.drop_last() =~= other.0.keys().take(i as int));
                assert(ks.last() == other.0.keys()[i as int]);
            }
            i = i + 1;
        }
        proof {
            let ks = other.0.keys();
            assert(ks.take(n as int) =~= ks);
            lemma_join_keys(a, other@, ks);
            assert(self@ =~= clock_join(a, other@));
        }
    }

    /// Returns true if this clock is less than or equal to the other clock,
    /// meaning it has seen no events that the other hasn't.
    pub fn less_equal(&self, other: &VClock) -> (b: bool)
        ensures
            b == clock_le(self@, other@),
    {
        let n = self.0.len();
        let mut i: usize = 0;
        while i < n
            invariant
                n == self.0.keys().len(),
                i <= n,
                forall|k: Seq<char>| #[trigger] self@.contains_key(k) <==> self.0.keys().contains(k),
                forall|j: int| 0 <= j < n ==> #[trigger] self@.contains_key(self.0.keys()[j]),
                forall|j: int| 0 <= j < i ==> self@[#[trigger] self.0.keys()[j]] <= count(other@, self.0.keys()[j]),
            decreases n - i,
        {
            let replica = self.0.key_at(i);
            let mine = *self.0.value_at(i);
            let theirs = other.get(replica.as_str());
            if mine > theirs {
                return false;
            }
            i = i + 1;
        }
        proof {
            assert forall|r: Seq<char>| #[trigger] self@.contains_key(r) implies self@[r] <= count(other@, r) by {
                let j = self.0.keys().index_of(r);
                assert(self.0.keys()[j] == r);
            }
        }
        true
    }

    /// Returns true if this and the other clock are concurrent:
    /// neither dominates the other.
    pub fn concurrent(&self, other: &VClock) -> (b: bool)
        ensures
            b == clock_concurrent(self@, other@),
    {
        !self.less_equal(other) && !other.less_equal(self)
    }

    /// Whether every counter of this clock is held, with the same value, by `other`.
    fn agrees_into(&self, other: &VClock) -> (b: bool)
        ensures
            b == (forall|r: Seq<char>| #[trigger] self@.contains_key(r) ==> other@.contains_key(r) && other@[r] == self@[r]),
    {
        let n = self.0.len();
        let mut i: usize = 0;
        while i < n
            invariant
                n == self.0.keys().len(),
                i <= n,
                forall|k: Seq<char>| #[trigger] self@.contains_key(k) <==> self.0.keys().contains(k),
                forall|j: int| 0 <= j < n ==> #[trigger] self@.contains_key(self.0.keys()[j]),
                forall|j: int| 0 <= j < i ==> other@.contains_key(#[trigger] self.0.keys()[j]) && other@[self.0.keys()[j]] == self@[self.0.keys()[j]],
            decreases n - i,
        {
            let replica = self.0.key_at(i);
            let mine = *self.0.value_at(i);
            let key = replica.as_str();
            match other.0.get(key) {
                Some(v) => {
                    if *v != mine {
                        assert(self@.contains_key(key@));
                        return false;
                    }
                },
                None => {
                    assert(self@.contains_key(key@));
                    return false;
                },
            }
            i = i + 1;
        }
        proof {
            assert forall|r: Seq<char>| #[trigger] self@.contains_key(r) implies other@.contains_key(r) && other@[r] == self@[r] by {
                let j = self.0.keys().index_of(r);
                assert(self.0.keys()[j] == r);
            }
        }
        true
    }
}

impl Clone for VClock {
    /// A copy with the same counters.
    fn clone(&self) -> (c: Self)
        ensures
            c@ == self@,
    {
        let c = VClock(self.0.clone());
        proof {
            assert(c@ =~= self@);
        }
        c
    }
}

impl Default for VClock {
    /// The empty clock.
    fn default() -> (c: Self)
        ensures
            c@ == Map::<Seq<char>, u64>::empty(),
    {
        VClock::new()
    }
}

impl PartialEq for VClock {
    fn eq(&self, other: &VClock) -> (b: bool) {
        let b = self.agrees_into(other) && other.agrees_into(self);
        proof {
            if b {
                assert(self@ =~= other@);
            }
        }
        b
    }
}

impl vstd::std_specs::cmp::PartialEqSpecImpl for VClock {
    open spec fn obeys_eq_spec() -> bool {
        true
    }

    /// Two clocks are equal when they hold the same replicas with the same counters.
    open spec fn eq_spec(&self, other: &VClock) -> bool {
        self@ == other@
    }
}

impl Eq for VClock {
}

/// Merging clocks does not depend on their order: `join(a, b) == join(b, a)`.
pub proof fn lemma_join_commutative(a: Map<Seq<char>, u64>, b: Map<Seq<char>, u64>)
    ensures
        clock_join(a, b) == clock_join(b, a),
{
    assert(clock_join(a, b) =~= clock_join(b, a));
}

/// Merging clocks does not depend on grouping: `join(join(a, b), c) == join(a, join(b, c))`.
pub proof fn lemma_join_associative(
    a: Map<Seq<char>, u64>,
    b: Map<Seq<char>, u64>,
    c: Map<Seq<char>, u64>,
)
    ensures
        clock_join(clock_join(a, b), c) == clock_join(a, clock_join(b, c)),
{
    let l = clock_join(clock_join(a, b), c);
    let r = clock_join(a, clock_join(b, c));
    assert forall|k: Seq<char>| l.contains_key(k) implies l[k] == r[k] by {
        assert(count(a, k) >= 0 && count(a, k) <= u64::MAX);
        assert(count(b, k) >= 0 && count(b, k) <= u64::MAX);
        assert(count(c, k) >= 0 && count(c, k) <= u64::MAX);
    }
    assert(l =~= r);
}

/// Merging a clock with itself changes nothing: `join(a, a) == a`.
pub proof fn lemma_join_idempotent(a: Map<Seq<char>, u64>)
    ensures
        clock_join(a, a) == a,
{
    assert(clock_join(a, a) =~= a);
}

/// The merge of two clocks is their least upper bound for `clock_le`.
pub proof fn lemma_join_least_upper_bound(
    a: Map<Seq<char>, u64>,
    b: Map<Seq<char>, u64>,
    c: Map<Seq<char>, u64>,
)
    ensures
        clock_le(a, clock_join(a, b)),
        clock_le(b, clock_join(a, b)),
        clock_le(a, c) && clock_le(b, c) ==> clock_le(clock_join(a, b), c),
{
    let j = clock_join(a, b);
    assert forall|r: Seq<char>| #[trigger] j.contains_key(r) implies count(a, r) <= j[r] && count(b, r) <= j[r] by {
        assert(count(a, r) <= u64::MAX && count(b, r) <= u64::MAX);
    }
    if clock_le(a, c) && clock_le(b, c) {
        assert forall|r: Seq<char>| #[trigger] j.contains_key(r) implies j[r] <= count(c, r) by {
            assert(count(a, r) <= u64::MAX && count(b, r) <= u64::MAX);
            if a.contains_key(r) {
                assert(a[r] <= count(c, r));
            }
            if b.contains_key(r) {
                assert(b[r] <= count(c, r));
            }
        }
    }
}

/// Every clock is below itself.
pub proof fn lemma_le_reflexive(a: Map<Seq<char>, u64>)
    ensures
        clock_le(a, a),
{
}

/// `clock_le` is transitive.
pub proof fn lemma_le_transitive(a: Map<Seq<char>, u64>, b: Map<Seq<char>, u64>, c: Map<Seq<char>, u64>)
    requires
        clock_le(a, b),
        clock_le(b, c),
    ensures
        clock_le(a, c),
{
    assert forall|r: Seq<char>| #[trigger] a.contains_key(r) implies a[r] <= count(c, r) by {
        if b.contains_key(r) {
            assert(b[r] <= count(c, r));
        }
    }
}

/// Two clocks below each other agree on every counter (a missing replica counts 0).
pub proof fn lemma_le_antisymmetric(a: Map<Seq<char>, u64>, b: Map<Seq<char>, u64>)
    requires
        clock_le(a, b),
        clock_le(b, a),
    ensures
        forall|r: Seq<char>| #[trigger] count(a, r) == count(b, r),
{
    assert forall|r: Seq<char>| #[trigger] count(a, r) == count(b, r) by {
        if a.contains_key(r) {
            assert(a[r] <= count(b, r));
        }
        if b.contains_key(r) {
            assert(b[r] <= count(a, r));
        }
    }
}

/// Concurrency is symmetric, and no clock is concurrent with itself.
pub proof fn lemma_concurrent_symmetric_irreflexive(a: Map<Seq<char>, u64>, b: Map<Seq<char>, u64>)
    ensures
        clock_concurrent(a, b) == clock_concurrent(b, a),
        !clock_concurrent(a, a),
{
}

/// Merging a clock with its own tick gives the tick.
pub proof fn lemma_join_with_tick(a: Map<Seq<char>, u64>, r: Seq<char>)
    requires
        count(a, r) < u64::MAX,
    ensures
        clock_join(a, clock_tick(a, r)) == clock_tick(a, r),
{
    assert(clock_join(a, clock_tick(a, r)) =~= clock_tick(a, r));
}

/// A tick strictly advances a clock: the old clock is below the new one, not above it.
pub proof fn lemma_tick_advances(a: Map<Seq<char>, u64>, r: Seq<char>)
    requires
        count(a, r) < u64::MAX,
    ensures
        clock_le(a, clock_tick(a, r)),
        !clock_le(clock_tick(a, r), a),
{
    let t = clock_tick(a, r);
    assert(t.contains_key(r));
    assert forall|k: Seq<char>| #[trigger] a.contains_key(k) implies a[k] <= count(t, k) by {}
}

} // verus!
