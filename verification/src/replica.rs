//! A replica: its own id and its copy of the set.

use vstd::prelude::*;
use crate::crdt_set::{
    apply_spec, expired_ids, gc_spec, lemma_live_keys, live_keys, local_op,
    merge_spec, frontier_covers, string_views, OpKind, RWSet,
};
use crate::str_map::{keys_with, keys_with_all, without_keys, StrMap};
use crate::vclock::{clock_le, clock_tick, count, VClock};

verus! {

/// What a replica keeps between runs: its id and its set.
#[derive(Debug)]
pub struct Snapshot {
    pub me: String,
    pub rset: RWSet,
}

/// A replica named `me` with its copy of the set.
#[derive(Debug)]
pub struct Replica {
    pub me: String,
    pub rset: RWSet,
}

impl Replica {
    /// A replica named `me` that holds `rset`.
    pub fn new(me: &str, rset: RWSet) -> (r: Replica)
        ensures
            r.me@ == me@,
            r.rset@ == rset@,
            r.rset.items.keys() == rset.items.keys(),
    {
        Replica { me: me.to_owned(), rset }
    }

    /// What the replica keeps: its id and a copy of its set.
    pub fn snapshot(&self) -> (s: Snapshot)
        ensures
            s.me@ == self.me@,
            s.rset@ == self.rset@,
            s.rset.items.keys() == self.rset.items.keys(),
    {
        Snapshot { me: self.me.clone(), rset: self.rset.clone() }
    }

    /// Adds `id` as an operation of this replica, stamped with the current time.
    pub fn add(&mut self, id: &str)
        requires
            count(old(self).rset@.frontier, old(self).me@) < u64::MAX,
        ensures
            final(self).me == old(self).me,
            exists|now: u64|
                final(self).rset@ == apply_spec(
                    old(self).rset@,
                    id@,
                    #[trigger] local_op(old(self).rset@, old(self).me@, OpKind::Add, now),
                ),
            final(self).rset@.frontier == clock_tick(old(self).rset@.frontier, old(self).me@),
            final(self).rset.items.keys() == keys_with(old(self).rset.items.keys(), id@),
    {
        self.rset.add(self.me.as_str(), id);
    }

    /// Removes `id` as an operation of this replica, stamped with the current time.
    pub fn remove(&mut self, id: &str)
        requires
            count(old(self).rset@.frontier, old(self).me@) < u64::MAX,
        ensures
            final(self).me == old(self).me,
            exists|now: u64|
                final(self).rset@ == apply_spec(
                    old(self).rset@,
                    id@,
                    #[trigger] local_op(old(self).rset@, old(self).me@, OpKind::Remove, now),
                ),
            final(self).rset@.frontier == clock_tick(old(self).rset@.frontier, old(self).me@),
            final(self).rset.items.keys() == keys_with(old(self).rset.items.keys(), id@),
    {
        self.rset.remove(self.me.as_str(), id);
    }

    /// The live ids: those whose last operation is an addition.
    pub fn list(&self) -> (ids: Vec<String>)
        ensures
            ids@.map_values(|x: String| x@) == live_keys(self.rset@, self.rset.items.keys()),
            string_views(ids@).no_duplicates(),
            forall|k: Seq<char>|
                #[trigger] string_views(ids@).contains(k) <==> (self.rset@.items.contains_key(k)
                    && self.rset@.items[k].kind == OpKind::Add),
    {
        self.rset.live_ids()
    }

    /// Drops the removals older than `ttl_secs` seconds, by the current time.
    pub fn gc_ttl(&mut self, ttl_secs: i64)
        requires
            ttl_secs >= 0,
        ensures
            final(self).me == old(self).me,
            exists|now: u64|
                #[trigger] gc_spec(old(self).rset@, ttl_secs as u64, now) == final(self).rset@
                    && final(self).rset.items.keys() == without_keys(
                    old(self).rset.items.keys(),
                    expired_ids(old(self).rset@, ttl_secs as u64, now),
                ),
    {
        let ttl = ttl_secs as u64;
        self.rset.gc_ttl(ttl);
    }

    /// The clock of the last operation of each live id.
    pub fn live_clocks(&self) -> (m: StrMap<VClock>)
        ensures
            forall|k: Seq<char>|
                #[trigger] m@.contains_key(k) <==> (self.rset@.items.contains_key(k)
                    && self.rset@.items[k].kind == OpKind::Add),
            forall|k: Seq<char>| #[trigger] m@.contains_key(k) ==> m@[k]@ == self.rset@.items[k].clock,
    {
        let ids = self.rset.live_ids();
        let ghost ks = self.rset.items.keys();
        let ghost live = live_keys(self.rset@, ks);
        proof {
            lemma_live_keys(self.rset@, ks);
            self.rset.items.lemma_keys_are_domain();
            assert(ids@.map_values(|x: String| x@) == live);
        }
        let mut m: StrMap<VClock> = StrMap::new();
        let mut j: usize = 0;
        while j < ids.len()
            invariant
                j <= ids@.len(),
                ids@.map_values(|x: String| x@) == live,
                forall|k: Seq<char>| #[trigger] live.contains(k) <==> (ks.contains(k) && self.rset@.items[k].kind == OpKind::Add),
                forall|k: Seq<char>| #[trigger] self.rset.items@.contains_key(k) <==> ks.contains(k),
                ks == self.rset.items.keys(),
                forall|k: Seq<char>|
                    #[trigger] m@.contains_key(k) <==> ids@.take(j as int).map_values(|x: String| x@).contains(k),
                forall|k: Seq<char>| #[trigger] m@.contains_key(k) ==> m@[k]@ == self.rset@.items[k].clock,
            decreases ids@.len() - j,
        {
            let id = &ids[j];
            proof {
                assert(live[j as int] == id@);
                assert(live.contains(id@));
            }
            let ghost before = m@;
            match self.rset.items.get(id.as_str()) {
                Some(state) => {
                    m.insert(id.clone(), state.last.vclock.clone());
                },
                None => {},
            }
            proof {
                let pre = ids@.take(j as int).map_values(|x: String| x@);
                let cur = ids@.take(j + 1).map_values(|x: String| x@);
                assert(cur =~= pre.push(id@));
                assert forall|k: Seq<char>| #[trigger] m@.contains_key(k) <==> cur.contains(k) by {
                    if k == id@ {
                        assert(cur[j as int] == k);
                    } else {
                        if cur.contains(k) {
                            let l = cur.index_of(k);
                            assert(pre[l] == k);
                        }
                        if pre.contains(k) {
                            let l = pre.index_of(k);
                            assert(cur[l] == k);
                        }
                    }
                }
            }
            j = j + 1;
        }
        proof {
            assert(ids@.take(ids@.len() as int) =~= ids@);
        }
        m
    }

    /// Takes in the state of another replica: it checks which of this replica's last
    /// operations the other one lacks, then merges the other's full set into this one.
    pub fn receive_state(&mut self, remote_live: &StrMap<VClock>, remote_frontier: &VClock, full: &RWSet)
        ensures
            final(self).me == old(self).me,
            final(self).rset@ == merge_spec(old(self).rset@, full@.items, full.items.keys()),
            final(self).rset.items.keys() == keys_with_all(old(self).rset.items.keys(), full.items.keys()),
            clock_le(old(self).rset@.frontier, final(self).rset@.frontier),
            forall|k: Seq<char>|
                #[trigger] full@.items.contains_key(k) ==> clock_le(full@.items[k].clock, final(self).rset@.frontier),
            frontier_covers(old(self).rset@) ==> frontier_covers(final(self).rset@),
    {
        let _missing = self.rset.anti_entropy_verify(remote_live, remote_frontier);
        self.rset.merge(full);
    }
}

} // verus!
