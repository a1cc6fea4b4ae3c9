//! The replicated add/remove set: for each item the last operation (add or
//! remove) that is known, with its vector clock.

use vstd::prelude::*;
use crate::clock::unix_now_secs;
use crate::str_map::{keys_with, keys_with_all, lemma_without_absent, lemma_without_twice, without_keys, StrMap};
use crate::vclock::{clock_concurrent, clock_join, clock_le, clock_tick, count, VClock};

verus! {

/// What an operation does to its item.
#[derive(Clone, Copy, Debug, PartialEq, Eq, Structural)]
pub enum OpKind {
    Add,
    Remove,
}

/// One operation on an item.
#[derive(Debug)]
pub struct Op {
    pub kind: OpKind,
    /// Unix timestamp in seconds.
    pub wall_time: u64,
    pub vclock: VClock,
}

/// The mathematical value of an operation.
pub struct OpView {
    pub kind: OpKind,
    pub wall_time: u64,
    pub clock: Map<Seq<char>, u64>,
}

impl View for Op {
    type V = OpView;

    open spec fn view(&self) -> OpView {
        OpView { kind: self.kind, wall_time: self.wall_time, clock: self.vclock@ }
    }
}

impl Clone for Op {
    fn clone(&self) -> (c: Self)
        ensures
            c@ == self@,
    {
        Op { kind: self.kind, wall_time: self.wall_time, vclock: self.vclock.clone() }
    }
}

/// The state of one item: the last known operation on it.
#[derive(Debug)]
pub struct ItemState {
    pub last: Op,
}

impl View for ItemState {
    type V = OpView;

    open spec fn view(&self) -> OpView {
        self.last@
    }
}

impl Clone for ItemState {
    fn clone(&self) -> (c: Self)
        ensures
            c@ == self@,
    {
        ItemState { last: self.last.clone() }
    }
}

/// The set: each item id with its state, and the largest clock seen so far.
#[derive(Debug)]
pub struct RWSet {
    pub items: StrMap<ItemState>,
    pub frontier: VClock,
}

/// The mathematical value of a set.
#[verifier::ext_equal]
pub struct RWSetView {
    pub items: Map<Seq<char>, OpView>,
    pub frontier: Map<Seq<char>, u64>,
}

impl View for RWSet {
    type V = RWSetView;

    open spec fn view(&self) -> RWSetView {
        RWSetView { items: self.items@.map_values(|s: ItemState| s@), frontier: self.frontier@ }
    }
}

/// An incoming operation `new` takes the place of the current one `cur` when `cur`'s
/// clock is at or below `new`'s, except that a removal takes the place of an
/// addition only when it is strictly newer. When the two clocks are concurrent,
/// `new` takes the place of `cur` when `cur` is a removal: the removal is applied
/// first and the addition after it.
pub open spec fn supersedes(cur: OpView, new: OpView) -> bool {
    ||| clock_le(cur.clock, new.clock) && (!clock_le(new.clock, cur.clock) || !(new.kind == OpKind::Remove
        && cur.kind == OpKind::Add))
    ||| clock_concurrent(cur.clock, new.clock) && cur.kind == OpKind::Remove
}

/// The state after applying operation `op` to item `id`: the operation is recorded
/// if the item is new or the operation supersedes the current one, and its clock
/// is merged into the frontier in any case, so that the frontier is the largest
/// clock seen.
pub open spec fn apply_spec(s: RWSetView, id: Seq<char>, op: OpView) -> RWSetView {
    RWSetView {
        items: if !s.items.contains_key(id) || supersedes(s.items[id], op) {
            s.items.insert(id, op)
        } else {
            s.items
        },
        frontier: clock_join(s.frontier, op.clock),
    }
}

/// The frontier is above the clock of every item.
pub open spec fn frontier_covers(s: RWSetView) -> bool {
    forall|k: Seq<char>| #[trigger] s.items.contains_key(k) ==> clock_le(s.items[k].clock, s.frontier)
}

/// A fresh local operation of replica `me`: its clock is the frontier ticked for `me`.
pub open spec fn local_op(s: RWSetView, me: Seq<char>, kind: OpKind, now: u64) -> OpView {
    OpView { kind, wall_time: now, clock: clock_tick(s.frontier, me) }
}


/// The ids of the removals in `s` that have expired at time `now`.
pub open spec fn expired_ids(s: RWSetView, ttl: u64, now: u64) -> Set<Seq<char>> {
    Set::new(|k: Seq<char>| s.items.contains_key(k) && expired(s.items[k], ttl, now))
}

/// The state after applying, in the order of `ids`, the operations that `ops` holds for them.
pub open spec fn merge_spec(s: RWSetView, ops: Map<Seq<char>, OpView>, ids: Seq<Seq<char>>) -> RWSetView
    decreases ids.len(),
{
    if ids.len() == 0 {
        s
    } else {
        apply_spec(merge_spec(s, ops, ids.drop_last()), ids.last(), ops[ids.last()])
    }
}

/// A removal older than `ttl` seconds at time `now`; a removal stamped later than
/// `now` has not expired.
pub open spec fn expired(op: OpView, ttl: u64, now: u64) -> bool {
    op.kind == OpKind::Remove && op.wall_time <= now && now - op.wall_time > ttl
}

/// The state without the removals that have expired at time `now`.
pub open spec fn gc_spec(s: RWSetView, ttl: u64, now: u64) -> RWSetView {
    RWSetView {
        items: Map::new(
            |k: Seq<char>| s.items.contains_key(k) && !expired(s.items[k], ttl, now),
            |k: Seq<char>| s.items[k],
        ),
        frontier: s.frontier,
    }
}

/// `o` is the last operation of an item of `s` that a remote replica does not list
/// as live, or whose clock is not below the remote's frontier.
pub open spec fn lacked_by_remote(
    s: RWSetView,
    remote_live: Set<Seq<char>>,
    remote_frontier: Map<Seq<char>, u64>,
    o: OpView,
) -> bool {
    exists|k: Seq<char>|
        #![trigger s.items[k]]
        s.items.contains_key(k) && o == s.items[k] && (!remote_live.contains(k) || !clock_le(
            s.items[k].clock,
            remote_frontier,
        ))
}

/// The values of a sequence of operations.
pub open spec fn op_views(v: Seq<Op>) -> Seq<OpView> {
    v.map_values(|o: Op| o@)
}

/// The character sequences of a sequence of strings.
pub open spec fn string_views(v: Seq<String>) -> Seq<Seq<char>> {
    v.map_values(|x: String| x@)
}

/// The ids among `ids` whose last operation is an addition, in the same order.
pub open spec fn live_keys(s: RWSetView, ids: Seq<Seq<char>>) -> Seq<Seq<char>>
    decreases ids.len(),
{
    if ids.len() == 0 {
        Seq::empty()
    } else {
        let rest = live_keys(s, ids.drop_last());
        if s.items[ids.last()].kind == OpKind::Add {
            rest.push(ids.last())
        } else {
            rest
        }
    }
}

/// A remote replica lacks the last operation on `id` when it does not list `id` as
/// live, or when its frontier is not above the operation's clock.
pub open spec fn missing_at_remote(
    op: OpView,
    id: Seq<char>,
    remote_live: Set<Seq<char>>,
    remote_frontier: Map<Seq<char>, u64>,
) -> bool {
    !remote_live.contains(id) || !clock_le(op.clock, remote_frontier)
}

/// The last operations, taken in the order of `ids`, that a remote replica lacks.
pub open spec fn missing_ops(
    s: RWSetView,
    ids: Seq<Seq<char>>,
    remote_live: Set<Seq<char>>,
    remote_frontier: Map<Seq<char>, u64>,
) -> Seq<OpView>
    decreases ids.len(),
{
    if ids.len() == 0 {
        Seq::empty()
    } else {
        let rest = missing_ops(s, ids.drop_last(), remote_live, remote_frontier);
        let id = ids.last();
        if missing_at_remote(s.items[id], id, remote_live, remote_frontier) {
            rest.push(s.items[id])
        } else {
            rest
        }
    }
}

/// An id is listed by `live_keys` exactly when it is among `ids` and its last operation
/// is an addition.
pub proof fn lemma_live_keys(s: RWSetView, ids: Seq<Seq<char>>)
    ensures
        forall|k: Seq<char>|
            #[trigger] live_keys(s, ids).contains(k) <==> (ids.contains(k) && s.items[k].kind == OpKind::Add),
    decreases ids.len(),
{
    if ids.len() > 0 {
        let pre = ids.drop_last();
        lemma_live_keys(s, pre);
        assert forall|k: Seq<char>| #[trigger] live_keys(s, ids).contains(k) <==> (ids.contains(k) && s.items[k].kind == OpKind::Add) by {
            let rest = live_keys(s, pre);
            if ids.contains(k) && k != ids.last() {
                let j = ids.index_of(k);
                assert(pre[j] == k);
            }
            if pre.contains(k) {
                let j = pre.index_of(k);
                assert(ids[j] == k);
            }
            if s.items[ids.last()].kind == OpKind::Add {
                assert(rest.push(ids.last())[rest.len() as int] == ids.last());
                if rest.push(ids.last()).contains(k) && k != ids.last() {
                    let j = rest.push(ids.last()).index_of(k);
                    assert(rest[j] == k);
                }
                if rest.contains(k) {
                    let j = rest.index_of(k);
                    assert(rest.push(ids.last())[j] == k);
                }
            }
            assert(ids[ids.len() - 1] == ids.last());
        }
    }
}

/// Applying an operation never moves the frontier back, and the frontier then covers
/// the operation's clock.
pub proof fn lemma_apply_frontier_grows(s: RWSetView, id: Seq<char>, op: OpView)
    ensures
        clock_le(s.frontier, apply_spec(s, id, op).frontier),
        clock_le(op.clock, apply_spec(s, id, op).frontier),
{
    crate::vclock::lemma_le_reflexive(s.frontier);
    crate::vclock::lemma_join_least_upper_bound(s.frontier, op.clock, s.frontier);
}

/// The frontier stays the largest clock seen: if it covers every item before an
/// operation is applied, it covers every item, and the operation, afterwards.
pub proof fn lemma_apply_keeps_frontier_covering(s: RWSetView, id: Seq<char>, op: OpView)
    requires
        frontier_covers(s),
    ensures
        frontier_covers(apply_spec(s, id, op)),
        clock_le(op.clock, apply_spec(s, id, op).frontier),
{
    let t = apply_spec(s, id, op);
    lemma_apply_frontier_grows(s, id, op);
    assert forall|k: Seq<char>| #[trigger] t.items.contains_key(k) implies clock_le(t.items[k].clock, t.frontier) by {
        if t.items[k] == op {
        } else {
            assert(s.items.contains_key(k) && t.items[k] == s.items[k]);
            crate::vclock::lemma_le_transitive(s.items[k].clock, s.frontier, t.frontier);
        }
    }
}

/// Applying an operation to `id` keeps every item, adds `id`, and leaves the other items as they were.
pub proof fn lemma_apply_touches_only_its_item(s: RWSetView, id: Seq<char>, op: OpView)
    ensures
        apply_spec(s, id, op).items.dom() == s.items.dom().insert(id),
        forall|k: Seq<char>|
            k != id && #[trigger] s.items.contains_key(k) ==> apply_spec(s, id, op).items[k] == s.items[k],
{
    assert(apply_spec(s, id, op).items.dom() =~= s.items.dom().insert(id));
}

/// An addition that is not strictly older than a current removal takes its place.
pub proof fn lemma_addition_replaces_removal(s: RWSetView, id: Seq<char>, op: OpView)
    requires
        s.items.contains_key(id),
        s.items[id].kind == OpKind::Remove,
        op.kind == OpKind::Add,
        !(clock_le(op.clock, s.items[id].clock) && !clock_le(s.items[id].clock, op.clock)),
    ensures
        apply_spec(s, id, op).items[id] == op,
{
}

/// A removal takes the place of a current addition only when it is strictly newer.
pub proof fn lemma_removal_replaces_addition_only_when_newer(s: RWSetView, id: Seq<char>, op: OpView)
    requires
        s.items.contains_key(id),
        s.items[id].kind == OpKind::Add,
        op.kind == OpKind::Remove,
    ensures
        apply_spec(s, id, op).items[id] == op <==> (clock_le(s.items[id].clock, op.clock) && !clock_le(
            op.clock,
            s.items[id].clock,
        )),
{
}

/// An operation strictly older than the current one on its item leaves the items as they were.
pub proof fn lemma_stale_op_ignored(s: RWSetView, id: Seq<char>, op: OpView)
    requires
        s.items.contains_key(id),
        clock_le(op.clock, s.items[id].clock),
        !clock_le(s.items[id].clock, op.clock),
    ensures
        apply_spec(s, id, op).items == s.items,
{
}

/// A local operation by replica `me` takes effect on an item whose current clock the
/// frontier covers (or on a new item).
pub proof fn lemma_local_op_takes_effect(s: RWSetView, me: Seq<char>, id: Seq<char>, kind: OpKind, now: u64)
    requires
        count(s.frontier, me) < u64::MAX,
        s.items.contains_key(id) ==> clock_le(s.items[id].clock, s.frontier),
    ensures
        apply_spec(s, id, local_op(s, me, kind, now)).items[id] == local_op(s, me, kind, now),
{
    crate::vclock::lemma_tick_advances(s.frontier, me);
    if s.items.contains_key(id) {
        crate::vclock::lemma_le_transitive(s.items[id].clock, s.frontier, clock_tick(s.frontier, me));
    }
}

/// After a merge the set holds its own items and every merged id; its frontier only grew.
pub proof fn lemma_merge_keeps_and_adds(s: RWSetView, ops: Map<Seq<char>, OpView>, ids: Seq<Seq<char>>)
    ensures
        forall|k: Seq<char>|
            #[trigger] merge_spec(s, ops, ids).items.contains_key(k) <==> (s.items.contains_key(k) || ids.contains(k)),
        clock_le(s.frontier, merge_spec(s, ops, ids).frontier),
    decreases ids.len(),
{
    if ids.len() == 0 {
        crate::vclock::lemma_le_reflexive(s.frontier);
    } else {
        let pre = ids.drop_last();
        let m = merge_spec(s, ops, pre);
        lemma_merge_keeps_and_adds(s, ops, pre);
        lemma_apply_touches_only_its_item(m, ids.last(), ops[ids.last()]);
        lemma_apply_frontier_grows(m, ids.last(), ops[ids.last()]);
        crate::vclock::lemma_le_transitive(s.frontier, m.frontier, merge_spec(s, ops, ids).frontier);
        assert forall|k: Seq<char>| #[trigger] merge_spec(s, ops, ids).items.contains_key(k) <==> (s.items.contains_key(k) || ids.contains(k)) by {
            if ids.contains(k) && k != ids.last() {
                let j = ids.index_of(k);
                assert(pre[j] == k);
            }
            if pre.contains(k) {
                let j = pre.index_of(k);
                assert(ids[j] == k);
            }
            assert(ids[ids.len() - 1] == ids.last());
        }
    }
}

/// Merging a set's own items into it, in any order of its ids, leaves its items as they were.
pub proof fn lemma_merge_own_items_idempotent(s: RWSetView, ids: Seq<Seq<char>>)
    requires
        forall|j: int| 0 <= j < ids.len() ==> #[trigger] s.items.contains_key(ids[j]),
    ensures
        merge_spec(s, s.items, ids).items == s.items,
    decreases ids.len(),
{
    if ids.len() > 0 {
        let pre = ids.drop_last();
        assert forall|j: int| 0 <= j < pre.len() implies #[trigger] s.items.contains_key(pre[j]) by {
            assert(pre[j] == ids[j]);
        }
        lemma_merge_own_items_idempotent(s, pre);
        let k = ids.last();
        assert(s.items.contains_key(ids[ids.len() - 1]));
        crate::vclock::lemma_le_reflexive(s.items[k].clock);
        assert(merge_spec(s, s.items, ids).items =~= s.items);
    }
}

/// The operation that item holds after `op` is applied to it, given what it held before.
pub open spec fn item_after(cur: Option<OpView>, op: OpView) -> OpView {
    match cur {
        None => op,
        Some(c) => if supersedes(c, op) {
            op
        } else {
            c
        },
    }
}

/// Merging distinct ids touches each of them once: every merged item ends up as
/// `item_after` of what it held before, whatever the frontier is.
pub proof fn lemma_merge_items(s: RWSetView, ops: Map<Seq<char>, OpView>, ids: Seq<Seq<char>>)
    requires
        ids.no_duplicates(),
    ensures
        merge_spec(s, ops, ids).items == Map::new(
            |k: Seq<char>| s.items.contains_key(k) || ids.contains(k),
            |k: Seq<char>|
                if ids.contains(k) {
                    item_after(s.items.get(k), ops[k])
                } else {
                    s.items[k]
                },
        ),
    decreases ids.len(),
{
    let target = Map::new(
        |k: Seq<char>| s.items.contains_key(k) || ids.contains(k),
        |k: Seq<char>|
            if ids.contains(k) {
                item_after(s.items.get(k), ops[k])
            } else {
                s.items[k]
            },
    );
    if ids.len() == 0 {
        assert(merge_spec(s, ops, ids).items =~= target);
    } else {
        let pre = ids.drop_last();
        let x = ids.last();
        assert forall|a: int, b: int| 0 <= a < b < pre.len() implies pre[a] != pre[b] by {
            assert(pre[a] == ids[a] && pre[b] == ids[b]);
        }
        lemma_merge_items(s, ops, pre);
        assert(!pre.contains(x)) by {
            if pre.contains(x) {
                let j = pre.index_of(x);
                assert(ids[j] == ids[ids.len() - 1]);
            }
        }
        assert forall|k: Seq<char>| ids.contains(k) <==> (pre.contains(k) || k == x) by {
            if ids.contains(k) && k != x {
                let j = ids.index_of(k);
                assert(j < ids.len() - 1);
                assert(pre[j] == k);
            }
            if pre.contains(k) {
                let j = pre.index_of(k);
                assert(ids[j] == k);
            }
            if k == x {
                assert(ids[ids.len() - 1] == k);
            }
        }
        assert(merge_spec(s, ops, ids).items =~= target);
    }
}

/// Receiving the same operations twice is the same as receiving them once, item by item.
pub proof fn lemma_merge_idempotent(s: RWSetView, ops: Map<Seq<char>, OpView>, ids: Seq<Seq<char>>)
    requires
        ids.no_duplicates(),
    ensures
        merge_spec(merge_spec(s, ops, ids), ops, ids).items == merge_spec(s, ops, ids).items,
{
    let once = merge_spec(s, ops, ids);
    lemma_merge_items(s, ops, ids);
    lemma_merge_items(once, ops, ids);
    assert forall|k: Seq<char>| #[trigger] once.items.contains_key(k) && ids.contains(k) implies item_after(once.items.get(k), ops[k]) == once.items[k] by {
        crate::vclock::lemma_le_reflexive(ops[k].clock);
    }
    assert(merge_spec(once, ops, ids).items =~= once.items);
}

/// Which of two operations on one item wins does not depend on the order in which
/// they arrive, as far as the kind of the winner goes: the winner is a removal only
/// when both are removals or the removal is strictly newer.
pub proof fn lemma_item_after_kind_symmetric(x: OpView, y: OpView)
    ensures
        item_after(Some(x), y).kind == item_after(Some(y), x).kind,
        item_after(Some(x), y).kind == OpKind::Remove <==> {
            ||| x.kind == OpKind::Remove && y.kind == OpKind::Remove
            ||| y.kind == OpKind::Remove && clock_le(x.clock, y.clock) && !clock_le(y.clock, x.clock)
            ||| x.kind == OpKind::Remove && clock_le(y.clock, x.clock) && !clock_le(x.clock, y.clock)
        },
{
}

/// Merging two sets in either order gives the same ids, each with the same kind of
/// last operation: replicas that exchange their states agree on which ids are live.
pub proof fn lemma_merge_commutes_on_kinds(
    a: RWSetView,
    a_ids: Seq<Seq<char>>,
    b: RWSetView,
    b_ids: Seq<Seq<char>>,
)
    requires
        a_ids.no_duplicates(),
        b_ids.no_duplicates(),
        forall|k: Seq<char>| #[trigger] a.items.contains_key(k) <==> a_ids.contains(k),
        forall|k: Seq<char>| #[trigger] b.items.contains_key(k) <==> b_ids.contains(k),
    ensures
        merge_spec(a, b.items, b_ids).items.dom() == merge_spec(b, a.items, a_ids).items.dom(),
        forall|k: Seq<char>|
            #[trigger] merge_spec(a, b.items, b_ids).items.contains_key(k) ==> merge_spec(a, b.items, b_ids).items[k].kind
                == merge_spec(b, a.items, a_ids).items[k].kind,
{
    let x = merge_spec(a, b.items, b_ids);
    let y = merge_spec(b, a.items, a_ids);
    lemma_merge_items(a, b.items, b_ids);
    lemma_merge_items(b, a.items, a_ids);
    assert(x.items.dom() =~= y.items.dom());
    assert forall|k: Seq<char>| #[trigger] x.items.contains_key(k) implies x.items[k].kind == y.items[k].kind by {
        if a.items.contains_key(k) && b.items.contains_key(k) {
            lemma_item_after_kind_symmetric(a.items[k], b.items[k]);
        }
    }
}

/// The ids that `live_keys` lists are distinct when `ids` are: each live id is listed once.
pub proof fn lemma_live_keys_distinct(s: RWSetView, ids: Seq<Seq<char>>)
    requires
        ids.no_duplicates(),
    ensures
        live_keys(s, ids).no_duplicates(),
    decreases ids.len(),
{
    if ids.len() > 0 {
        let pre = ids.drop_last();
        assert forall|a: int, b: int| 0 <= a < b < pre.len() implies pre[a] != pre[b] by {
            assert(pre[a] == ids[a] && pre[b] == ids[b]);
        }
        lemma_live_keys_distinct(s, pre);
        lemma_live_keys(s, pre);
        let rest = live_keys(s, pre);
        let x = ids.last();
        if s.items[x].kind == OpKind::Add {
            assert(!rest.contains(x)) by {
                if rest.contains(x) {
                    assert(pre.contains(x));
                    let j = pre.index_of(x);
                    assert(ids[j] == ids[ids.len() - 1]);
                }
            }
            let r = rest.push(x);
            assert forall|a: int, b: int| 0 <= a < b < r.len() implies r[a] != r[b] by {
                if b == rest.len() {
                    assert(rest[a] == r[a]);
                    assert(rest.contains(r[a]));
                }
            }
        }
    }
}

/// After merging, the frontier is above the old frontier and above the clock of every
/// merged operation; and if the old frontier covered every item, the new one does too.
pub proof fn lemma_merge_frontier_covers(s: RWSetView, ops: Map<Seq<char>, OpView>, ids: Seq<Seq<char>>)
    ensures
        clock_le(s.frontier, merge_spec(s, ops, ids).frontier),
        forall|j: int| 0 <= j < ids.len() ==> clock_le(#[trigger] ops[ids[j]].clock, merge_spec(s, ops, ids).frontier),
        frontier_covers(s) ==> frontier_covers(merge_spec(s, ops, ids)),
    decreases ids.len(),
{
    if ids.len() == 0 {
        crate::vclock::lemma_le_reflexive(s.frontier);
    } else {
        let pre = ids.drop_last();
        let x = ids.last();
        let m = merge_spec(s, ops, pre);
        let t = merge_spec(s, ops, ids);
        lemma_merge_frontier_covers(s, ops, pre);
        lemma_apply_frontier_grows(m, x, ops[x]);
        crate::vclock::lemma_le_transitive(s.frontier, m.frontier, t.frontier);
        assert forall|j: int| 0 <= j < ids.len() implies clock_le(#[trigger] ops[ids[j]].clock, t.frontier) by {
            if j < ids.len() - 1 {
                assert(pre[j] == ids[j]);
                crate::vclock::lemma_le_transitive(ops[ids[j]].clock, m.frontier, t.frontier);
            } else {
                assert(ids[j] == x);
            }
        }
        if frontier_covers(s) {
            lemma_apply_keeps_frontier_covering(m, x, ops[x]);
        }
    }
}

/// After merging, the frontier is no larger than needed: any clock above the old
/// frontier and above every merged operation's clock is above the new frontier.
pub proof fn lemma_merge_frontier_least(
    s: RWSetView,
    ops: Map<Seq<char>, OpView>,
    ids: Seq<Seq<char>>,
    c: Map<Seq<char>, u64>,
)
    requires
        clock_le(s.frontier, c),
        forall|j: int| 0 <= j < ids.len() ==> clock_le(#[trigger] ops[ids[j]].clock, c),
    ensures
        clock_le(merge_spec(s, ops, ids).frontier, c),
    decreases ids.len(),
{
    if ids.len() > 0 {
        let pre = ids.drop_last();
        let x = ids.last();
        assert forall|j: int| 0 <= j < pre.len() implies clock_le(#[trigger] ops[pre[j]].clock, c) by {
            assert(pre[j] == ids[j]);
        }
        lemma_merge_frontier_least(s, ops, pre, c);
        assert(ids[ids.len() - 1] == x);
        crate::vclock::lemma_join_least_upper_bound(merge_spec(s, ops, pre).frontier, ops[x].clock, c);
    }
}

/// The operations that `missing_ops` lists are exactly those of the ids among `ids` that
/// the remote does not list as live or whose clock is not below the remote frontier.
pub proof fn lemma_missing_ops_contents(
    s: RWSetView,
    ids: Seq<Seq<char>>,
    remote_live: Set<Seq<char>>,
    remote_frontier: Map<Seq<char>, u64>,
)
    ensures
        forall|j: int|
            0 <= j < ids.len() && (!remote_live.contains(#[trigger] ids[j]) || !clock_le(s.items[ids[j]].clock, remote_frontier))
                ==> missing_ops(s, ids, remote_live, remote_frontier).contains(s.items[ids[j]]),
        forall|i: int|
            #![trigger missing_ops(s, ids, remote_live, remote_frontier)[i]]
            0 <= i < missing_ops(s, ids, remote_live, remote_frontier).len() ==> exists|j: int|
                #![trigger ids[j]]
                0 <= j < ids.len() && missing_ops(s, ids, remote_live, remote_frontier)[i] == s.items[ids[j]]
                    && (!remote_live.contains(ids[j]) || !clock_le(s.items[ids[j]].clock, remote_frontier)),
        missing_ops(s, ids, remote_live, remote_frontier).len() <= ids.len(),
    decreases ids.len(),
{
    if ids.len() > 0 {
        let pre = ids.drop_last();
        let x = ids.last();
        lemma_missing_ops_contents(s, pre, remote_live, remote_frontier);
        let rest = missing_ops(s, pre, remote_live, remote_frontier);
        let all = missing_ops(s, ids, remote_live, remote_frontier);
        assert(ids[ids.len() - 1] == x);
        let cond = !remote_live.contains(x) || !clock_le(s.items[x].clock, remote_frontier);
        if cond {
            assert(all == rest.push(s.items[x]));
        } else {
            assert(all == rest);
        }
        assert forall|j: int|
            0 <= j < ids.len() && (!remote_live.contains(#[trigger] ids[j]) || !clock_le(s.items[ids[j]].clock, remote_frontier))
            implies all.contains(s.items[ids[j]]) by {
            if j < ids.len() - 1 {
                assert(pre[j] == ids[j]);
                let i = rest.index_of(s.items[ids[j]]);
                assert(all[i] == rest[i]);
            } else {
                assert(all[all.len() - 1] == s.items[x]);
            }
        }
        assert forall|i: int| #![trigger all[i]] 0 <= i < all.len() implies exists|j: int|
            #![trigger ids[j]]
            0 <= j < ids.len() && all[i] == s.items[ids[j]]
                && (!remote_live.contains(ids[j]) || !clock_le(s.items[ids[j]].clock, remote_frontier)) by {
            if i < rest.len() {
                assert(all[i] == rest[i]);
                let j = choose|j: int|
                    #![trigger pre[j]]
                    0 <= j < pre.len() && rest[i] == s.items[pre[j]]
                        && (!remote_live.contains(pre[j]) || !clock_le(s.items[pre[j]].clock, remote_frontier));
                assert(pre[j] == ids[j]);
            } else {
                let j = ids.len() - 1;
                assert(cond);
                assert(all[i] == s.items[ids[j]]);
            }
        }
    }
}

/// Every operation that `missing_ops` lists is the last operation of an item that
/// the remote does not list as live or whose clock is not below the remote frontier.
pub proof fn lemma_missing_ops_origin(
    s: RWSetView,
    ids: Seq<Seq<char>>,
    remote_live: Set<Seq<char>>,
    remote_frontier: Map<Seq<char>, u64>,
)
    requires
        forall|j: int| 0 <= j < ids.len() ==> #[trigger] s.items.contains_key(ids[j]),
    ensures
        forall|i: int|
            0 <= i < missing_ops(s, ids, remote_live, remote_frontier).len() ==> #[trigger] lacked_by_remote(
                s,
                remote_live,
                remote_frontier,
                missing_ops(s, ids, remote_live, remote_frontier)[i],
            ),
{
    lemma_missing_ops_contents(s, ids, remote_live, remote_frontier);
    let mo = missing_ops(s, ids, remote_live, remote_frontier);
    assert forall|i: int| 0 <= i < mo.len() implies #[trigger] lacked_by_remote(s, remote_live, remote_frontier, mo[i]) by {
        let j = choose|j: int|
            #![trigger ids[j]]
            0 <= j < ids.len() && mo[i] == s.items[ids[j]]
                && (!remote_live.contains(ids[j]) || !clock_le(s.items[ids[j]].clock, remote_frontier));
        assert(s.items.contains_key(ids[j]));
    }
}

/// Garbage collection never changes which ids are live, nor their last operations, nor the frontier.
pub proof fn lemma_gc_keeps_live_items(s: RWSetView, ttl: u64, now: u64)
    ensures
        forall|k: Seq<char>|
            s.items.contains_key(k) && s.items[k].kind == OpKind::Add ==> #[trigger] gc_spec(s, ttl, now).items.contains_key(k)
                && gc_spec(s, ttl, now).items[k] == s.items[k],
        forall|k: Seq<char>|
            #[trigger] gc_spec(s, ttl, now).items.contains_key(k) ==> s.items.contains_key(k) && gc_spec(s, ttl, now).items[k]
                == s.items[k],
        gc_spec(s, ttl, now).frontier == s.frontier,
{
}

impl RWSet {
    /// An empty set with an empty frontier.
    pub fn new() -> (s: RWSet)
        ensures
            s@.items == Map::<Seq<char>, OpView>::empty(),
            s@.frontier == Map::<Seq<char>, u64>::empty(),
            s.items.keys() == Seq::<Seq<char>>::empty(),
    {
        let s = RWSet { items: StrMap::new(), frontier: VClock::new() };
        assert(s@.items =~= Map::<Seq<char>, OpView>::empty());
        s
    }

    /// Applies operation `op` to item `id`: its clock is merged into the frontier; a
    /// first operation is recorded; a later one replaces the current one if its clock
    /// is at or above the current one's (a removal replaces an addition only when
    /// strictly newer), or, when the two are concurrent, if the current one is a
    /// removal: the removal is applied first, and the addition after it.
    pub fn apply(&mut self, id: &str, op: Op)
        ensures
            final(self)@ == apply_spec(old(self)@, id@, op@),
            final(self).items.keys() == keys_with(old(self).items.keys(), id@),
    {
        proof {
            self.items.lemma_keys_are_domain();
        }
        self.frontier.merge_max(&op.vclock);
        if !self.items.contains_key(id) {
            self.items.insert(id.to_owned(), ItemState { last: op });
            assert(self@.items =~= old(self)@.items.insert(id@, op@));
            return;
        }
        let replace = match self.items.get(id) {
            Some(state) => {
                let current = &state.last;
                if current.vclock.less_equal(&op.vclock) {
                    !op.vclock.less_equal(&current.vclock) || !(op.kind == OpKind::Remove
                        && current.kind == OpKind::Add)
                } else if current.vclock.concurrent(&op.vclock) {
                    current.kind == OpKind::Remove
                } else {
                    false
                }
            },
            None => false,
        };
        if replace {
            self.items.insert(id.to_owned(), ItemState { last: op });
            assert(self@.items =~= old(self)@.items.insert(id@, op@));
        } else {
            assert(self@.items =~= old(self)@.items);
        }
    }

    /// A local addition of `id` by replica `me`, stamped with time `now`.
    pub fn add_at(&mut self, me: &str, id: &str, now: u64)
        requires
            count(old(self)@.frontier, me@) < u64::MAX,
        ensures
            final(self)@ == apply_spec(old(self)@, id@, local_op(old(self)@, me@, OpKind::Add, now)),
            final(self)@.frontier == clock_tick(old(self)@.frontier, me@),
            final(self).items.keys() == keys_with(old(self).items.keys(), id@),
    {
        proof {
            crate::vclock::lemma_join_with_tick(self@.frontier, me@);
        }
        let mut new_clock = self.frontier.clone();
        new_clock.inc(me);
        let new_op = Op { kind: OpKind::Add, wall_time: now, vclock: new_clock };
        self.apply(id, new_op);
    }

    /// A local removal of `id` by replica `me`, stamped with time `now`.
    pub fn remove_at(&mut self, me: &str, id: &str, now: u64)
        requires
            count(old(self)@.frontier, me@) < u64::MAX,
        ensures
            final(self)@ == apply_spec(old(self)@, id@, local_op(old(self)@, me@, OpKind::Remove, now)),
            final(self)@.frontier == clock_tick(old(self)@.frontier, me@),
            final(self).items.keys() == keys_with(old(self).items.keys(), id@),
    {
        proof {
            crate::vclock::lemma_join_with_tick(self@.frontier, me@);
        }
        let mut new_clock = self.frontier.clone();
        new_clock.inc(me);
        let new_op = Op { kind: OpKind::Remove, wall_time: now, vclock: new_clock };
        self.apply(id, new_op);
    }

    /// A local addition of `id` by replica `me`, stamped with the current time.
    pub fn add(&mut self, me: &str, id: &str)
        requires
            count(old(self)@.frontier, me@) < u64::MAX,
        ensures
            exists|now: u64|
                final(self)@ == apply_spec(old(self)@, id@, #[trigger] local_op(old(self)@, me@, OpKind::Add, now)),
            final(self)@.frontier == clock_tick(old(self)@.frontier, me@),
            final(self).items.keys() == keys_with(old(self).items.keys(), id@),
    {
        let now = unix_now_secs();
        self.add_at(me, id, now);
    }

    /// A local removal of `id` by replica `me`, stamped with the current time.
    pub fn remove(&mut self, me: &str, id: &str)
        requires
            count(old(self)@.frontier, me@) < u64::MAX,
        ensures
            exists|now: u64|
                final(self)@ == apply_spec(old(self)@, id@, #[trigger] local_op(old(self)@, me@, OpKind::Remove, now)),
            final(self)@.frontier == clock_tick(old(self)@.frontier, me@),
            final(self).items.keys() == keys_with(old(self).items.keys(), id@),
    {
        let now = unix_now_secs();
        self.remove_at(me, id, now);
    }

    /// Drops every removal older than `ttl_secs` seconds at time `now`; a removal
    /// stamped later than `now` is kept.
    pub fn gc_ttl_at(&mut self, ttl_secs: u64, now: u64)
        ensures
            final(self)@ == gc_spec(old(self)@, ttl_secs, now),
            final(self).items.keys() == without_keys(old(self).items.keys(), expired_ids(old(self)@, ttl_secs, now)),
    {
        let ghost s0 = self@;
        let ghost k0 = self.items.keys();
        let n = self.items.len();
        let mut keys_to_remove: Vec<String> = Vec::new();
        let mut i: usize = 0;
        while i < n
            invariant
                self@ == s0,
                self.items.keys() == k0,
                n == self.items.keys().len(),
                i <= n,
                forall|k: Seq<char>| #[trigger] self.items@.contains_key(k) <==> self.items.keys().contains(k),
                forall|j: int| 0 <= j < n ==> #[trigger] self.items@.contains_key(self.items.keys()[j]),
                forall|l: int|
                    0 <= l < keys_to_remove@.len() ==> s0.items.contains_key(#[trigger] keys_to_remove@[l]@)
                        && expired(s0.items[keys_to_remove@[l]@], ttl_secs, now),
                forall|j: int|
                    0 <= j < i && expired(s0.items[#[trigger] self.items.keys()[j]], ttl_secs, now) ==> exists|l: int|
                        0 <= l < keys_to_remove@.len() && #[trigger] keys_to_remove@[l]@ == self.items.keys()[j],
            decreases n - i,
        {
            let id = self.items.key_at(i);
            let op = &self.items.value_at(i).last;
            proof {
                assert(s0.items.contains_key(self.items.keys()[i as int]));
                assert(op@ == s0.items[self.items.keys()[i as int]]);
            }
            let ghost ktr_before = keys_to_remove@;
            if op.kind == OpKind::Remove && op.wall_time <= now && now - op.wall_time > ttl_secs {
                keys_to_remove.push(id.clone());
                proof {
                    let l = keys_to_remove@.len() - 1;
                    assert(keys_to_remove@[l]@ == self.items.keys()[i as int]);
                }
            }
            proof {
                assert forall|jj: int|
                    0 <= jj < i + 1 && expired(s0.items[#[trigger] self.items.keys()[jj]], ttl_secs, now) implies exists|l: int|
                        0 <= l < keys_to_remove@.len() && #[trigger] keys_to_remove@[l]@ == self.items.keys()[jj] by {
                    if jj < i {
                        assert(expired(s0.items[self.items.keys()[jj]], ttl_secs, now));
                        let l = choose|l: int| 0 <= l < ktr_before.len() && #[trigger] ktr_before[l]@ == self.items.keys()[jj];
                        assert(keys_to_remove@[l] == ktr_before[l]);
                    } else {
                        let l = keys_to_remove@.len() - 1;
                        assert(keys_to_remove@[l]@ == self.items.keys()[jj]);
                    }
                }
            }
            i = i + 1;
        }
        let m = keys_to_remove.len();
        let mut j: usize = 0;
        proof {
            lemma_without_absent(
                k0,
                Set::new(|k: Seq<char>| exists|l: int| 0 <= l < j && #[trigger] keys_to_remove@[l]@ == k),
            );
        }
        while j < m
            invariant
                m == keys_to_remove@.len(),
                j <= m,
                self@.frontier == s0.frontier,
                self.items.keys() == without_keys(
                    k0,
                    Set::new(|k: Seq<char>| exists|l: int| 0 <= l < j && #[trigger] keys_to_remove@[l]@ == k),
                ),
                forall|l: int|
                    0 <= l < m ==> s0.items.contains_key(#[trigger] keys_to_remove@[l]@) && expired(
                        s0.items[keys_to_remove@[l]@],
                        ttl_secs,
                        now,
                    ),
                forall|k: Seq<char>|
                    s0.items.contains_key(k) && expired(s0.items[k], ttl_secs, now) ==> exists|l: int|
                        0 <= l < m && #[trigger] keys_to_remove@[l]@ == k,
                self@.items == Map::new(
                    |k: Seq<char>|
                        s0.items.contains_key(k) && !(exists|l: int|
                            0 <= l < j && #[trigger] keys_to_remove@[l]@ == k),
                    |k: Seq<char>| s0.items[k],
                ),
            decreases m - j,
        {
            let ghost before = self@.items;
            let ghost gone = keys_to_remove@[j as int]@;
            self.items.remove(keys_to_remove[j].as_str());
            proof {
                assert(self@.items =~= before.remove(gone));
                let removed = Set::new(|k: Seq<char>| exists|l: int| 0 <= l < j && #[trigger] keys_to_remove@[l]@ == k);
                lemma_without_twice(k0, removed, set![gone]);
                assert(removed.union(set![gone]) =~= Set::new(
                    |k: Seq<char>| exists|l: int| 0 <= l < j + 1 && #[trigger] keys_to_remove@[l]@ == k,
                )) by {
                    assert(keys_to_remove@[j as int]@ == gone);
                    assert forall|k: Seq<char>|
                        (exists|l: int| 0 <= l < j + 1 && #[trigger] keys_to_remove@[l]@ == k) implies removed.union(set![gone]).contains(k) by {
                        let l = choose|l: int| 0 <= l < j + 1 && #[trigger] keys_to_remove@[l]@ == k;
                        if l < j {
                            assert(removed.contains(k));
                        }
                    }
                }
                let target = Map::new(
                    |k: Seq<char>|
                        s0.items.contains_key(k) && !(exists|l: int|
                            0 <= l < j + 1 && #[trigger] keys_to_remove@[l]@ == k),
                    |k: Seq<char>| s0.items[k],
                );
                assert forall|k: Seq<char>| #[trigger] self@.items.contains_key(k) <==> target.contains_key(k) by {
                    if k == gone {
                        assert(keys_to_remove@[j as int]@ == k);
                    } else {
                        assert(self@.items.contains_key(k) == before.contains_key(k));
                        if exists|l: int| 0 <= l < j + 1 && #[trigger] keys_to_remove@[l]@ == k {
                            let l = choose|l: int| 0 <= l < j + 1 && #[trigger] keys_to_remove@[l]@ == k;
                            assert(l < j);
                        }
                    }
                }
                assert(self@.items =~= target);
            }
            j = j + 1;
        }
        proof {
            assert forall|k: Seq<char>| #[trigger] self@.items.contains_key(k) <==> gc_spec(s0, ttl_secs, now).items.contains_key(k) by {
                if s0.items.contains_key(k) && expired(s0.items[k], ttl_secs, now) {
                    let l = choose|l: int| 0 <= l < m && #[trigger] keys_to_remove@[l]@ == k;
                    assert(keys_to_remove@[l]@ == k);
                }
                if exists|l: int| 0 <= l < m && #[trigger] keys_to_remove@[l]@ == k {
                    let l = choose|l: int| 0 <= l < m && #[trigger] keys_to_remove@[l]@ == k;
                    assert(expired(s0.items[keys_to_remove@[l]@], ttl_secs, now));
                }
            }
            assert(self@ =~= gc_spec(s0, ttl_secs, now));
            assert(Set::new(|k: Seq<char>| exists|l: int| 0 <= l < m && #[trigger] keys_to_remove@[l]@ == k) =~= expired_ids(s0, ttl_secs, now)) by {
                assert forall|k: Seq<char>| expired_ids(s0, ttl_secs, now).contains(k) implies (exists|l: int| 0 <= l < m && #[trigger] keys_to_remove@[l]@ == k) by {}
            }
        }
    }

    /// Drops every removal older than `ttl_secs` seconds, by the current time.
    pub fn gc_ttl(&mut self, ttl_secs: u64)
        ensures
            exists|now: u64|
                #[trigger] gc_spec(old(self)@, ttl_secs, now) == final(self)@
                    && final(self).items.keys() == without_keys(old(self).items.keys(), expired_ids(old(self)@, ttl_secs, now)),
    {
        let now = unix_now_secs();
        self.gc_ttl_at(ttl_secs, now);
    }

    /// The ids whose last operation is an addition, in the map's order.
    pub fn live_ids(&self) -> (ids: Vec<String>)
        ensures
            ids@.map_values(|x: String| x@) == live_keys(self@, self.items.keys()),
            string_views(ids@).no_duplicates(),
            forall|k: Seq<char>|
                #[trigger] string_views(ids@).contains(k) <==> (self@.items.contains_key(k)
                    && self@.items[k].kind == OpKind::Add),
    {
        let n = self.items.len();
        let mut ids: Vec<String> = Vec::new();
        let mut i: usize = 0;
        while i < n
            invariant
                n == self.items.keys().len(),
                i <= n,
                forall|j: int| 0 <= j < n ==> #[trigger] self.items@.contains_key(self.items.keys()[j]),
                ids@.map_values(|x: String| x@) == live_keys(self@, self.items.keys().take(i as int)),
            decreases n - i,
        {
            let id = self.items.key_at(i);
            let op = &self.items.value_at(i).last;
            proof {
                let ks = self.items.keys().take(i + 1);
                assert(ks.drop_last() =~= self.items.keys().take(i as int));
                assert(ks.last() == self.items.keys()[i as int]);
                assert(self@.items[ks.last()] == op@);
            }
            if op.kind == OpKind::Add {
                ids.push(id.clone());
                assert(ids@.map_values(|x: String| x@) =~= live_keys(self@, self.items.keys().take(i as int)).push(id@));
            }
            i = i + 1;
        }
        proof {
            assert(self.items.keys().take(n as int) =~= self.items.keys());
            lemma_live_keys(self@, self.items.keys());
            lemma_live_keys_distinct(self@, self.items.keys());
            self.items.lemma_keys_are_domain();
        }
        ids
    }

    /// The last operations that a remote replica lacks: those on ids it does not
    /// list as live, and those whose clock is not below its frontier. The state is
    /// left unchanged.
    pub fn anti_entropy_verify(&mut self, remote_live: &StrMap<VClock>, remote_frontier: &VClock) -> (missing: Vec<Op>)
        ensures
            final(self)@ == old(self)@,
            final(self).items.keys() == old(self).items.keys(),
            missing@.map_values(|o: Op| o@) == missing_ops(
                old(self)@,
                old(self).items.keys(),
                remote_live@.dom(),
                remote_frontier@,
            ),
            forall|k: Seq<char>|
                #[trigger] old(self)@.items.contains_key(k) && (!remote_live@.contains_key(k) || !clock_le(
                    old(self)@.items[k].clock,
                    remote_frontier@,
                )) ==> missing@.map_values(|o: Op| o@).contains(old(self)@.items[k]),
            forall|i: int|
                0 <= i < missing@.len() ==> #[trigger] lacked_by_remote(
                    old(self)@,
                    remote_live@.dom(),
                    remote_frontier@,
                    op_views(missing@)[i],
                ),
            missing@.len() <= old(self).items.keys().len(),
    {
        let n = self.items.len();
        let mut missing_list: Vec<Op> = Vec::new();
        let mut i: usize = 0;
        while i < n
            invariant
                n == self.items.keys().len(),
                i <= n,
                forall|j: int| 0 <= j < n ==> #[trigger] self.items@.contains_key(self.items.keys()[j]),
                missing_list@.map_values(|o: Op| o@) == missing_ops(
                    self@,
                    self.items.keys().take(i as int),
                    remote_live@.dom(),
                    remote_frontier@,
                ),
            decreases n - i,
        {
            let id = self.items.key_at(i);
            let op = &self.items.value_at(i).last;
            proof {
                let ks = self.items.keys().take(i + 1);
                assert(ks.drop_last() =~= self.items.keys().take(i as int));
                assert(ks.last() == self.items.keys()[i as int]);
                assert(self@.items[ks.last()] == op@);
            }
            if !remote_live.contains_key(id.as_str()) || !op.vclock.less_equal(remote_frontier) {
                let c = op.clone();
                missing_list.push(c);
                assert(missing_list@.map_values(|o: Op| o@) =~= missing_ops(
                    self@,
                    self.items.keys().take(i as int),
                    remote_live@.dom(),
                    remote_frontier@,
                ).push(op@));
            }
            i = i + 1;
        }
        proof {
            let ks = self.items.keys();
            assert(ks.take(n as int) =~= ks);
            assert(self@ == old(self)@ && ks == old(self).items.keys());
            self.items.lemma_keys_are_domain();
            lemma_missing_ops_contents(old(self)@, ks, remote_live@.dom(), remote_frontier@);
            let mv = missing_list@.map_values(|o: Op| o@);
            assert(mv == missing_ops(old(self)@, ks, remote_live@.dom(), remote_frontier@));
            assert(mv.len() == missing_list@.len());
            assert forall|k: Seq<char>|
                #[trigger] old(self)@.items.contains_key(k) && (!remote_live@.contains_key(k) || !clock_le(
                    old(self)@.items[k].clock,
                    remote_frontier@,
                )) implies mv.contains(old(self)@.items[k]) by {
                let j = ks.index_of(k);
                assert(ks[j] == k);
            }
            assert(mv == op_views(missing_list@));
            lemma_missing_ops_origin(old(self)@, ks, remote_live@.dom(), remote_frontier@);
        }
        missing_list
    }

    /// Applies every last operation of `other`, item after item in `other`'s order.
    pub fn merge(&mut self, other: &RWSet)
        ensures
            final(self)@ == merge_spec(old(self)@, other@.items, other.items.keys()),
            final(self).items.keys() == keys_with_all(old(self).items.keys(), other.items.keys()),
            forall|k: Seq<char>|
                #[trigger] final(self)@.items.contains_key(k) <==> (old(self)@.items.contains_key(k)
                    || other@.items.contains_key(k)),
            clock_le(old(self)@.frontier, final(self)@.frontier),
            forall|k: Seq<char>|
                #[trigger] other@.items.contains_key(k) ==> clock_le(other@.items[k].clock, final(self)@.frontier),
            forall|c: Map<Seq<char>, u64>|
                clock_le(old(self)@.frontier, c) && (forall|k: Seq<char>|
                    #[trigger] other@.items.contains_key(k) ==> clock_le(other@.items[k].clock, c))
                    ==> #[trigger] clock_le(final(self)@.frontier, c),
            frontier_covers(old(self)@) ==> frontier_covers(final(self)@),
    {
        let n = other.items.len();
        let mut i: usize = 0;
        while i < n
            invariant
                n == other.items.keys().len(),
                i <= n,
                self@ == merge_spec(old(self)@, other@.items, other.items.keys().take(i as int)),
                self.items.keys() == keys_with_all(old(self).items.keys(), other.items.keys().take(i as int)),
            decreases n - i,
        {
            let id = other.items.key_at(i);
            let state = other.items.value_at(i);
            let op = state.last.clone();
            self.apply(id.as_str(), op);
            proof {
                let ids = other.items.keys().take(i + 1);
                assert(ids.drop_last() =~= other.items.keys().take(i as int));
                assert(ids.last() == other.items.keys()[i as int]);
            }
            i = i + 1;
        }
        proof {
            let ids = other.items.keys();
            assert(ids.take(n as int) =~= ids);
            lemma_merge_keeps_and_adds(old(self)@, other@.items, ids);
            lemma_merge_frontier_covers(old(self)@, other@.items, ids);
            assert forall|k: Seq<char>|
                #[trigger] other@.items.contains_key(k) implies clock_le(other@.items[k].clock, self@.frontier) by {
                let j = ids.index_of(k);
                assert(ids[j] == k);
            }
            assert forall|c: Map<Seq<char>, u64>|
                clock_le(old(self)@.frontier, c) && (forall|k: Seq<char>|
                    #[trigger] other@.items.contains_key(k) ==> clock_le(other@.items[k].clock, c))
                    implies #[trigger] clock_le(self@.frontier, c) by {
                assert forall|j: int| 0 <= j < ids.len() implies clock_le(#[trigger] other@.items[ids[j]].clock, c) by {
                    assert(other@.items.contains_key(ids[j]));
                }
                lemma_merge_frontier_least(old(self)@, other@.items, ids, c);
            }
        }
    }
}

impl Clone for RWSet {
    /// A copy with the same items, in the same order, and the same frontier.
    fn clone(&self) -> (c: Self)
        ensures
            c@ == self@,
            c.items.keys() == self.items.keys(),
    {
        let c = RWSet { items: self.items.clone(), frontier: self.frontier.clone() };
        proof {
            assert forall|k: Seq<char>| #[trigger] c@.items.contains_key(k) implies c@.items[k] == self@.items[k] by {
                assert(c.items@.contains_key(k));
            }
            assert(c@.items =~= self@.items);
        }
        c
    }
}

impl Default for RWSet {
    /// An empty set with an empty frontier.
    fn default() -> (s: Self)
        ensures
            s@.items == Map::<Seq<char>, OpView>::empty(),
            s@.frontier == Map::<Seq<char>, u64>::empty(),
            s.items.keys() == Seq::<Seq<char>>::empty(),
    {
        RWSet::new()
    }
}

} // verus!
