//! Every pool evicts in the order in which its replicas were stored: its
//! eviction order holds one entry for every slot that has a replica in it, and no
//! other.
use vstd::prelude::*;

use crate::ops::{OpPublishView, OpPutView};
use crate::services::accounting;
use crate::services::evict;
use crate::services::model;
use crate::services::model::{Entry, ObjectView, PoolView, ReplicaView, StateView};
use crate::services::placing;
use crate::services::removing;
use crate::types::{Device, ObjectSpecView, PlacementView, Retention};

verus! {

// ---- counting entries ----

pub proof fn lemma_times_add(a: Seq<Entry>, b: Seq<Entry>, e: Entry)
    ensures
        model::times(a + b, e) == model::times(a, e) + model::times(b, e),
    decreases b.len(),
{
    if b.len() == 0 {
        assert(a + b =~= a);
    } else {
        assert((a + b).drop_last() =~= a + b.drop_last());
        lemma_times_add(a, b.drop_last(), e);
    }
}

pub proof fn lemma_times_push(a: Seq<Entry>, x: Entry, e: Entry)
    ensures
        model::times(a.push(x), e) == model::times(a, e) + if x == e {
            1nat
        } else {
            0nat
        },
{
    assert(a.push(x).drop_last() =~= a);
}

pub proof fn lemma_times_first(q: Seq<Entry>, e: Entry)
    requires
        q.len() > 0,
    ensures
        model::times(q, e) == model::times(q.drop_first(), e) + if q[0] == e {
            1nat
        } else {
            0nat
        },
{
    assert(q =~= seq![q[0]] + q.drop_first());
    lemma_times_add(seq![q[0]], q.drop_first(), e);
    assert(seq![q[0]].drop_last() =~= Seq::<Entry>::empty());
    assert(model::times(Seq::<Entry>::empty(), e) == 0);
}

pub proof fn lemma_times_there(q: Seq<Entry>, i: int)
    requires
        0 <= i < q.len(),
    ensures
        model::times(q, q[i]) > 0,
    decreases q.len(),
{
    if i < q.len() - 1 {
        lemma_times_there(q.drop_last(), i);
    }
}

pub proof fn lemma_times_none(q: Seq<Entry>, e: Entry)
    requires
        forall|i: int| 0 <= i < q.len() ==> #[trigger] q[i] != e,
    ensures
        model::times(q, e) == 0,
    decreases q.len(),
{
    if q.len() > 0 {
        assert(q[q.len() - 1] != e);
        lemma_times_none(q.drop_last(), e);
    }
}

pub proof fn lemma_times_with(q: Seq<Entry>, keep: spec_fn(Entry) -> bool, e: Entry)
    ensures
        model::times(model::entries_with(q, keep), e) == if keep(e) {
            model::times(q, e)
        } else {
            0
        },
    decreases q.len(),
{
    if q.len() > 0 {
        lemma_times_with(q.drop_last(), keep, e);
        if keep(q.last()) {
            lemma_times_push(model::entries_with(q.drop_last(), keep), q.last(), e);
        }
    }
}

// ---- one slot goes ----

/// The slot that an entry stands for goes from the pool, and no other.
proof fn lemma_evicted_turns(s: StateView, d: Device, entry: Entry, e: Entry, x: Device)
    requires
        s.evictable(entry),
        s.turns_on(entry, d) > 0,
    ensures
        s.evicted(d, entry).turns_on(e, x) == s.turns_on(e, x) - if e == entry && x == d {
            1nat
        } else {
            0nat
        },
{
    let obj = s.objects[entry.0];
    let i = entry.1 as int;
    let slot = obj.slots[i];
    accounting::lemma_without_owned(slot, d);
    let slots = obj.slots.update(i, model::without_owned(slot, d));
    if x != d {
        assert(model::owned_count(model::without_owned(slot, d), x) == model::owned_count(slot, x));
    }
    if e.0 == entry.0 && e.1 < obj.slots.len() && model::all_empty(slots) {
        assert(slots[e.1 as int].len() == 0);
        assert(model::owned_count(slots[e.1 as int], x) == 0);
    }
}

/// Whether every entry of an order stays where room is made for `protect`.
pub open spec fn all_spared(s: StateView, protect: Seq<u8>, q: Seq<Entry>) -> bool {
    forall|i: int| 0 <= i < q.len() ==> s.spared(#[trigger] q[i], protect)
}

/// The entries of an order that stay where room is made for `protect`.
pub open spec fn spared_of(s: StateView, protect: Seq<u8>, q: Seq<Entry>) -> Seq<Entry> {
    model::entries_with(q, |e: Entry| s.spared(e, protect))
}

/// Whether the other pools are in order.
spec fn others_queued(s: StateView, d: Device) -> bool {
    forall|x: Device| #[trigger]
        s.pools.contains_key(x) && x != d ==> s.queues(x, s.pools[x].fifo)
}

/// Whether two states agree on which entries of an order stay.
spec fn same_spared(s: StateView, t: StateView, protect: Seq<u8>, q: Seq<Entry>) -> bool {
    forall|i: int|
        0 <= i < q.len() ==> s.spared(#[trigger] q[i], protect) == t.spared(q[i], protect)
}

proof fn lemma_spared_step(s: StateView, protect: Seq<u8>, q: Seq<Entry>, n: int)
    requires
        0 < n <= q.len(),
    ensures
        spared_of(s, protect, q.take(n)) == if s.spared(q[0], protect) {
            seq![q[0]] + spared_of(s, protect, q.drop_first().take(n - 1))
        } else {
            spared_of(s, protect, q.drop_first().take(n - 1))
        },
    decreases n,
{
    let all = q.take(n);
    let tail = q.drop_first().take(n - 1);
    if n == 1 {
        assert(all.drop_last() =~= Seq::<Entry>::empty());
        assert(tail =~= Seq::<Entry>::empty());
        assert(spared_of(s, protect, Seq::<Entry>::empty()) =~= Seq::<Entry>::empty());
        if s.spared(q[0], protect) {
            assert(spared_of(s, protect, all) =~= seq![q[0]]);
        }
    } else {
        lemma_spared_step(s, protect, q, n - 1);
        assert(all.drop_last() =~= q.take(n - 1));
        assert(tail.drop_last() =~= q.drop_first().take(n - 2));
        assert(all.last() == q[n - 1] && tail.last() == q[n - 1]);
        assert(spared_of(s, protect, all) =~= if s.spared(q[0], protect) {
            seq![q[0]] + spared_of(s, protect, tail)
        } else {
            spared_of(s, protect, tail)
        });
    }
}

/// What draining does to the order: it takes evictable entries off the front,
/// each with its slot, until the bytes fit or none is left.
proof fn lemma_drained_order(
    base: StateView,
    s: StateView,
    d: Device,
    need: nat,
    cap: u64,
    protect: Seq<u8>,
    aside: Seq<Entry>,
) -> (n: nat)
    requires
        s.inv(),
        s.pools.contains_key(d),
        s.queues(d, aside + s.pools[d].fifo),
        others_queued(s, d),
        all_spared(s, protect, aside),
        same_spared(base, s, protect, s.pools[d].fifo),
    ensures
        n <= s.pools[d].fifo.len(),
        ({
            let t = s.drained(d, need, cap, protect, aside);
            &&& t.queued()
            &&& t.pools[d].fifo == aside + spared_of(
                base,
                protect,
                s.pools[d].fifo.take(n as int),
            ) + s.pools[d].fifo.skip(n as int)
            &&& t.pools[d].used + need <= cap || all_spared(t, protect, t.pools[d].fifo)
            &&& n < s.pools[d].fifo.len() ==> t.pools[d].used + need <= cap
        }),
    decreases s.pools[d].fifo.len(),
{
    let pool = s.pools[d];
    let fifo = pool.fifo;
    let t = s.drained(d, need, cap, protect, aside);
    if pool.used + need <= cap || fifo.len() == 0 {
        assert forall|x: Device| #[trigger] t.pools.contains_key(x) implies t.queues(
            x,
            t.pools[x].fifo,
        ) by {
            assert(s.pools.contains_key(x));
            assert forall|e: Entry| #[trigger] model::times(t.pools[x].fifo, e) == t.turns_on(
                e,
                x,
            ) by {
                assert(s.turns_on(e, x) == t.turns_on(e, x));
                if x != d {
                    assert(s.queues(x, s.pools[x].fifo));
                }
            }
        }
        assert(fifo.take(0) =~= Seq::<Entry>::empty());
        assert(fifo.skip(0) =~= fifo);
        assert(aside + spared_of(base, protect, fifo.take(0)) + fifo.skip(0) =~= aside + fifo);
        if fifo.len() == 0 {
            assert(aside + fifo =~= aside);
            assert forall|i: int| 0 <= i < aside.len() implies t.spared(
                #[trigger] aside[i],
                protect,
            ) by {
                assert(s.spared(aside[i], protect));
            }
        }
        0
    } else {
        let first = fifo[0];
        let tail = fifo.drop_first();
        let rest = s.with_pool(d, PoolView { fifo: tail, ..pool });
        evict::lemma_refifo(s, d, tail, protect);
        assert(base.spared(first, protect) == s.spared(first, protect));
        assert forall|e: Entry| model::times(aside + fifo, e) == #[trigger] model::times(
            aside + tail,
            e,
        ) + if e == first {
            1nat
        } else {
            0nat
        } by {
            lemma_times_add(aside, fifo, e);
            lemma_times_add(aside, tail, e);
            lemma_times_first(fifo, e);
        }
        if s.spared(first, protect) {
            let a2 = aside.push(first);
            assert(a2 + tail =~= aside + fifo);
            assert forall|e: Entry| #[trigger] model::times(a2 + tail, e) == rest.turns_on(e, d) by {
                assert(rest.turns_on(e, d) == s.turns_on(e, d));
                assert(model::times(aside + fifo, e) == s.turns_on(e, d));
            }
            assert forall|x: Device| #[trigger] rest.pools.contains_key(x) && x != d implies rest.queues(
                x,
                rest.pools[x].fifo,
            ) by {
                assert(s.queues(x, s.pools[x].fifo));
                assert forall|e: Entry| #[trigger] model::times(rest.pools[x].fifo, e)
                    == rest.turns_on(e, x) by {
                    assert(model::times(s.pools[x].fifo, e) == s.turns_on(e, x));
                }
            }
            assert forall|i: int| 0 <= i < a2.len() implies rest.spared(#[trigger] a2[i], protect) by {
                if i < aside.len() {
                    assert(s.spared(aside[i], protect));
                }
            }
            assert forall|i: int| 0 <= i < tail.len() implies base.spared(
                #[trigger] tail[i],
                protect,
            ) == rest.spared(tail[i], protect) by {
                assert(tail[i] == fifo[i + 1]);
            }
            let n = lemma_drained_order(base, rest, d, need, cap, protect, a2);
            lemma_spared_step(base, protect, fifo, n as int + 1);
            assert(fifo.skip(n as int + 1) =~= tail.skip(n as int));
            assert(a2 + spared_of(base, protect, tail.take(n as int)) + tail.skip(n as int)
                =~= aside + spared_of(base, protect, fifo.take(n as int + 1)) + fifo.skip(
                n as int + 1,
            ));
            n + 1
        } else {
            let next = rest.evicted(d, first);
            lemma_times_there(aside + fifo, aside.len() as int);
            assert((aside + fifo)[aside.len() as int] == first);
            assert(s.turns_on(first, d) > 0);
            assert(rest.evictable(first) && rest.turns_on(first, d) > 0);
            evict::lemma_evicted(rest, d, first, protect);
            assert forall|e: Entry| #[trigger] model::times(aside + tail, e) == next.turns_on(e, d) by {
                lemma_evicted_turns(rest, d, first, e, d);
                assert(rest.turns_on(e, d) == s.turns_on(e, d));
                assert(model::times(aside + fifo, e) == s.turns_on(e, d));
            }
            assert forall|x: Device| #[trigger] next.pools.contains_key(x) && x != d implies next.queues(
                x,
                next.pools[x].fifo,
            ) by {
                assert(rest.pools.contains_key(x));
                assert(next.pools[x] == s.pools[x]);
                assert(s.queues(x, s.pools[x].fifo));
                assert forall|e: Entry| #[trigger] model::times(next.pools[x].fifo, e)
                    == next.turns_on(e, x) by {
                    lemma_evicted_turns(rest, d, first, e, x);
                    assert(model::times(s.pools[x].fifo, e) == s.turns_on(e, x));
                    assert(rest.turns_on(e, x) == s.turns_on(e, x));
                }
            }
            assert forall|i: int| 0 <= i < aside.len() implies next.spared(
                #[trigger] aside[i],
                protect,
            ) by {
                assert(s.spared(aside[i], protect));
                if next.objects.contains_key(aside[i].0) {
                    assert(rest.objects.contains_key(aside[i].0));
                }
            }
            assert forall|i: int| 0 <= i < tail.len() implies base.spared(
                #[trigger] tail[i],
                protect,
            ) == next.spared(tail[i], protect) by {
                assert(tail[i] == fifo[i + 1]);
                assert((aside + tail)[aside.len() + i] == tail[i]);
                lemma_times_there(aside + tail, aside.len() + i);
                assert(next.turns_on(tail[i], d) > 0);
                assert(next.objects.contains_key(tail[i].0));
                assert(rest.objects.contains_key(tail[i].0));
            }
            assert(next.pools[d].fifo == tail);
            let n = lemma_drained_order(base, next, d, need, cap, protect, aside);
            lemma_spared_step(base, protect, fifo, n as int + 1);
            assert(fifo.skip(n as int + 1) =~= tail.skip(n as int));
            n + 1
        }
    }
}

/// Room is made oldest first: what goes from the order is the evictable entries
/// among its first `n`, each with the slot that it stands for. An evictable slot
/// stays only if every one that was stored after it stays.
pub proof fn law_oldest_go_first(s: StateView, d: Device, need: nat, protect: Seq<u8>) -> (n: nat)
    requires
        s.inv(),
        s.queued(),
        s.pools.contains_key(d),
    ensures
        n <= s.pools[d].fifo.len(),
        ({
            let t = s.make_room(d, need, protect).0;
            &&& t.queued()
            &&& t.pools[d].fifo == spared_of(s, protect, s.pools[d].fifo.take(n as int))
                + s.pools[d].fifo.skip(n as int)
            &&& n > 0 && n < s.pools[d].fifo.len() ==> s.make_room(d, need, protect).1
        }),
{
    let fifo = s.pools[d].fifo;
    assert(fifo.take(0) =~= Seq::<Entry>::empty());
    assert(fifo.skip(0) =~= fifo);
    assert(spared_of(s, protect, fifo.take(0)) + fifo.skip(0) =~= fifo);
    match s.pools[d].capacity {
        Some(cap) => if need <= cap {
            let none = Seq::<Entry>::empty();
            assert(none + fifo =~= fifo);
            assert(s.queues(d, fifo));
            let n = lemma_drained_order(s, s, d, need, cap, protect, none);
            assert(none + spared_of(s, protect, fifo.take(n as int)) + fifo.skip(n as int)
                =~= spared_of(s, protect, fifo.take(n as int)) + fifo.skip(n as int));
            n
        } else {
            0
        },
        None => 0,
    }
}

// ---- when there is room ----

/// The objects that room is never made from, where it is made for `protect`.
pub open spec fn fixed(objects: Map<Seq<u8>, ObjectView>, protect: Seq<u8>) -> Map<
    Seq<u8>,
    ObjectView,
> {
    objects.restrict(
        objects.dom().filter(
            |k: Seq<u8>| k == protect || objects[k].spec.retention != Retention::Cache,
        ),
    )
}

proof fn lemma_fixed_within(objects: Map<Seq<u8>, ObjectView>, protect: Seq<u8>, d: Device)
    requires
        objects.dom().finite(),
    ensures
        model::held(fixed(objects, protect), d) <= model::held(objects, d),
        (forall|k: Seq<u8>| #[trigger]
            objects.contains_key(k) && !fixed(objects, protect).contains_key(k) ==> model::slots_len(
                objects[k].slots,
                d,
            ) == 0) ==> model::held(fixed(objects, protect), d) == model::held(objects, d),
    decreases objects.dom().len(),
{
    let f = fixed(objects, protect);
    assert(f.dom() =~= objects.dom().filter(
        |k: Seq<u8>| k == protect || objects[k].spec.retention != Retention::Cache,
    ));
    if objects.dom().len() == 0 {
        assert(f =~= objects);
    } else {
        let k = objects.dom().choose();
        assert(objects.contains_key(k));
        let less = objects.remove(k);
        assert(less.dom() =~= objects.dom().remove(k));
        lemma_fixed_within(less, protect, d);
        accounting::lemma_held_remove(objects, d, k);
        if f.contains_key(k) {
            accounting::lemma_held_remove(f, d, k);
            assert(f.remove(k) =~= fixed(less, protect));
        } else {
            assert(f =~= fixed(less, protect));
        }
        if forall|x: Seq<u8>| #[trigger]
            objects.contains_key(x) && !f.contains_key(x) ==> model::slots_len(objects[x].slots, d)
                == 0 {
            assert forall|x: Seq<u8>| #[trigger]
                less.contains_key(x) && !fixed(less, protect).contains_key(x) implies model::slots_len(
                less[x].slots,
                d,
            ) == 0 by {
                assert(objects.contains_key(x));
                assert(!f.contains_key(x));
            }
        }
    }
}

proof fn lemma_no_copies(slots: Seq<Seq<ReplicaView>>, d: Device)
    requires
        forall|i: int| 0 <= i < slots.len() ==> model::owned_count(#[trigger] slots[i], d) == 0,
    ensures
        model::slots_len(slots, d) == 0,
    decreases slots.len(),
{
    if slots.len() > 0 {
        assert(model::owned_count(slots[slots.len() - 1], d) == 0);
        lemma_no_copies_slot(slots.last(), d);
        assert forall|i: int| 0 <= i < slots.len() - 1 implies model::owned_count(
            #[trigger] slots.drop_last()[i],
            d,
        ) == 0 by {
            assert(model::owned_count(slots[i], d) == 0);
        }
        lemma_no_copies(slots.drop_last(), d);
    }
}

proof fn lemma_no_copies_slot(slot: Seq<ReplicaView>, d: Device)
    requires
        model::owned_count(slot, d) == 0,
    ensures
        model::owned_len(slot, d) == 0,
    decreases slot.len(),
{
    if slot.len() > 0 {
        lemma_no_copies_slot(slot.drop_last(), d);
    }
}

/// There is room exactly if there is once everything that may go has gone: what
/// may not go, with the bytes asked for, is within the limit.
pub proof fn law_room_is_found_where_there_is_any(
    s: StateView,
    d: Device,
    need: nat,
    protect: Seq<u8>,
)
    requires
        s.inv(),
        s.queued(),
        s.pools.contains_key(d),
    ensures
        s.make_room(d, need, protect).1 <==> match s.pools[d].capacity {
            None => true,
            Some(cap) => model::held(fixed(s.objects, protect), d) + need <= cap,
        },
{
    lemma_fixed_within(s.objects, protect, d);
    if let Some(cap) = s.pools[d].capacity {
        if need <= cap {
            evict::law_make_room_only_evicts(s, d, need, protect);
            let t = s.make_room(d, need, protect).0;
            let none = Seq::<Entry>::empty();
            assert(none + s.pools[d].fifo =~= s.pools[d].fifo);
            assert(s.queues(d, s.pools[d].fifo));
            let n = lemma_drained_order(s, s, d, need, cap, protect, none);
            lemma_fixed_within(t.objects, protect, d);
            assert(t.pools.contains_key(d));
            assert(fixed(t.objects, protect) =~= fixed(s.objects, protect)) by {
                assert forall|k: Seq<u8>| #[trigger]
                    fixed(t.objects, protect).contains_key(k) <==> fixed(
                        s.objects,
                        protect,
                    ).contains_key(k) by {
                    if s.objects.contains_key(k) && (k == protect || s.objects[k].spec.retention
                        != Retention::Cache) {
                        assert(t.objects.contains_key(k));
                    }
                    if t.objects.contains_key(k) {
                        assert(s.objects.contains_key(k));
                    }
                }
                assert forall|k: Seq<u8>| #[trigger]
                    fixed(t.objects, protect).contains_key(k) implies fixed(t.objects, protect)[k]
                    == fixed(s.objects, protect)[k] by {
                    assert(t.objects.contains_key(k));
                    assert(s.objects.contains_key(k));
                }
            }
            if t.pools[d].used + need > cap {
                assert(all_spared(t, protect, t.pools[d].fifo));
                assert forall|k: Seq<u8>| #[trigger]
                    t.objects.contains_key(k) && !fixed(t.objects, protect).contains_key(
                        k,
                    ) implies model::slots_len(t.objects[k].slots, d) == 0 by {
                    let slots = t.objects[k].slots;
                    assert forall|i: int| 0 <= i < slots.len() implies model::owned_count(
                        #[trigger] slots[i],
                        d,
                    ) == 0 by {
                        let e = (k, i as nat);
                        assert(t.queues(d, t.pools[d].fifo));
                        assert(model::times(t.pools[d].fifo, e) == t.turns_on(e, d));
                        assert forall|j: int| 0 <= j < t.pools[d].fifo.len() implies #[trigger] t.pools[d].fifo[j]
                            != e by {
                            assert(t.spared(t.pools[d].fifo[j], protect));
                        }
                        lemma_times_none(t.pools[d].fifo, e);
                    }
                    lemma_no_copies(slots, d);
                }
            }
        }
    }
}

// ---- removal ----

/// Keeping the entries of fewer and fewer objects is keeping those of the last.
pub proof fn lemma_entries_twice(
    q: Seq<Entry>,
    a: Map<Seq<u8>, ObjectView>,
    b: Map<Seq<u8>, ObjectView>,
)
    requires
        forall|k: Seq<u8>| #[trigger] b.contains_key(k) ==> a.contains_key(k),
    ensures
        model::entries_of(model::entries_of(q, a), b) == model::entries_of(q, b),
    decreases q.len(),
{
    if q.len() > 0 {
        lemma_entries_twice(q.drop_last(), a, b);
        if a.contains_key(q.last().0) {
            assert(model::entries_of(q, a).drop_last() =~= model::entries_of(q.drop_last(), a));
        }
    }
}

proof fn lemma_entries_all(q: Seq<Entry>, a: Map<Seq<u8>, ObjectView>)
    requires
        forall|i: int| 0 <= i < q.len() ==> a.contains_key((#[trigger] q[i]).0),
    ensures
        model::entries_of(q, a) == q,
    decreases q.len(),
{
    if q.len() > 0 {
        assert(a.contains_key(q[q.len() - 1].0));
        assert forall|i: int| 0 <= i < q.len() - 1 implies a.contains_key(
            (#[trigger] q.drop_last()[i]).0,
        ) by {
            assert(a.contains_key(q[i].0));
        }
        lemma_entries_all(q.drop_last(), a);
        assert(q.drop_last().push(q.last()) =~= q);
    } else {
        assert(model::entries_of(q, a) =~= q);
    }
}

/// Every entry is of an object that is there.
pub proof fn lemma_entries_live(s: StateView, d: Device)
    requires
        s.queued(),
        s.pools.contains_key(d),
    ensures
        model::entries_of(s.pools[d].fifo, s.objects) == s.pools[d].fifo,
{
    let q = s.pools[d].fifo;
    assert(s.queues(d, q));
    assert forall|i: int| 0 <= i < q.len() implies s.objects.contains_key((#[trigger] q[i]).0) by {
        lemma_times_there(q, i);
        assert(model::times(q, q[i]) == s.turns_on(q[i], d));
    }
    lemma_entries_all(q, s.objects);
}

/// A state whose objects are some of another's, each pool with their entries
/// alone, is in order.
proof fn lemma_fewer_queued(s: StateView, t: StateView)
    requires
        s.queued(),
        t.pools.dom() == s.pools.dom(),
        forall|k: Seq<u8>| #[trigger]
            t.objects.contains_key(k) ==> s.objects.contains_key(k) && t.objects[k] == s.objects[k],
        forall|d: Device| #[trigger]
            s.pools.contains_key(d) ==> t.pools[d].fifo == model::entries_of(
                s.pools[d].fifo,
                t.objects,
            ),
    ensures
        t.queued(),
{
    assert forall|d: Device| #[trigger] t.pools.contains_key(d) implies t.queues(
        d,
        t.pools[d].fifo,
    ) by {
        assert(s.pools.contains_key(d));
        assert(s.queues(d, s.pools[d].fifo));
        assert forall|e: Entry| #[trigger] model::times(t.pools[d].fifo, e) == t.turns_on(e, d) by {
            lemma_times_with(s.pools[d].fifo, |e: Entry| t.objects.contains_key(e.0), e);
            assert(model::times(s.pools[d].fifo, e) == s.turns_on(e, d));
        }
    }
}

pub proof fn lemma_removed_sound(s: StateView, key: Seq<u8>)
    requires
        s.sound(),
    ensures
        s.removed(key).sound(),
{
    removing::lemma_removed(s, key);
    let t = s.removed(key);
    if s.objects.contains_key(key) {
        lemma_fewer_queued(s, t);
        assert forall|d: Device| #[trigger]
            t.pools.contains_key(d) && t.pools[d].capacity is Some implies t.pools[d].used
            <= t.pools[d].capacity->0 by {
            assert(s.pools.contains_key(d));
            accounting::lemma_held_remove(s.objects, d, key);
        }
    }
}

pub proof fn lemma_removed_all_sound(s: StateView, keys: Seq<Seq<u8>>, n: nat)
    requires
        s.sound(),
    ensures
        s.removed_all(keys, n).sound(),
    decreases n,
{
    if n > 0 {
        lemma_removed_all_sound(s, keys, (n - 1) as nat);
        lemma_removed_sound(s.removed_all(keys, (n - 1) as nat), keys[n - 1]);
    }
}

pub proof fn lemma_removed_prefix_sound(s: StateView, prefix: Seq<u8>)
    requires
        s.sound(),
    ensures
        s.removed_prefix(prefix).sound(),
{
    removing::lemma_removed_prefix(s, prefix);
    let t = s.removed_prefix(prefix);
    lemma_fewer_queued(s, t);
    assert forall|d: Device| #[trigger]
        t.pools.contains_key(d) && t.pools[d].capacity is Some implies t.pools[d].used
        <= t.pools[d].capacity->0 by {
        assert(s.pools.contains_key(d));
        lemma_fewer_held(s.objects, t.objects, d);
    }
}

proof fn lemma_fewer_held(
    a: Map<Seq<u8>, ObjectView>,
    b: Map<Seq<u8>, ObjectView>,
    d: Device,
)
    requires
        a.dom().finite(),
        forall|k: Seq<u8>| #[trigger] b.contains_key(k) ==> a.contains_key(k) && b[k] == a[k],
    ensures
        model::held(b, d) <= model::held(a, d),
    decreases a.dom().len(),
{
    assert(b.dom().subset_of(a.dom())) by {
        assert forall|k: Seq<u8>| #[trigger] b.dom().contains(k) implies a.dom().contains(k) by {
            assert(b.contains_key(k));
        }
    }
    vstd::set_lib::lemma_len_subset(b.dom(), a.dom());
    if a.dom().len() > 0 {
        let k = a.dom().choose();
        assert(a.contains_key(k));
        accounting::lemma_held_remove(a, d, k);
        assert(a.remove(k).dom() =~= a.dom().remove(k));
        if b.contains_key(k) {
            accounting::lemma_held_remove(b, d, k);
            lemma_fewer_held(a.remove(k), b.remove(k), d);
        } else {
            lemma_fewer_held(a.remove(k), b, d);
        }
    }
}

// ---- publication and retirement ----

pub proof fn lemma_published_sound(s: StateView, key: Seq<u8>, op: OpPublishView)
    requires
        s.sound(),
    ensures
        s.published(key, op).sound(),
{
    removing::lemma_published(s, key, op);
    let t = s.published(key, op);
    assert forall|d: Device| #[trigger] t.pools.contains_key(d) implies t.queues(
        d,
        t.pools[d].fifo,
    ) by {
        assert(s.queues(d, s.pools[d].fifo));
        assert forall|e: Entry| #[trigger] model::times(t.pools[d].fifo, e) == t.turns_on(e, d) by {
            assert(model::times(s.pools[d].fifo, e) == s.turns_on(e, d));
            if s.publish_result(key, op) is Ok && e == (key, op.slot.0 as nat) {
                let i = op.slot.0 as int;
                assert(t.objects[key].slots[i].drop_last() =~= s.objects[key].slots[i]);
            }
        }
    }
}

pub proof fn lemma_retired_sound(s: StateView, id: u64)
    requires
        s.sound(),
    ensures
        s.retired(id).sound(),
{
    removing::lemma_retired(s, id);
    let t = s.retired(id);
    assert forall|d: Device| #[trigger] t.pools.contains_key(d) implies t.queues(
        d,
        t.pools[d].fifo,
    ) by {
        assert(s.queues(d, s.pools[d].fifo));
        assert forall|e: Entry| #[trigger] model::times(t.pools[d].fifo, e) == t.turns_on(e, d) by {
            assert(model::times(s.pools[d].fifo, e) == s.turns_on(e, d));
            if s.objects.contains_key(e.0) && e.1 < s.objects[e.0].slots.len() {
                let slot = s.objects[e.0].slots[e.1 as int];
                accounting::lemma_without_region(slot, id);
                assert(model::owned_count(model::without_region(slot, id), d)
                    == model::owned_count(slot, d));
            }
        }
    }
}

// ---- put ----

proof fn lemma_reserved_queued(s: StateView, key: Seq<u8>, spec: ObjectSpecView)
    requires
        s.queued(),
    ensures
        s.reserved(key, spec).queued(),
{
    let t = s.reserved(key, spec);
    assert forall|d: Device| #[trigger] t.pools.contains_key(d) implies t.queues(
        d,
        t.pools[d].fifo,
    ) by {
        assert(s.queues(d, s.pools[d].fifo));
        assert forall|e: Entry| #[trigger] model::times(t.pools[d].fifo, e) == t.turns_on(e, d) by {
            assert(model::times(s.pools[d].fifo, e) == s.turns_on(e, d));
        }
    }
}

pub proof fn lemma_searched_queued(
    s: StateView,
    cands: Seq<(Device, bool)>,
    each: bool,
    len: u64,
    key: Seq<u8>,
    n: nat,
)
    requires
        s.inv(),
        s.queued(),
        s.objects.contains_key(key),
        n <= cands.len(),
    ensures
        s.searched(cands, each, len, key, n).state.queued(),
    decreases n,
{
    if n > 0 {
        lemma_searched_queued(s, cands, each, len, key, (n - 1) as nat);
        placing::lemma_searched(s, cands, each, len, key, (n - 1) as nat);
        let p = s.searched(cands, each, len, key, (n - 1) as nat);
        let d = cands[n - 1].0;
        if !p.done && p.state.pools.contains_key(d) {
            let need = (1 + model::aimed(p.targets, d)) * len as nat;
            let _ = law_oldest_go_first(p.state, d, need, key);
        }
    }
}

/// Charging a slot that is not in any order puts it at the end of those of its
/// targets, once in each.
proof fn lemma_charged_order(
    s: StateView,
    targets: Seq<(Device, bool)>,
    key: Seq<u8>,
    slot: nat,
    len: u64,
    n: nat,
)
    requires
        n <= targets.len(),
        forall|j: int| 0 <= j < targets.len() ==> s.pools.contains_key((#[trigger] targets[j]).0),
        forall|d: Device| #[trigger]
            s.pools.contains_key(d) ==> model::times(s.pools[d].fifo, (key, slot)) == 0,
    ensures
        ({
            let t = s.charged_all(targets, key, slot, len, n);
            &&& t.objects == s.objects
            &&& t.pools.dom() == s.pools.dom()
            &&& forall|d: Device| #[trigger]
                s.pools.contains_key(d) ==> t.pools[d].fifo == if model::aimed(
                    targets.take(n as int),
                    d,
                ) > 0 {
                    s.pools[d].fifo.push((key, slot))
                } else {
                    s.pools[d].fifo
                }
        }),
    decreases n,
{
    let t = s.charged_all(targets, key, slot, len, n);
    if n == 0 {
        assert(targets.take(0) =~= Seq::empty());
    } else {
        lemma_charged_order(s, targets, key, slot, len, (n - 1) as nat);
        let p = s.charged_all(targets, key, slot, len, (n - 1) as nat);
        let x = targets[n - 1].0;
        assert(s.pools.contains_key(x));
        assert(t.pools.dom() =~= s.pools.dom());
        assert(targets.take(n as int).drop_last() =~= targets.take(n - 1));
        let q = s.pools[x].fifo;
        if q.len() > 0 && q.last() == (key, slot) {
            lemma_times_there(q, q.len() - 1);
        }
    }
}

proof fn lemma_copies_count(targets: Seq<(Device, bool)>, bytes: Seq<u8>, d: Device, n: nat)
    requires
        n <= targets.len(),
    ensures
        model::owned_count(model::copies(targets.take(n as int), bytes), d) == model::aimed(
            targets.take(n as int),
            d,
        ),
        model::owned_len(model::copies(targets.take(n as int), bytes), d) == model::aimed(
            targets.take(n as int),
            d,
        ) * bytes.len(),
    decreases n,
{
    if n == 0 {
        assert(targets.take(0) =~= Seq::empty());
        assert(model::copies(targets.take(0), bytes) =~= Seq::empty());
        assert(model::aimed(targets.take(0), d) == 0);
        assert(0nat * bytes.len() == 0) by (nonlinear_arith);
    } else {
        lemma_copies_count(targets, bytes, d, (n - 1) as nat);
        accounting::lemma_copies_push(targets, bytes, n - 1, d);
        let a = model::aimed(targets.take(n - 1), d);
        assert((a + 1) * bytes.len() == a * bytes.len() + bytes.len()) by (nonlinear_arith);
    }
}

proof fn lemma_placed_sound(
    s: StateView,
    order: Seq<Device>,
    key: Seq<u8>,
    i: nat,
    placement: PlacementView,
    bytes: Seq<u8>,
    len: u64,
)
    requires
        s.sound(),
        s.objects.contains_key(key),
        i < s.objects[key].slots.len(),
        s.objects[key].slots[i as int].len() == 0,
        s.objects[key].spec.slots[i as int].len == len,
        bytes.len() == len,
    ensures
        s.placed(order, key, i, placement, bytes, len).0.sound(),
{
    let each = placement is Each;
    let cands = model::candidates(placement, order);
    placing::lemma_placed(s, order, key, i, placement, bytes, len);
    placing::lemma_searched(s, cands, each, len, key, cands.len());
    lemma_searched_queued(s, cands, each, len, key, cands.len());
    let found = s.searched(cands, each, len, key, cands.len());
    let targets = found.targets;
    let (t, r) = s.placed(order, key, i, placement, bytes, len);
    if r is Ok {
        let m = found.state.landed(key, i, targets, bytes);
        let reps = model::copies(targets, bytes);
        assert(found.state.objects[key].slots[i as int] + reps =~= reps);
        assert forall|j: int| 0 <= j < targets.len() implies m.pools.contains_key(
            (#[trigger] targets[j]).0,
        ) by {}
        assert forall|d: Device| #[trigger] m.pools.contains_key(d) implies model::times(
            m.pools[d].fifo,
            (key, i),
        ) == 0 by {
            assert(found.state.pools.contains_key(d));
            assert(found.state.queues(d, found.state.pools[d].fifo));
            assert(found.state.turns_on((key, i), d) == 0);
        }
        lemma_charged_order(m, targets, key, i, len, targets.len());
        placing::lemma_charged_all(m, targets, key, i, len, bytes, targets.len());
        assert(targets.take(targets.len() as int) =~= targets);
        assert forall|d: Device| #[trigger] t.pools.contains_key(d) implies t.queues(
            d,
            t.pools[d].fifo,
        ) by {
            assert(found.state.pools.contains_key(d));
            assert(found.state.queues(d, found.state.pools[d].fifo));
            lemma_copies_count(targets, bytes, d, targets.len());
            assert(m.pools.contains_key(d));
            assert(m.pools[d].fifo == found.state.pools[d].fifo);
            assert(t.objects == m.objects);
            assert forall|e: Entry| #[trigger] model::times(t.pools[d].fifo, e) == t.turns_on(
                e,
                d,
            ) by {
                assert(model::times(m.pools[d].fifo, e) == found.state.turns_on(e, d));
                lemma_times_push(m.pools[d].fifo, (key, i), e);
                if e == (key, i) {
                    assert(t.objects[key].slots[i as int] == reps);
                    assert(found.state.turns_on(e, d) == 0);
                } else {
                    assert(t.turns_on(e, d) == found.state.turns_on(e, d));
                }
            }
        }
        assert forall|d: Device| #[trigger]
            t.pools.contains_key(d) && t.pools[d].capacity is Some implies t.pools[d].used
            <= t.pools[d].capacity->0 by {
            assert(m.pools.contains_key(d));
            assert(s.pools.contains_key(d));
            lemma_copies_count(targets, bytes, d, targets.len());
            if model::aimed(targets, d) > 0 {
                let j = lemma_aimed_there(targets, d);
                assert(targets[j].0 == d);
            } else {
                assert(0 * bytes.len() == 0);
            }
        }
    } else {
        assert forall|d: Device| #[trigger]
            t.pools.contains_key(d) && t.pools[d].capacity is Some implies t.pools[d].used
            <= t.pools[d].capacity->0 by {
            assert(s.pools.contains_key(d));
        }
    }
}

proof fn lemma_aimed_there(targets: Seq<(Device, bool)>, d: Device) -> (j: int)
    requires
        model::aimed(targets, d) > 0,
    ensures
        0 <= j < targets.len(),
        targets[j].0 == d,
    decreases targets.len(),
{
    if targets.last().0 == d {
        targets.len() - 1
    } else {
        lemma_aimed_there(targets.drop_last(), d)
    }
}

pub proof fn lemma_put_slots_sound(
    s: StateView,
    order: Seq<Device>,
    key: Seq<u8>,
    op: OpPutView,
    data: Seq<Seq<u8>>,
    n: nat,
)
    requires
        s.sound(),
        placing::data_fits(op, data),
        s.objects.contains_key(key) ==> s.objects[key].spec == op.spec(),
        n <= op.slots.len(),
    ensures
        s.put_slots(order, key, op, data, n).0.sound(),
    decreases n,
{
    placing::lemma_reserved(s, key, op);
    if n == 0 {
        lemma_reserved_queued(s, key, op.spec());
    } else {
        let i = (n - 1) as nat;
        lemma_put_slots_sound(s, order, key, op, data, i);
        placing::lemma_put_slots(s, order, key, op, data, i);
        let p = s.put_slots(order, key, op, data, i).0;
        if s.writable(key, i) {
            let spec = op.slots[i as int].spec;
            let start = s.reserved(key, op.spec()).objects[key];
            assert(p.objects[key].slots[i as int] == start.slots[i as int]);
            assert(op.spec().slots[i as int] == spec);
            lemma_placed_sound(p, order, key, i, spec.placement, data[i as int], spec.len);
        }
    }
}

pub proof fn lemma_put_sound(
    s: StateView,
    order: Seq<Device>,
    key: Seq<u8>,
    op: OpPutView,
    data: Seq<Seq<u8>>,
)
    requires
        s.sound(),
        op.error() is None ==> placing::data_fits(op, data),
    ensures
        s.put(order, key, op, data).0.sound(),
{
    if s.put(order, key, op, data).1 is Ok {
        lemma_put_slots_sound(s, order, key, op, data, op.slots.len());
    }
}

} // verus!
