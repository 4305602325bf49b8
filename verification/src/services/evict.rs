//! What making room may and may not do.
use vstd::prelude::*;

use crate::services::accounting;
use crate::services::model;
use crate::services::model::{Entry, ObjectView, PoolView, ReplicaView, StateView};
use crate::types::{Device, Retention};

verus! {

/// Whether a slot lost nothing but replicas that took up room on `d`.
pub open spec fn slot_loses(before: Seq<ReplicaView>, after: Seq<ReplicaView>, d: Device) -> bool {
    &&& forall|j: int| 0 <= j < after.len() ==> before.contains(#[trigger] after[j])
    &&& forall|j: int|
        0 <= j < before.len() && !(#[trigger] before[j]).owned_on(d) ==> after.contains(before[j])
}

/// Whether an object lost nothing but room on `d`, slot by slot.
pub open spec fn object_loses(before: ObjectView, after: ObjectView, d: Device) -> bool {
    &&& after.spec == before.spec
    &&& after.slots.len() == before.slots.len()
    &&& forall|i: int|
        0 <= i < before.slots.len() ==> slot_loses(before.slots[i], #[trigger] after.slots[i], d)
}

/// Whether all of an object takes up room on `d`.
pub open spec fn all_on(obj: ObjectView, d: Device) -> bool {
    forall|i: int, j: int|
        0 <= i < obj.slots.len() && 0 <= j < obj.slots[i].len()
            ==> (#[trigger] obj.slots[i][j]).owned_on(d)
}

/// Whether `t` comes from `s` by evicting `Cache` objects from `d` alone,
/// without touching `protect`.
pub open spec fn only_evicts(s: StateView, t: StateView, d: Device, protect: Seq<u8>) -> bool {
    &&& t.pools.dom() == s.pools.dom()
    &&& forall|e: Device| #[trigger]
        s.pools.contains_key(e) && e != d ==> t.pools[e] == s.pools[e]
    &&& t.pools[d].capacity == s.pools[d].capacity
    &&& t.pools[d].used <= s.pools[d].used
    &&& forall|k: Seq<u8>| #[trigger]
        t.objects.contains_key(k) ==> s.objects.contains_key(k) && object_loses(
            s.objects[k],
            t.objects[k],
            d,
        )
    &&& forall|k: Seq<u8>| #[trigger]
        s.objects.contains_key(k) && (k == protect || s.objects[k].spec.retention
            != Retention::Cache) ==> t.objects.contains_key(k) && t.objects[k] == s.objects[k]
    &&& forall|k: Seq<u8>| #[trigger]
        s.objects.contains_key(k) && !t.objects.contains_key(k) ==> all_on(s.objects[k], d)
}

proof fn lemma_slot_loses_transitive(
    a: Seq<ReplicaView>,
    b: Seq<ReplicaView>,
    c: Seq<ReplicaView>,
    d: Device,
)
    requires
        slot_loses(a, b, d),
        slot_loses(b, c, d),
    ensures
        slot_loses(a, c, d),
{
    assert forall|j: int| 0 <= j < c.len() implies a.contains(#[trigger] c[j]) by {
        let x = choose|x: int| 0 <= x < b.len() && b[x] == c[j];
        assert(b[x] == c[j]);
    }
    assert forall|j: int| 0 <= j < a.len() && !(#[trigger] a[j]).owned_on(d) implies c.contains(
        a[j],
    ) by {
        let x = choose|x: int| 0 <= x < b.len() && b[x] == a[j];
        assert(b[x] == a[j]);
    }
}

proof fn lemma_slot_loses_all(slot: Seq<ReplicaView>, d: Device)
    ensures
        slot_loses(slot, model::without_owned(slot, d), d),
{
    accounting::lemma_without_owned(slot, d);
}

proof fn lemma_slot_loses_refl(slot: Seq<ReplicaView>, d: Device)
    ensures
        slot_loses(slot, slot, d),
{
}

pub proof fn lemma_only_evicts_transitive(
    s: StateView,
    t: StateView,
    u: StateView,
    d: Device,
    protect: Seq<u8>,
)
    requires
        only_evicts(s, t, d, protect),
        only_evicts(t, u, d, protect),
    ensures
        only_evicts(s, u, d, protect),
{
    assert forall|e: Device| #[trigger] s.pools.contains_key(e) && e != d implies u.pools[e]
        == s.pools[e] by {
        assert(t.pools.contains_key(e));
    }
    assert forall|k: Seq<u8>| #[trigger] u.objects.contains_key(k) implies s.objects.contains_key(k)
        && object_loses(s.objects[k], u.objects[k], d) by {
        assert(t.objects.contains_key(k));
        assert forall|i: int| 0 <= i < s.objects[k].slots.len() implies slot_loses(
            s.objects[k].slots[i],
            #[trigger] u.objects[k].slots[i],
            d,
        ) by {
            assert(slot_loses(s.objects[k].slots[i], t.objects[k].slots[i], d));
            lemma_slot_loses_transitive(
                s.objects[k].slots[i],
                t.objects[k].slots[i],
                u.objects[k].slots[i],
                d,
            );
        }
    }
    assert forall|k: Seq<u8>| #[trigger]
        s.objects.contains_key(k) && (k == protect || s.objects[k].spec.retention
            != Retention::Cache) implies u.objects.contains_key(k) && u.objects[k]
        == s.objects[k] by {
        assert(t.objects.contains_key(k));
    }
    assert forall|k: Seq<u8>| #[trigger]
        s.objects.contains_key(k) && !u.objects.contains_key(k) implies all_on(s.objects[k], d) by {
        if t.objects.contains_key(k) {
            let a = s.objects[k];
            let b = t.objects[k];
            assert forall|i: int, j: int| 0 <= i < a.slots.len() && 0 <= j < a.slots[i].len() implies (
            #[trigger] a.slots[i][j]).owned_on(d) by {
                assert(slot_loses(a.slots[i], b.slots[i], d));
                if !a.slots[i][j].owned_on(d) {
                    let x = choose|x: int| 0 <= x < b.slots[i].len() && b.slots[i][x]
                        == a.slots[i][j];
                    assert(b.slots[i][x].owned_on(d));
                }
            }
        }
    }
}

/// A slot that gave up its room on `d` is as valid as it was.
proof fn lemma_slot_ok_without(
    replicas: Seq<ReplicaView>,
    len: u64,
    served: Set<Device>,
    d: Device,
)
    requires
        model::slot_ok(replicas, len, served),
    ensures
        model::slot_ok(model::without_owned(replicas, d), len, served),
{
    accounting::lemma_without_owned(replicas, d);
    let kept = model::without_owned(replicas, d);
    assert forall|j: int, k: int|
        0 <= j < kept.len() && 0 <= k < kept.len() && (#[trigger] kept[j]).data is Owned
            && (#[trigger] kept[k]).data is Owned implies kept[j].data == kept[k].data by {
        let a = choose|a: int| 0 <= a < replicas.len() && replicas[a] == kept[j];
        let b = choose|b: int| 0 <= b < replicas.len() && replicas[b] == kept[k];
        assert(replicas[a].data == replicas[b].data);
    }
    assert forall|j: int| 0 <= j < kept.len() implies {
        let r = #[trigger] kept[j];
        &&& r.data.len() == len
        &&& r.data is Owned ==> r.tier == crate::types::Tier::Dram && served.contains(r.device)
        &&& r.data is External ==> r.tier == crate::types::Tier::External && !r.misplaced
    } by {
        let a = choose|a: int| 0 <= a < replicas.len() && replicas[a] == kept[j];
        assert(replicas[a] == kept[j]);
    }
}

/// Whether the replica at `x` of slot `j` stays when slot `i` is evicted from `d`.
pub open spec fn stays_behind(
    slots: Seq<Seq<ReplicaView>>,
    d: Device,
    i: int,
    j: int,
    x: int,
) -> bool {
    0 <= j < slots.len() && 0 <= x < slots[j].len() && (j != i || !slots[j][x].owned_on(d))
}

/// A slot is evicted from a device as a whole: every replica of it that takes up
/// room there goes, and no other. The object goes with its last replica.
pub proof fn law_eviction_takes_the_slot_from_its_device(
    s: StateView,
    d: Device,
    entry: Entry,
    r: ReplicaView,
)
    requires
        s.evictable(entry),
    ensures
        ({
            let t = s.evicted(d, entry);
            let before = s.objects[entry.0].slots[entry.1 as int];
            let stays = before.contains(r) && !r.owned_on(d);
            if t.objects.contains_key(entry.0) {
                t.objects[entry.0].slots[entry.1 as int].contains(r) <==> stays
            } else {
                !stays
            }
        }),
        s.evicted(d, entry).objects.contains_key(entry.0) <==> exists|j: int, x: int|
            stays_behind(s.objects[entry.0].slots, d, entry.1 as int, j, x),
{
    let obj = s.objects[entry.0];
    let i = entry.1 as int;
    let before = obj.slots[i];
    let after = model::without_owned(before, d);
    accounting::lemma_without_owned(before, d);
    if before.contains(r) && !r.owned_on(d) {
        assert(after.contains(before[before.index_of(r)]));
    }
    if after.contains(r) {
        assert(after[after.index_of(r)] == r);
    }
    if !s.evicted(d, entry).objects.contains_key(entry.0) {
        assert(obj.slots.update(i, after)[i].len() == 0);
    }
    let slots = obj.slots.update(i, after);
    if model::all_empty(slots) {
        assert forall|j: int, x: int| !(#[trigger] stays_behind(obj.slots, d, i, j, x)) by {
            if stays_behind(obj.slots, d, i, j, x) {
                assert(slots[j].len() == 0);
                assert(after.contains(before[x]));
            }
        }
    } else {
        let j = choose|j: int| 0 <= j < slots.len() && (#[trigger] slots[j]).len() != 0;
        if j == i {
            assert(!after[0].owned_on(d) && before.contains(after[0]));
            assert(stays_behind(obj.slots, d, i, j, before.index_of(after[0])));
        } else {
            assert(slots[j] == obj.slots[j]);
            assert(stays_behind(obj.slots, d, i, j, 0));
        }
    }
}

/// Evicting one slot keeps the state valid.
pub proof fn lemma_evicted(s: StateView, d: Device, entry: Entry, protect: Seq<u8>)
    requires
        s.inv(),
        s.pools.contains_key(d),
        entry.0 != protect,
    ensures
        s.evicted(d, entry).inv(),
        only_evicts(s, s.evicted(d, entry), d, protect),
        s.evicted(d, entry).pools[d].fifo == s.pools[d].fifo,
        s.evictable(entry) ==> model::owned_len(s.objects[entry.0].slots[entry.1 as int], d)
            <= s.pools[d].used,
{
    let t = s.evicted(d, entry);
    lemma_only_evicts_refl(s, d, protect);
    if s.evictable(entry) {
        let k = entry.0;
        let i = entry.1 as int;
        let obj = s.objects[k];
        let slot = obj.slots[i];
        accounting::lemma_held_remove(s.objects, d, k);
        accounting::lemma_slot_within(obj.slots, i, d);
        let slots = obj.slots.update(i, model::without_owned(slot, d));
        let after = ObjectView { slots, ..obj };
        accounting::lemma_without_owned(slot, d);
        lemma_slot_ok_without(slot, obj.spec.slots[i].len, s.pools.dom(), d);
        assert(t.pools.dom() =~= s.pools.dom());
        assert(model::object_ok(after, s.pools.dom())) by {
            assert forall|j: int| 0 <= j < slots.len() implies model::slot_ok(
                #[trigger] slots[j],
                obj.spec.slots[j].len,
                s.pools.dom(),
            ) by {
                assert(model::slot_ok(obj.slots[j], obj.spec.slots[j].len, s.pools.dom()));
            }
        }
        assert forall|k2: Seq<u8>| #[trigger]
            t.objects.contains_key(k2) implies model::object_ok(
            t.objects[k2],
            t.pools.dom(),
        ) by {
            assert(s.objects.contains_key(k2));
        }
        assert forall|e: Device| #[trigger] t.pools.contains_key(e) implies t.pools[e].used
            == model::held(t.objects, e) by {
            assert(s.pools.contains_key(e));
            accounting::lemma_held_remove(s.objects, e, k);
            accounting::lemma_slots_update(obj.slots, i, model::without_owned(slot, d), e);
            if e != d {
                assert(model::owned_len(model::without_owned(slot, d), e) == model::owned_len(
                    slot,
                    e,
                ));
            }
            if model::all_empty(slots) {
                accounting::lemma_empty_slots(slots, e);
            } else {
                accounting::lemma_held_insert(s.objects, e, k, after);
            }
        }
        assert(object_loses(obj, after, d)) by {
            assert forall|j: int| 0 <= j < obj.slots.len() implies slot_loses(
                obj.slots[j],
                #[trigger] after.slots[j],
                d,
            ) by {
                lemma_slot_loses_refl(obj.slots[j], d);
                if j == i {
                    lemma_slot_loses_all(slot, d);
                }
            }
        }
        assert forall|k2: Seq<u8>| #[trigger] t.objects.contains_key(k2) implies object_loses(
            s.objects[k2],
            t.objects[k2],
            d,
        ) by {
            assert forall|j: int| 0 <= j < s.objects[k2].slots.len() implies slot_loses(
                s.objects[k2].slots[j],
                #[trigger] t.objects[k2].slots[j],
                d,
            ) by {
                if k2 != k {
                    lemma_slot_loses_refl(s.objects[k2].slots[j], d);
                } else {
                    assert(slot_loses(obj.slots[j], after.slots[j], d));
                }
            }
        }
        assert forall|k2: Seq<u8>| #[trigger]
            s.objects.contains_key(k2) && !t.objects.contains_key(k2) implies all_on(
            s.objects[k2],
            d,
        ) by {
            assert(k2 == k);
            assert forall|a: int, j: int|
                0 <= a < obj.slots.len() && 0 <= j < obj.slots[a].len() implies (
            #[trigger] obj.slots[a][j]).owned_on(d) by {
                assert(slots[a].len() == 0);
                assert(slot_loses(obj.slots[a], after.slots[a], d));
            }
        }
    }
}

pub proof fn lemma_only_evicts_refl(s: StateView, d: Device, protect: Seq<u8>)
    ensures
        only_evicts(s, s, d, protect),
{
    assert forall|k: Seq<u8>| #[trigger] s.objects.contains_key(k) implies object_loses(
        s.objects[k],
        s.objects[k],
        d,
    ) by {
        assert forall|i: int| 0 <= i < s.objects[k].slots.len() implies slot_loses(
            s.objects[k].slots[i],
            #[trigger] s.objects[k].slots[i],
            d,
        ) by {
            lemma_slot_loses_refl(s.objects[k].slots[i], d);
        }
    }
}

/// Draining keeps the state valid and only evicts.
pub proof fn lemma_drained(
    s: StateView,
    d: Device,
    need: nat,
    cap: u64,
    protect: Seq<u8>,
    aside: Seq<Entry>,
)
    requires
        s.inv(),
        s.pools.contains_key(d),
    ensures
        s.drained(d, need, cap, protect, aside).inv(),
        only_evicts(s, s.drained(d, need, cap, protect, aside), d, protect),
    decreases s.pools[d].fifo.len(),
{
    let pool = s.pools[d];
    if pool.used + need <= cap || pool.fifo.len() == 0 {
        let t = s.with_pool(d, PoolView { fifo: aside + pool.fifo, ..pool });
        lemma_refifo(s, d, aside + pool.fifo, protect);
    } else {
        let rest = s.with_pool(d, PoolView { fifo: pool.fifo.drop_first(), ..pool });
        lemma_refifo(s, d, pool.fifo.drop_first(), protect);
        if s.spared(pool.fifo[0], protect) {
            lemma_drained(rest, d, need, cap, protect, aside.push(pool.fifo[0]));
            lemma_only_evicts_transitive(s, rest, s.drained(d, need, cap, protect, aside), d, protect);
        } else {
            lemma_evicted(rest, d, pool.fifo[0], protect);
            let next = rest.evicted(d, pool.fifo[0]);
            lemma_drained(next, d, need, cap, protect, aside);
            lemma_only_evicts_transitive(s, rest, next, d, protect);
            lemma_only_evicts_transitive(s, next, s.drained(d, need, cap, protect, aside), d, protect);
        }
    }
}

/// Another eviction order changes nothing else.
pub proof fn lemma_refifo(s: StateView, d: Device, fifo: Seq<Entry>, protect: Seq<u8>)
    requires
        s.inv(),
        s.pools.contains_key(d),
    ensures
        s.with_pool(d, PoolView { fifo, ..s.pools[d] }).inv(),
        only_evicts(s, s.with_pool(d, PoolView { fifo, ..s.pools[d] }), d, protect),
{
    lemma_only_evicts_refl(s, d, protect);
    let t = s.with_pool(d, PoolView { fifo, ..s.pools[d] });
    assert(t.pools.dom() =~= s.pools.dom());
    assert forall|e: Device| #[trigger] t.pools.contains_key(e) implies t.pools[e].used == model::held(
        t.objects,
        e,
    ) by {
        assert(s.pools.contains_key(e));
    }
}

/// Making room evicts `Cache` objects of that device alone, never `protect`,
/// and keeps the state valid. Where it reports room, the bytes fit.
pub proof fn law_make_room_only_evicts(s: StateView, d: Device, need: nat, protect: Seq<u8>)
    requires
        s.inv(),
        s.pools.contains_key(d),
    ensures
        s.make_room(d, need, protect).0.inv(),
        only_evicts(s, s.make_room(d, need, protect).0, d, protect),
        s.make_room(d, need, protect).1 ==> (s.pools[d].capacity is Some ==> s.make_room(
            d,
            need,
            protect,
        ).0.pools[d].used + need <= s.pools[d].capacity->0),
{
    lemma_only_evicts_refl(s, d, protect);
    if let Some(cap) = s.pools[d].capacity {
        if need <= cap {
            lemma_drained(s, d, need, cap, protect, Seq::empty());
        }
    }
}

/// The state after the first `n` entries of the eviction order of `d` were
/// taken off it, those of `protect` set aside.
pub open spec fn popped(
    s: StateView,
    d: Device,
    protect: Seq<u8>,
    aside: Seq<Entry>,
    n: nat,
) -> (StateView, Seq<Entry>)
    decreases n,
{
    if n == 0 {
        (s, aside)
    } else {
        let (t, aside) = popped(s, d, protect, aside, (n - 1) as nat);
        let pool = t.pools[d];
        let rest = t.with_pool(d, PoolView { fifo: pool.fifo.drop_first(), ..pool });
        if t.spared(pool.fifo[0], protect) {
            (rest, aside.push(pool.fifo[0]))
        } else {
            (rest.evicted(d, pool.fifo[0]), aside)
        }
    }
}

proof fn lemma_popped_shift(s: StateView, d: Device, protect: Seq<u8>, aside: Seq<Entry>, n: nat)
    requires
        n > 0,
    ensures
        popped(s, d, protect, aside, n) == ({
            let (t, a) = popped(s, d, protect, aside, 1);
            popped(t, d, protect, a, (n - 1) as nat)
        }),
    decreases n,
{
    reveal_with_fuel(popped, 2);
    if n > 1 {
        lemma_popped_shift(s, d, protect, aside, (n - 1) as nat);
    }
}

/// Eviction is first in, first out, and no more than needed: what draining
/// takes off is the shortest stretch at the front of the order that makes the
/// bytes fit, or all of it where they never do.
pub proof fn law_eviction_is_fifo_and_minimal(
    s: StateView,
    d: Device,
    need: nat,
    cap: u64,
    protect: Seq<u8>,
    aside: Seq<Entry>,
) -> (n: nat)
    requires
        s.pools.contains_key(d),
    ensures
        n <= s.pools[d].fifo.len(),
        s.drained(d, need, cap, protect, aside) == ({
            let (t, a) = popped(s, d, protect, aside, n);
            t.with_pool(d, PoolView { fifo: a + t.pools[d].fifo, ..t.pools[d] })
        }),
        n == s.pools[d].fifo.len() || popped(s, d, protect, aside, n).0.pools[d].used + need <= cap,
        forall|m: nat|
            m < n ==> (#[trigger] popped(s, d, protect, aside, m)).0.pools[d].used + need > cap,
    decreases s.pools[d].fifo.len(),
{
    reveal_with_fuel(popped, 2);
    let pool = s.pools[d];
    if pool.used + need <= cap || pool.fifo.len() == 0 {
        0
    } else {
        let (t, a) = popped(s, d, protect, aside, 1);
        assert(popped(s, d, protect, aside, 0) == (s, aside));
        let n0 = law_eviction_is_fifo_and_minimal(t, d, need, cap, protect, a);
        lemma_popped_shift(s, d, protect, aside, n0 + 1);
        assert forall|m: nat| m < n0 + 1 implies (#[trigger] popped(
            s,
            d,
            protect,
            aside,
            m,
        )).0.pools[d].used + need > cap by {
            if m > 0 {
                lemma_popped_shift(s, d, protect, aside, m);
            }
        }
        n0 + 1
    }
}

} // verus!
