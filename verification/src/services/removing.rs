//! Removal, publication and retirement keep the state valid.
use vstd::prelude::*;

use crate::ops;
use crate::ops::OpPublishView;
use crate::services::accounting;
use crate::services::model;
use crate::services::model::{ObjectView, ReplicaView, StateView};
use crate::types::{Device, Tier};

verus! {

pub proof fn lemma_removed(s: StateView, key: Seq<u8>)
    requires
        s.inv(),
    ensures
        s.removed(key).inv(),
        s.removed(key).objects == s.objects.remove(key),
        s.removed(key).pools.dom() == s.pools.dom(),
{
    let t = s.removed(key);
    if s.objects.contains_key(key) {
        assert(t.pools.dom() =~= s.pools.dom());
        assert forall|d: Device| #[trigger] t.pools.contains_key(d) implies t.pools[d].used == model::held(
            t.objects,
            d,
        ) by {
            assert(s.pools.contains_key(d));
            accounting::lemma_held_remove(s.objects, d, key);
        }
        assert forall|k: Seq<u8>| #[trigger] t.objects.contains_key(k) implies model::object_ok(
            t.objects[k],
            t.pools.dom(),
        ) by {
            assert(s.objects.contains_key(k));
        }
    } else {
        assert(s.objects.remove(key) =~= s.objects);
    }
}

pub proof fn lemma_removed_all(s: StateView, keys: Seq<Seq<u8>>, n: nat)
    requires
        s.inv(),
    ensures
        s.removed_all(keys, n).inv(),
        s.removed_all(keys, n).pools.dom() == s.pools.dom(),
    decreases n,
{
    if n > 0 {
        lemma_removed_all(s, keys, (n - 1) as nat);
        lemma_removed(s.removed_all(keys, (n - 1) as nat), keys[n - 1]);
    }
}

pub proof fn lemma_removed_prefix(s: StateView, prefix: Seq<u8>)
    requires
        s.inv(),
    ensures
        s.removed_prefix(prefix).inv(),
        s.removed_prefix(prefix).pools.dom() == s.pools.dom(),
{
    let t = s.removed_prefix(prefix);
    assert(t.pools.dom() =~= s.pools.dom());
    assert(t.objects.dom() =~= s.objects.dom().difference(s.under(prefix)));
    assert forall|k: Seq<u8>| #[trigger] t.objects.contains_key(k) implies model::object_ok(
        t.objects[k],
        t.pools.dom(),
    ) by {
        assert(s.objects.contains_key(k));
    }
}

pub proof fn lemma_published(s: StateView, key: Seq<u8>, op: OpPublishView)
    requires
        s.inv(),
    ensures
        s.published(key, op).inv(),
        s.published(key, op).pools == s.pools,
{
    if s.publish_result(key, op) is Ok {
        let t = s.published(key, op);
        let obj = s.objects[key];
        let i = op.slot.0 as int;
        ops::law_iovs_pass_exactly_if_sound(op.src, None);
        let slot = obj.slots[i];
        let after = t.objects[key].slots[i];
        let slots = t.objects[key].slots;
        assert(after.drop_last() =~= slot);
        assert(model::slot_ok(slot, obj.spec.slots[i].len, s.pools.dom()));
        assert(model::slot_ok(after, obj.spec.slots[i].len, s.pools.dom())) by {
            assert forall|j: int| 0 <= j < after.len() implies {
                let r = #[trigger] after[j];
                &&& r.data.len() == obj.spec.slots[i].len
                &&& r.data is Owned ==> r.tier == Tier::Dram && s.pools.dom().contains(r.device)
                &&& r.data is External ==> r.tier == Tier::External && !r.misplaced
            } by {
                if j < slot.len() {
                    assert(after[j] == slot[j]);
                }
            }
            assert forall|j: int, k: int|
                0 <= j < after.len() && 0 <= k < after.len() && (#[trigger] after[j]).data is Owned
                    && (#[trigger] after[k]).data is Owned implies after[j].data
                == after[k].data by {
                assert(after[j] == slot[j]);
                assert(after[k] == slot[k]);
            }
        }
        assert(t.objects.dom() =~= s.objects.dom());
        assert forall|k: Seq<u8>| #[trigger] t.objects.contains_key(k) implies model::object_ok(
            t.objects[k],
            t.pools.dom(),
        ) by {
            assert(s.objects.contains_key(k));
            assert(model::object_ok(s.objects[k], s.pools.dom()));
            if k == key {
                assert forall|j: int| 0 <= j < slots.len() implies model::slot_ok(
                    #[trigger] slots[j],
                    obj.spec.slots[j].len,
                    s.pools.dom(),
                ) by {
                    if j != i {
                        assert(slots[j] == obj.slots[j]);
                    }
                }
            }
        }
        assert forall|d: Device| #[trigger] t.pools.contains_key(d) implies t.pools[d].used == model::held(
            t.objects,
            d,
        ) by {
            accounting::lemma_held_insert(s.objects, d, key, t.objects[key]);
            accounting::lemma_slots_update(obj.slots, i, after, d);
        }
    }
}

proof fn lemma_retired_slots(slots: Seq<Seq<ReplicaView>>, after: Seq<Seq<ReplicaView>>, id: u64, d: Device)
    requires
        slots.len() == after.len(),
        forall|i: int| 0 <= i < slots.len() ==> #[trigger] after[i] == model::without_region(slots[i], id),
    ensures
        model::slots_len(after, d) == model::slots_len(slots, d),
    decreases slots.len(),
{
    if slots.len() > 0 {
        accounting::lemma_without_region(slots.last(), id);
        assert(after[slots.len() - 1] == model::without_region(slots[slots.len() - 1], id));
        assert(model::owned_len(model::without_region(slots.last(), id), d) == model::owned_len(slots.last(), d));
        lemma_retired_slots(slots.drop_last(), after.drop_last(), id, d);
    }
}

proof fn lemma_retired_held(
    objects: Map<Seq<u8>, ObjectView>,
    after: Map<Seq<u8>, ObjectView>,
    d: Device,
)
    requires
        objects.dom().finite(),
        after.dom() == objects.dom(),
        forall|k: Seq<u8>| #[trigger]
            objects.contains_key(k) ==> model::slots_len(after[k].slots, d) == model::slots_len(
                objects[k].slots,
                d,
            ),
    ensures
        model::held(after, d) == model::held(objects, d),
    decreases objects.dom().len(),
{
    if objects.dom().len() > 0 {
        let k = objects.dom().choose();
        assert(objects.contains_key(k));
        accounting::lemma_held_remove(objects, d, k);
        accounting::lemma_held_remove(after, d, k);
        assert(objects.remove(k).dom() =~= objects.dom().remove(k));
        assert(after.remove(k).dom() =~= objects.remove(k).dom());
        assert forall|x: Seq<u8>| #[trigger] objects.remove(k).contains_key(x) implies model::slots_len(
            after.remove(k)[x].slots,
            d,
        ) == model::slots_len(objects.remove(k)[x].slots, d) by {
            assert(objects.contains_key(x));
        }
        lemma_retired_held(objects.remove(k), after.remove(k), d);
    }
}

pub proof fn lemma_retired(s: StateView, id: u64)
    requires
        s.inv(),
    ensures
        s.retired(id).inv(),
        s.retired(id).pools == s.pools,
{
    let t = s.retired(id);
    assert(t.objects.dom() =~= s.objects.dom());
    assert forall|k: Seq<u8>| #[trigger] t.objects.contains_key(k) implies model::object_ok(
        t.objects[k],
        t.pools.dom(),
    ) by {
        let obj = s.objects[k];
        assert(s.objects.contains_key(k));
        assert(model::object_ok(obj, s.pools.dom()));
        assert forall|i: int| 0 <= i < t.objects[k].slots.len() implies model::slot_ok(
            #[trigger] t.objects[k].slots[i],
            obj.spec.slots[i].len,
            s.pools.dom(),
        ) by {
            let slot = obj.slots[i];
            let after = t.objects[k].slots[i];
            assert(model::slot_ok(slot, obj.spec.slots[i].len, s.pools.dom()));
            accounting::lemma_without_region(slot, id);
            assert forall|j: int| 0 <= j < after.len() implies {
                let r = #[trigger] after[j];
                &&& r.data.len() == obj.spec.slots[i].len
                &&& r.data is Owned ==> r.tier == Tier::Dram && s.pools.dom().contains(r.device)
                &&& r.data is External ==> r.tier == Tier::External && !r.misplaced
            } by {
                let a = choose|a: int| 0 <= a < slot.len() && slot[a] == after[j];
                assert(slot[a] == after[j]);
            }
            assert forall|j: int, m: int|
                0 <= j < after.len() && 0 <= m < after.len() && (#[trigger] after[j]).data is Owned
                    && (#[trigger] after[m]).data is Owned implies after[j].data
                == after[m].data by {
                let a = choose|a: int| 0 <= a < slot.len() && slot[a] == after[j];
                let b = choose|b: int| 0 <= b < slot.len() && slot[b] == after[m];
                assert(slot[a].data == slot[b].data);
            }
        }
    }
    assert forall|d: Device| #[trigger] t.pools.contains_key(d) implies t.pools[d].used == model::held(
        t.objects,
        d,
    ) by {
        assert forall|k: Seq<u8>| #[trigger] s.objects.contains_key(k) implies model::slots_len(
            t.objects[k].slots,
            d,
        ) == model::slots_len(s.objects[k].slots, d) by {
            lemma_retired_slots(s.objects[k].slots, t.objects[k].slots, id, d);
        }
        lemma_retired_held(s.objects, t.objects, d);
    }
}

} // verus!
