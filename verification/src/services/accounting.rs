//! A pool's count of used bytes is the sum of what the objects hold there.
use vstd::prelude::*;

use crate::services::model;
use crate::services::model::{DataView, ObjectView, ReplicaView};
use crate::types::Device;

verus! {

/// The sum over all objects is one object's share and the sum over the others.
pub proof fn lemma_held_remove(objects: Map<Seq<u8>, ObjectView>, d: Device, k: Seq<u8>)
    requires
        objects.dom().finite(),
        objects.contains_key(k),
    ensures
        model::held(objects, d) == model::slots_len(objects[k].slots, d) + model::held(objects.remove(k), d),
    decreases objects.dom().len(),
{
    let c = objects.dom().choose();
    assert(objects.dom().contains(c));
    assert(objects.remove(k).dom() =~= objects.dom().remove(k));
    assert(objects.remove(c).dom() =~= objects.dom().remove(c));
    if c != k {
        lemma_held_remove(objects.remove(c), d, k);
        lemma_held_remove(objects.remove(k), d, c);
        assert(objects.remove(c).remove(k) =~= objects.remove(k).remove(c));
    }
}

/// A new or changed object changes the sum by its own share.
pub proof fn lemma_held_insert(
    objects: Map<Seq<u8>, ObjectView>,
    d: Device,
    k: Seq<u8>,
    obj: ObjectView,
)
    requires
        objects.dom().finite(),
    ensures
        model::held(objects.insert(k, obj), d) == model::slots_len(obj.slots, d) + model::held(objects, d) - if objects.contains_key(k) {
            model::slots_len(objects[k].slots, d)
        } else {
            0
        },
{
    let after = objects.insert(k, obj);
    assert(after.dom() =~= objects.dom().insert(k));
    lemma_held_remove(after, d, k);
    assert(after.remove(k) =~= objects.remove(k));
    if objects.contains_key(k) {
        lemma_held_remove(objects, d, k);
    } else {
        assert(objects.remove(k) =~= objects);
    }
}

pub proof fn lemma_slots_update(
    slots: Seq<Seq<ReplicaView>>,
    i: int,
    replicas: Seq<ReplicaView>,
    d: Device,
)
    requires
        0 <= i < slots.len(),
    ensures
        model::slots_len(slots.update(i, replicas), d) == model::slots_len(slots, d) - model::owned_len(slots[i], d)
            + model::owned_len(replicas, d),
    decreases slots.len(),
{
    let after = slots.update(i, replicas);
    if i == slots.len() - 1 {
        assert(after.drop_last() =~= slots.drop_last());
    } else {
        assert(after.drop_last() =~= slots.drop_last().update(i, replicas));
        lemma_slots_update(slots.drop_last(), i, replicas, d);
    }
}

pub proof fn lemma_slot_within(slots: Seq<Seq<ReplicaView>>, i: int, d: Device)
    requires
        0 <= i < slots.len(),
    ensures
        model::owned_len(slots[i], d) <= model::slots_len(slots, d),
    decreases slots.len(),
{
    if i < slots.len() - 1 {
        lemma_slot_within(slots.drop_last(), i, d);
    }
}

/// Empty slots take up nothing.
pub proof fn lemma_empty_slots(slots: Seq<Seq<ReplicaView>>, d: Device)
    requires
        forall|i: int| 0 <= i < slots.len() ==> (#[trigger] slots[i]).len() == 0,
    ensures
        model::slots_len(slots, d) == 0,
    decreases slots.len(),
{
    if slots.len() > 0 {
        assert(slots[slots.len() - 1].len() == 0);
        lemma_empty_slots(slots.drop_last(), d);
    }
}

/// What stays when a slot gives up its room on `d`: nothing there, and
/// everything elsewhere.
pub proof fn lemma_without_owned(replicas: Seq<ReplicaView>, d: Device)
    ensures
        model::owned_len(model::without_owned(replicas, d), d) == 0,
        model::owned_count(model::without_owned(replicas, d), d) == 0,
        forall|e: Device|
            e != d ==> #[trigger] model::owned_count(model::without_owned(replicas, d), e)
                == model::owned_count(replicas, e),
        forall|e: Device|
            e != d ==> #[trigger] model::owned_len(model::without_owned(replicas, d), e) == model::owned_len(replicas, e),
        forall|j: int|
            0 <= j < model::without_owned(replicas, d).len() ==> !(#[trigger] model::without_owned(
                replicas,
                d,
            )[j]).owned_on(d) && replicas.contains(model::without_owned(replicas, d)[j]),
        forall|j: int|
            0 <= j < replicas.len() && !(#[trigger] replicas[j]).owned_on(d) ==> model::without_owned(
                replicas,
                d,
            ).contains(replicas[j]),
    decreases replicas.len(),
{
    if replicas.len() > 0 {
        let before = replicas.drop_last();
        let kept = model::without_owned(replicas, d);
        let kept0 = model::without_owned(before, d);
        lemma_without_owned(before, d);
        assert forall|e: Device| e != d implies #[trigger] model::owned_len(kept, e) == model::owned_len(
            replicas,
            e,
        ) by {
            assert(model::owned_len(kept0, e) == model::owned_len(before, e));
            if !replicas.last().owned_on(d) {
                assert(kept.drop_last() =~= kept0);
            }
        }
        assert forall|e: Device| e != d implies #[trigger] model::owned_count(kept, e)
            == model::owned_count(replicas, e) by {
            assert(model::owned_count(kept0, e) == model::owned_count(before, e));
            if !replicas.last().owned_on(d) {
                assert(kept.drop_last() =~= kept0);
            }
        }
        if !replicas.last().owned_on(d) {
            assert(kept.drop_last() =~= kept0);
        }
        assert forall|j: int| 0 <= j < kept.len() implies !(#[trigger] kept[j]).owned_on(d)
            && replicas.contains(kept[j]) by {
            if j < kept0.len() {
                assert(kept[j] == kept0[j]);
                let i = choose|i: int| 0 <= i < before.len() && before[i] == kept0[j];
                assert(replicas[i] == kept[j]);
            } else {
                assert(replicas[replicas.len() - 1] == kept[j]);
            }
        }
        assert forall|j: int|
            0 <= j < replicas.len() && !(#[trigger] replicas[j]).owned_on(d) implies kept.contains(
            replicas[j],
        ) by {
            if j < before.len() {
                assert(before[j] == replicas[j]);
                let i = choose|i: int| 0 <= i < kept0.len() && kept0[i] == before[j];
                assert(kept[i] == replicas[j]);
            } else {
                assert(kept[kept.len() - 1] == replicas[j]);
            }
        }
    }
}

/// Replicas in a region take up no room of the store: without them, the slot
/// takes up what it did.
pub proof fn lemma_without_region(replicas: Seq<ReplicaView>, id: u64)
    ensures
        forall|d: Device| #[trigger]
            model::owned_len(model::without_region(replicas, id), d) == model::owned_len(replicas, d),
        forall|d: Device| #[trigger]
            model::owned_count(model::without_region(replicas, id), d) == model::owned_count(
                replicas,
                d,
            ),
        forall|j: int|
            0 <= j < model::without_region(replicas, id).len() ==> !(#[trigger] model::without_region(
                replicas,
                id,
            )[j]).from_region(id) && replicas.contains(model::without_region(replicas, id)[j]),
        forall|j: int|
            0 <= j < replicas.len() && !(#[trigger] replicas[j]).from_region(id)
                ==> model::without_region(replicas, id).contains(replicas[j]),
    decreases replicas.len(),
{
    if replicas.len() > 0 {
        let before = replicas.drop_last();
        let kept = model::without_region(replicas, id);
        let kept0 = model::without_region(before, id);
        lemma_without_region(before, id);
        assert forall|d: Device| #[trigger] model::owned_len(kept, d) == model::owned_len(replicas, d) by {
            assert(model::owned_len(kept0, d) == model::owned_len(before, d));
            if !replicas.last().from_region(id) {
                assert(kept.drop_last() =~= kept0);
            }
        }
        assert forall|d: Device| #[trigger] model::owned_count(kept, d) == model::owned_count(
            replicas,
            d,
        ) by {
            assert(model::owned_count(kept0, d) == model::owned_count(before, d));
            if !replicas.last().from_region(id) {
                assert(kept.drop_last() =~= kept0);
            }
        }
        assert forall|j: int| 0 <= j < kept.len() implies !(#[trigger] kept[j]).from_region(id)
            && replicas.contains(kept[j]) by {
            if j < kept0.len() {
                assert(kept[j] == kept0[j]);
                let i = choose|i: int| 0 <= i < before.len() && before[i] == kept0[j];
                assert(replicas[i] == kept[j]);
            } else {
                assert(replicas[replicas.len() - 1] == kept[j]);
            }
        }
        assert forall|j: int|
            0 <= j < replicas.len() && !(#[trigger] replicas[j]).from_region(
                id,
            ) implies kept.contains(replicas[j]) by {
            if j < before.len() {
                assert(before[j] == replicas[j]);
                let i = choose|i: int| 0 <= i < kept0.len() && kept0[i] == before[j];
                assert(kept[i] == replicas[j]);
            } else {
                assert(kept[kept.len() - 1] == replicas[j]);
            }
        }
    }
}

/// One more target is one more copy.
pub proof fn lemma_copies_push(targets: Seq<(Device, bool)>, bytes: Seq<u8>, n: int, d: Device)
    requires
        0 <= n < targets.len(),
    ensures
        model::owned_len(model::copies(targets.take(n + 1), bytes), d) == model::owned_len(
            model::copies(targets.take(n), bytes),
            d,
        ) + if targets[n].0 == d {
            bytes.len()
        } else {
            0
        },
        model::owned_count(model::copies(targets.take(n + 1), bytes), d) == model::owned_count(
            model::copies(targets.take(n), bytes),
            d,
        ) + if targets[n].0 == d {
            1nat
        } else {
            0nat
        },
        model::aimed(targets.take(n + 1), d) == model::aimed(targets.take(n), d)
            + if targets[n].0 == d {
            1nat
        } else {
            0nat
        },
{
    assert(targets.take(n + 1).drop_last() =~= targets.take(n));
    let after = model::copies(targets.take(n + 1), bytes);
    assert(after.drop_last() =~= model::copies(targets.take(n), bytes));
    assert(after.last().data == DataView::Owned(bytes));
}

} // verus!
