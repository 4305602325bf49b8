//! What the calls of the in-process backend answer and leave behind.
use vstd::prelude::*;

use crate::error::{ErrorKind, ErrorView};
use crate::ops::OpPutView;
use crate::services::laws;
use crate::services::model;
use crate::services::model::StateView;
use crate::services::placing;
use crate::types::{Device, NodeId, PlacementView};

verus! {

/// A `put` is taken exactly if it is sound and the object is new or has the same
/// spec; every slot then has an answer, and the object is there as asked for. A
/// slot that had a replica is answered `AlreadyExists`, and no other is.
pub proof fn law_puts_are_answered_slot_by_slot(
    s: StateView,
    devices: Seq<Device>,
    key: Seq<u8>,
    op: OpPutView,
    data: Seq<Seq<u8>>,
    i: int,
)
    requires
        s.inv(),
        op.error() is None ==> placing::data_fits(op, data),
        0 <= i < op.slots.len(),
    ensures
        ({
            let (t, r) = s.put(devices, key, op, data);
            &&& r is Ok <==> op.error() is None && (s.objects.contains_key(key)
                ==> s.objects[key].spec == op.spec())
            &&& r is Err ==> t == s
            &&& op.error() matches Some(e) ==> r == Err::<
                Seq<Result<(), ErrorView>>,
                ErrorView,
            >(e)
            &&& r matches Ok(answers) ==> {
                &&& answers.len() == op.slots.len()
                &&& t.objects.contains_key(key)
                &&& t.objects[key].spec == op.spec()
                &&& t.objects[key].slots.len() == op.slots.len()
                &&& (answers[i] matches Err(e) && e.kind == ErrorKind::AlreadyExists)
                    <==> s.objects.contains_key(key) && s.objects[key].slots[i].len() > 0
            }
        }),
{
    let (t, r) = s.put(devices, key, op, data);
    if r is Ok {
        placing::lemma_put_slots(s, devices, key, op, data, op.slots.len());
        lemma_answer(s, devices, key, op, data, op.slots.len(), i);
    }
}

proof fn lemma_answer(
    s: StateView,
    devices: Seq<Device>,
    key: Seq<u8>,
    op: OpPutView,
    data: Seq<Seq<u8>>,
    n: nat,
    i: int,
)
    requires
        s.inv(),
        placing::data_fits(op, data),
        s.objects.contains_key(key) ==> s.objects[key].spec == op.spec(),
        0 <= i < n <= op.slots.len(),
    ensures
        ({
            let answer = s.put_slots(devices, key, op, data, n).1[i];
            (answer matches Err(e) && e.kind == ErrorKind::AlreadyExists) <==> !s.writable(
                key,
                i as nat,
            )
        }),
    decreases n,
{
    placing::lemma_put_slots(s, devices, key, op, data, (n - 1) as nat);
    if i < n - 1 {
        lemma_answer(s, devices, key, op, data, (n - 1) as nat, i);
    } else if s.writable(key, i as nat) {
        let p = s.put_slots(devices, key, op, data, (n - 1) as nat).0;
        let spec = op.slots[i].spec;
        laws::law_no_space_is_temporary(
            p,
            devices,
            key,
            i as nat,
            spec.placement,
            data[i],
            spec.len,
        );
    }
}

/// A slot that has no place on the devices it asks for is answered `NoSpace`
/// where these are served, and `InvalidInput` where one of them is not.
pub proof fn law_want_of_room_is_no_space(
    s: StateView,
    devices: Seq<Device>,
    key: Seq<u8>,
    i: nat,
    placement: PlacementView,
    bytes: Seq<u8>,
    len: u64,
)
    requires
        s.inv(),
        s.objects.contains_key(key),
    ensures
        s.placed(devices, key, i, placement, bytes, len).1 matches Err(e) ==> {
            &&& e.kind == ErrorKind::NoSpace || e.kind == ErrorKind::InvalidInput
            &&& placement matches PlacementView::Strict(d) ==> (e.kind == ErrorKind::NoSpace
                <==> s.pools.contains_key(d))
            &&& placement matches PlacementView::Each(ds) ==> (forall|j: int|
                0 <= j < ds.len() ==> s.pools.contains_key(#[trigger] ds[j])) ==> e.kind
                == ErrorKind::NoSpace
            &&& placement is Anywhere && (forall|j: int|
                0 <= j < devices.len() ==> s.pools.contains_key(#[trigger] devices[j])) ==> e.kind
                == ErrorKind::NoSpace
        },
{
    let each = placement is Each;
    let cands = model::candidates(placement, devices);
    laws::law_no_space_is_temporary(s, devices, key, i, placement, bytes, len);
    lemma_search_kind(s, cands, each, len, key, cands.len());
    if let PlacementView::Strict(d) = placement {
        assert(cands[0].0 == d);
        lemma_search_kind(s, cands, each, len, key, 1);
        placing::lemma_searched(s, cands, each, len, key, 0);
    }
    if let PlacementView::Each(ds) = placement {
        assert forall|j: int| 0 <= j < cands.len() implies (#[trigger] cands[j]).0 == ds[j] by {}
    }
    if placement is Anywhere {
        assert forall|j: int| 0 <= j < cands.len() implies (#[trigger] cands[j]).0
            == devices[j] by {}
    }
}

proof fn lemma_search_kind(
    s: StateView,
    cands: Seq<(Device, bool)>,
    each: bool,
    len: u64,
    key: Seq<u8>,
    n: nat,
)
    requires
        s.inv(),
        s.objects.contains_key(key),
        n <= cands.len(),
    ensures
        (forall|j: int| 0 <= j < n ==> s.pools.contains_key((#[trigger] cands[j]).0)) ==> (
        s.searched(cands, each, len, key, n).error matches Some(e) ==> e.kind == ErrorKind::NoSpace),
    decreases n,
{
    if n > 0 {
        lemma_search_kind(s, cands, each, len, key, (n - 1) as nat);
        placing::lemma_searched(s, cands, each, len, key, (n - 1) as nat);
    }
}

/// `stat` shows an object as it is: its retention, and of every slot its length
/// and every replica, in order, with its node, device, tier and flag.
pub proof fn law_stat_shows_every_replica(s: StateView, node: NodeId, key: Seq<u8>, i: int, j: int)
    requires
        s.objects.contains_key(key),
        0 <= i < s.objects[key].slots.len(),
        0 <= j < s.objects[key].slots[i].len(),
    ensures
        ({
            let obj = s.objects[key];
            let r = obj.slots[i][j];
            s.info(node, key) matches Some(info) && {
                &&& info.retention == obj.spec.retention
                &&& info.slots.len() == obj.slots.len()
                &&& info.slots[i].len == obj.spec.slots[i].len
                &&& info.slots[i].replicas.len() == obj.slots[i].len()
                &&& info.slots[i].replicas[j].location.node == node
                &&& info.slots[i].replicas[j].location.device == r.device
                &&& info.slots[i].replicas[j].location.tier == r.tier
                &&& info.slots[i].replicas[j].misplaced == r.misplaced
            }
        }),
        forall|k: Seq<u8>| !s.objects.contains_key(k) ==> #[trigger] s.info(node, k) is None,
        forall|x: int|
            0 <= x < s.objects[key].slots.len() ==> #[trigger] s.info(node, key)->0.slots[x].replicas.len()
                == s.objects[key].slots[x].len(),
{
}

/// A removal takes the keys that it names, and no other object.
pub proof fn law_removal_takes_its_keys_alone(s: StateView, keys: Seq<Seq<u8>>, n: nat, k: Seq<u8>)
    requires
        n <= keys.len(),
    ensures
        s.removed_all(keys, n).objects.contains_key(k) <==> s.objects.contains_key(k)
            && !keys.take(n as int).contains(k),
        s.removed_all(keys, n).objects.contains_key(k) ==> s.removed_all(keys, n).objects[k]
            == s.objects[k],
        s.removed_all(keys, n).pools.dom() == s.pools.dom(),
    decreases n,
{
    if n == 0 {
        assert(keys.take(0) =~= Seq::<Seq<u8>>::empty());
    } else {
        law_removal_takes_its_keys_alone(s, keys, (n - 1) as nat, k);
        let p = s.removed_all(keys, (n - 1) as nat);
        let last = keys[n - 1];
        assert(keys.take(n as int) =~= keys.take(n - 1).push(last));
        if keys.take(n - 1).contains(k) {
            let c = keys.take(n - 1).index_of(k);
            assert(keys.take(n as int)[c] == k);
        }
        if k == last {
            assert(keys.take(n as int)[n - 1] == k);
        }
        if keys.take(n as int).contains(k) {
            let c = keys.take(n as int).index_of(k);
            if c < n - 1 {
                assert(keys.take(n - 1)[c] == k);
            }
        }
        assert(p.removed(last).pools.dom() =~= p.pools.dom());
    }
}

} // verus!
