//! Where the slots of an object land, and when they are refused.
use vstd::prelude::*;

use crate::ops::OpPutView;
use crate::services::laws;
use crate::services::model;
use crate::services::model::{ObjectView, PoolView, ReplicaView, StateView};
use crate::services::order;
use crate::services::placing;
use crate::types::{Device, PlacementView};

verus! {

/// Whether `bytes` more fit a device, given the objects that have to stay.
pub open spec fn fits(
    stay: Map<Seq<u8>, ObjectView>,
    pools: Map<Device, PoolView>,
    d: Device,
    bytes: nat,
) -> bool {
    &&& pools.contains_key(d)
    &&& match pools[d].capacity {
        None => true,
        Some(cap) => model::held(stay, d) + bytes <= cap,
    }
}

/// Whether a slot of `len` bytes has a place: `Strict` on its device, `Each` on
/// every device for all the copies that go there, `Prefer` and `Anywhere` on any
/// device that is served.
pub open spec fn has_place(
    stay: Map<Seq<u8>, ObjectView>,
    pools: Map<Device, PoolView>,
    placement: PlacementView,
    len: nat,
) -> bool {
    match placement {
        PlacementView::Strict(d) => fits(stay, pools, d, len),
        PlacementView::Prefer(_) => exists|d: Device| fits(stay, pools, d, len),
        PlacementView::Each(ds) => ds.len() > 0 && forall|j: int|
            0 <= j < ds.len() ==> fits(
                stay,
                pools,
                #[trigger] ds[j],
                ds.to_multiset().count(ds[j]) * len,
            ),
        PlacementView::Anywhere => exists|d: Device| fits(stay, pools, d, len),
    }
}

/// Whether a slot that landed took the first place there is: the preferred
/// device, where it fits there, else the first that it fits in the order of the
/// devices.
pub open spec fn first_place(
    stay: Map<Seq<u8>, ObjectView>,
    pools: Map<Device, PoolView>,
    order: Seq<Device>,
    placement: PlacementView,
    len: nat,
    slot: Seq<ReplicaView>,
) -> bool {
    let wanted = match placement {
        PlacementView::Prefer(d) => fits(stay, pools, d, len) && slot[0].device == d,
        _ => false,
    };
    match placement {
        PlacementView::Strict(_) => true,
        PlacementView::Each(_) => true,
        _ => {
            ||| wanted
            ||| !(placement matches PlacementView::Prefer(d) && fits(stay, pools, d, len))
                && exists|m: int|
                0 <= m < order.len() && slot[0].device == #[trigger] order[m] && forall|j: int|
                    0 <= j < m ==> !fits(stay, pools, #[trigger] order[j], len)
        },
    }
}

/// Making room takes nothing that has to stay.
proof fn lemma_fixed_stays(s: StateView, t: StateView, key: Seq<u8>)
    requires
        placing::others_weaken(s, t, key),
        s.objects.contains_key(key),
        t.objects.contains_key(key),
        t.objects[key] == s.objects[key],
    ensures
        order::fixed(t.objects, key) == order::fixed(s.objects, key),
{
    let a = order::fixed(s.objects, key);
    let b = order::fixed(t.objects, key);
    assert forall|k: Seq<u8>| #[trigger] a.contains_key(k) <==> b.contains_key(k) by {
        if a.contains_key(k) && k != key {
            assert(s.objects.contains_key(k));
        }
        if b.contains_key(k) && k != key {
            assert(t.objects.contains_key(k));
            assert(placing::object_weakens(s.objects[k], t.objects[k]));
        }
    }
    assert forall|k: Seq<u8>| #[trigger] a.contains_key(k) implies a[k] == b[k] by {
        assert(s.objects.contains_key(k));
    }
    assert(a =~= b);
}

proof fn lemma_try(
    s: StateView,
    cands: Seq<(Device, bool)>,
    each: bool,
    len: u64,
    key: Seq<u8>,
    n: nat,
)
    requires
        s.inv(),
        s.queued(),
        s.objects.contains_key(key),
        n < cands.len(),
    ensures
        ({
            let stay = order::fixed(s.objects, key);
            let p = s.searched(cands, each, len, key, n);
            let r = s.searched(cands, each, len, key, n + 1);
            let need = (1 + model::aimed(p.targets, cands[n as int].0)) * len as nat;
            if p.done {
                r == p
            } else if fits(stay, s.pools, cands[n as int].0, need) {
                r.targets == p.targets.push(cands[n as int]) && r.done == !each && r.error == p.error
            } else {
                r.targets == p.targets && r.done == each && r.error is Some
            }
        }),
{
    placing::lemma_searched(s, cands, each, len, key, n);
    order::lemma_searched_queued(s, cands, each, len, key, n);
    let p = s.searched(cands, each, len, key, n);
    let d = cands[n as int].0;
    lemma_fixed_stays(s, p.state, key);
    if !p.done && p.state.pools.contains_key(d) {
        let need = (1 + model::aimed(p.targets, d)) * len as nat;
        order::law_room_is_found_where_there_is_any(p.state, d, need, key);
    }
}

/// Where the first place is enough: the first candidate that the slot fits.
proof fn lemma_search_any(
    s: StateView,
    cands: Seq<(Device, bool)>,
    len: u64,
    key: Seq<u8>,
    n: nat,
) -> (m: int)
    requires
        s.inv(),
        s.queued(),
        s.objects.contains_key(key),
        n <= cands.len(),
    ensures
        ({
            let stay = order::fixed(s.objects, key);
            let r = s.searched(cands, false, len, key, n);
            &&& 0 <= m <= n
            &&& forall|j: int|
                0 <= j < m ==> !fits(stay, s.pools, (#[trigger] cands[j]).0, len as nat)
            &&& if m < n {
                fits(stay, s.pools, cands[m].0, len as nat) && r.targets == seq![cands[m]] && r.done
            } else {
                r.targets.len() == 0 && !r.done
            }
        }),
    decreases n,
{
    if n == 0 {
        0
    } else {
        let m = lemma_search_any(s, cands, len, key, (n - 1) as nat);
        let p = s.searched(cands, false, len, key, (n - 1) as nat);
        lemma_try(s, cands, false, len, key, (n - 1) as nat);
        let r = s.searched(cands, false, len, key, n);
        if m < n - 1 {
            m
        } else {
            assert(model::aimed(p.targets, cands[n - 1].0) == 0);
            let all = 1 + model::aimed(p.targets, cands[n - 1].0);
            assert(all * len as nat == len as nat) by (nonlinear_arith)
                requires
                    all == 1,
            ;
            if fits(order::fixed(s.objects, key), s.pools, cands[n - 1].0, len as nat) {
                assert(r.targets =~= seq![cands[n - 1]]);
                n - 1
            } else {
                n as int
            }
        }
    }
}

/// How often a device comes among the first `n` of a list.
spec fn times_in(ds: Seq<Device>, d: Device, n: nat) -> nat
    decreases n,
{
    if n == 0 {
        0
    } else {
        times_in(ds, d, (n - 1) as nat) + if ds[n - 1] == d {
            1nat
        } else {
            0nat
        }
    }
}

proof fn lemma_times_in(ds: Seq<Device>, d: Device, n: nat)
    requires
        n <= ds.len(),
    ensures
        times_in(ds, d, n) == ds.take(n as int).to_multiset().count(d),
    decreases n,
{
    if n == 0 {
        assert(ds.take(0) =~= Seq::<Device>::empty());
        Seq::<Device>::empty().to_multiset_ensures();
        assert(!Seq::<Device>::empty().contains(d));
    } else {
        lemma_times_in(ds, d, (n - 1) as nat);
        assert(ds.take(n as int) =~= ds.take(n - 1).push(ds[n - 1]));
        ds.take(n - 1).to_multiset_ensures();
    }
}

proof fn lemma_times_grow(ds: Seq<Device>, d: Device, a: nat, b: nat)
    requires
        a <= b <= ds.len(),
    ensures
        times_in(ds, d, a) <= times_in(ds, d, b),
    decreases b,
{
    if a < b {
        lemma_times_grow(ds, d, a, (b - 1) as nat);
    }
}

/// Where every place is needed: all of them, or a refusal.
proof fn lemma_search_each(
    s: StateView,
    ds: Seq<Device>,
    cands: Seq<(Device, bool)>,
    len: u64,
    key: Seq<u8>,
    n: nat,
)
    requires
        s.inv(),
        s.queued(),
        s.objects.contains_key(key),
        n <= cands.len(),
        cands == Seq::new(ds.len(), |i: int| (ds[i], false)),
    ensures
        ({
            let stay = order::fixed(s.objects, key);
            let r = s.searched(cands, true, len, key, n);
            &&& r.error is None <==> forall|j: int|
                0 <= j < n ==> fits(
                    stay,
                    s.pools,
                    #[trigger] ds[j],
                    times_in(ds, ds[j], (j + 1) as nat) * len as nat,
                )
            &&& r.error is None ==> !r.done && r.targets == cands.take(n as int) && forall|d: Device|
                #[trigger] model::aimed(r.targets, d) == times_in(ds, d, n)
            &&& r.error is Some ==> r.done
        }),
    decreases n,
{
    let stay = order::fixed(s.objects, key);
    let r = s.searched(cands, true, len, key, n);
    if n == 0 {
        assert(cands.take(0) =~= Seq::<(Device, bool)>::empty());
    } else {
        lemma_search_each(s, ds, cands, len, key, (n - 1) as nat);
        let p = s.searched(cands, true, len, key, (n - 1) as nat);
        lemma_try(s, cands, true, len, key, (n - 1) as nat);
        let d = ds[n - 1];
        assert(cands[n - 1].0 == d);
        if p.error is None {
            assert(model::aimed(p.targets, d) == times_in(ds, d, (n - 1) as nat));
            assert(1 + model::aimed(p.targets, d) == times_in(ds, d, n));
            if fits(stay, s.pools, d, times_in(ds, d, n) * len as nat) {
                assert(r.targets =~= cands.take(n as int));
                assert forall|x: Device| #[trigger] model::aimed(r.targets, x) == times_in(
                    ds,
                    x,
                    n,
                ) by {
                    assert(r.targets.drop_last() =~= p.targets);
                    assert(model::aimed(p.targets, x) == times_in(ds, x, (n - 1) as nat));
                }
            } else {
                assert(!fits(stay, s.pools, ds[n - 1], times_in(ds, ds[n - 1], n) * len as nat));
            }
        } else {
            let j = choose|j: int|
                0 <= j < n - 1 && !fits(
                    stay,
                    s.pools,
                    #[trigger] ds[j],
                    times_in(ds, ds[j], (j + 1) as nat) * len as nat,
                );
            assert(!fits(
                stay,
                s.pools,
                ds[j],
                times_in(ds, ds[j], (j + 1) as nat) * len as nat,
            ));
        }
    }
}

/// Where the last copy on a device fits with those before it, each of them does.
proof fn lemma_each_fits(
    stay: Map<Seq<u8>, ObjectView>,
    pools: Map<Device, PoolView>,
    ds: Seq<Device>,
    len: u64,
)
    ensures
        (forall|j: int|
            0 <= j < ds.len() ==> fits(
                stay,
                pools,
                #[trigger] ds[j],
                times_in(ds, ds[j], (j + 1) as nat) * len as nat,
            )) <==> (forall|j: int|
            0 <= j < ds.len() ==> fits(
                stay,
                pools,
                #[trigger] ds[j],
                ds.to_multiset().count(ds[j]) * len as nat,
            )),
{
    let n = ds.len();
    assert(ds.take(n as int) =~= ds);
    if forall|j: int|
        0 <= j < n ==> fits(
            stay,
            pools,
            #[trigger] ds[j],
            times_in(ds, ds[j], (j + 1) as nat) * len as nat,
        ) {
        assert forall|j: int| 0 <= j < n implies fits(
            stay,
            pools,
            #[trigger] ds[j],
            ds.to_multiset().count(ds[j]) * len as nat,
        ) by {
            lemma_times_in(ds, ds[j], n);
            let l = lemma_last_time(ds, ds[j], n, j);
            assert(ds[l] == ds[j]);
            assert(fits(stay, pools, ds[l], times_in(ds, ds[l], (l + 1) as nat) * len as nat));
        }
    }
    if forall|j: int|
        0 <= j < n ==> fits(
            stay,
            pools,
            #[trigger] ds[j],
            ds.to_multiset().count(ds[j]) * len as nat,
        ) {
        assert forall|j: int| 0 <= j < n implies fits(
            stay,
            pools,
            #[trigger] ds[j],
            times_in(ds, ds[j], (j + 1) as nat) * len as nat,
        ) by {
            lemma_times_in(ds, ds[j], n);
            lemma_times_grow(ds, ds[j], (j + 1) as nat, n);
            let a = times_in(ds, ds[j], (j + 1) as nat);
            let b = times_in(ds, ds[j], n);
            assert(a * len <= b * len) by (nonlinear_arith)
                requires
                    a <= b,
            ;
            assert(fits(stay, pools, ds[j], ds.to_multiset().count(ds[j]) * len as nat));
        }
    }
}

proof fn lemma_last_time(ds: Seq<Device>, d: Device, n: nat, j: int) -> (l: int)
    requires
        n <= ds.len(),
        0 <= j < n,
        ds[j] == d,
    ensures
        0 <= l < n,
        ds[l] == d,
        times_in(ds, d, (l + 1) as nat) == times_in(ds, d, n),
    decreases n,
{
    if ds[n - 1] == d {
        n - 1
    } else {
        lemma_last_time(ds, d, (n - 1) as nat, j)
    }
}

proof fn lemma_fallback_at(devices: Seq<Device>, d: Device, n: nat, c: int) -> (m: int)
    requires
        n <= devices.len(),
        0 <= c < model::fallbacks(devices, d, n).len(),
    ensures
        0 <= m < n,
        devices[m] == model::fallbacks(devices, d, n)[c].0,
        devices[m] != d,
        forall|j: int|
            0 <= j < m && #[trigger] devices[j] != d ==> exists|x: int|
                0 <= x < c && (#[trigger] model::fallbacks(devices, d, n)[x]).0 == devices[j],
    decreases n,
{
    let before = model::fallbacks(devices, d, (n - 1) as nat);
    let now = model::fallbacks(devices, d, n);
    if c < before.len() {
        let m = lemma_fallback_at(devices, d, (n - 1) as nat, c);
        assert forall|j: int| 0 <= j < m && #[trigger] devices[j] != d implies exists|x: int|
            0 <= x < c && (#[trigger] now[x]).0 == devices[j] by {
            let x = choose|x: int| 0 <= x < c && (#[trigger] before[x]).0 == devices[j];
            assert(now[x] == before[x]);
        }
        m
    } else {
        assert forall|j: int| 0 <= j < n - 1 && #[trigger] devices[j] != d implies exists|x: int|
            0 <= x < c && (#[trigger] now[x]).0 == devices[j] by {
            let x = lemma_fallback_of(devices, d, (n - 1) as nat, j);
            assert(now[x] == before[x]);
        }
        n - 1
    }
}

proof fn lemma_fallback_of(devices: Seq<Device>, d: Device, n: nat, j: int) -> (x: int)
    requires
        n <= devices.len(),
        0 <= j < n,
        devices[j] != d,
    ensures
        0 <= x < model::fallbacks(devices, d, n).len(),
        model::fallbacks(devices, d, n)[x].0 == devices[j],
    decreases n,
{
    let before = model::fallbacks(devices, d, (n - 1) as nat);
    if j == n - 1 {
        before.len() as int
    } else {
        lemma_fallback_of(devices, d, (n - 1) as nat, j)
    }
}

/// A slot is refused only where it has no place: whatever the placement asks
/// for, it lands exactly if the bytes that may not be evicted, with its own, are
/// within the limits. Where there is a choice, it takes the first place.
pub proof fn law_slots_land_where_there_is_room(
    s: StateView,
    devices: Seq<Device>,
    key: Seq<u8>,
    i: nat,
    placement: PlacementView,
    bytes: Seq<u8>,
    len: u64,
)
    requires
        s.inv(),
        s.queued(),
        s.objects.contains_key(key),
        i < s.objects[key].slots.len(),
        s.objects[key].slots[i as int].len() == 0,
        s.objects[key].spec.slots[i as int].len == len,
        bytes.len() == len,
        forall|d: Device| #[trigger] devices.contains(d) <==> s.pools.contains_key(d),
    ensures
        ({
            let stay = order::fixed(s.objects, key);
            let (t, r) = s.placed(devices, key, i, placement, bytes, len);
            &&& r is Ok <==> has_place(stay, s.pools, placement, len as nat)
            &&& r is Ok ==> first_place(
                stay,
                s.pools,
                devices,
                placement,
                len as nat,
                t.objects[key].slots[i as int],
            )
        }),
{
    let stay = order::fixed(s.objects, key);
    let each = placement is Each;
    let cands = model::candidates(placement, devices);
    let found = s.searched(cands, each, len, key, cands.len());
    let (t, r) = s.placed(devices, key, i, placement, bytes, len);
    placing::lemma_searched(s, cands, each, len, key, cands.len());
    if r is Ok {
        lemma_landed(s, devices, key, i, placement, bytes, len);
    }
    match placement {
        PlacementView::Each(ds) => {
            lemma_search_each(s, ds, cands, len, key, cands.len());
            lemma_each_fits(stay, s.pools, ds, len);
            assert(cands.take(cands.len() as int) =~= cands);
        },
        PlacementView::Strict(d) => {
            let m = lemma_search_any(s, cands, len, key, cands.len());
            assert(cands[0].0 == d);
        },
        PlacementView::Prefer(d) => {
            let m = lemma_search_any(s, cands, len, key, cands.len());
            let others = model::fallbacks(devices, d, devices.len());
            assert(cands[0].0 == d);
            assert forall|x: int| 0 <= x < others.len() implies #[trigger] others[x] == cands[x
                + 1] by {}
            if r is Err {
                assert forall|x: Device| !fits(stay, s.pools, x, len as nat) by {
                    if fits(stay, s.pools, x, len as nat) {
                        assert(devices.contains(x));
                        if x == d {
                            assert(!fits(stay, s.pools, cands[0].0, len as nat));
                        } else {
                            let c = lemma_fallback_of(
                                devices,
                                d,
                                devices.len(),
                                devices.index_of(x),
                            );
                            assert(!fits(stay, s.pools, cands[c + 1].0, len as nat));
                        }
                    }
                }
            } else {
                assert(fits(stay, s.pools, cands[m].0, len as nat));
                if m > 0 {
                    assert(!fits(stay, s.pools, cands[0].0, len as nat));
                    assert(others[m - 1] == cands[m]);
                    let at = lemma_fallback_at(devices, d, devices.len(), m - 1);
                    assert forall|j: int| 0 <= j < at implies !fits(
                        stay,
                        s.pools,
                        #[trigger] devices[j],
                        len as nat,
                    ) by {
                        if devices[j] != d {
                            let x = choose|x: int|
                                0 <= x < m - 1 && (#[trigger] others[x]).0 == devices[j];
                            assert(cands[x + 1] == others[x]);
                            assert(!fits(stay, s.pools, cands[x + 1].0, len as nat));
                        }
                    }
                    assert(t.objects[key].slots[i as int][0].device == devices[at]);
                }
            }
        },
        PlacementView::Anywhere => {
            let m = lemma_search_any(s, cands, len, key, cands.len());
            assert forall|x: int| 0 <= x < cands.len() implies (#[trigger] cands[x]).0
                == devices[x] by {}
            if r is Err {
                assert forall|x: Device| !fits(stay, s.pools, x, len as nat) by {
                    if fits(stay, s.pools, x, len as nat) {
                        assert(devices.contains(x));
                        let c = devices.index_of(x);
                        assert(!fits(stay, s.pools, cands[c].0, len as nat));
                    }
                }
            } else {
                assert(fits(stay, s.pools, cands[m].0, len as nat));
                assert forall|j: int| 0 <= j < m implies !fits(
                    stay,
                    s.pools,
                    #[trigger] devices[j],
                    len as nat,
                ) by {
                    assert(!fits(stay, s.pools, cands[j].0, len as nat));
                }
                assert(t.objects[key].slots[i as int][0].device == devices[m]);
            }
        },
    }
}

/// What a slot that was placed holds: one replica per target.
proof fn lemma_landed(
    s: StateView,
    devices: Seq<Device>,
    key: Seq<u8>,
    i: nat,
    placement: PlacementView,
    bytes: Seq<u8>,
    len: u64,
)
    requires
        s.inv(),
        s.objects.contains_key(key),
        i < s.objects[key].slots.len(),
        s.objects[key].slots[i as int].len() == 0,
        bytes.len() == len,
        s.placed(devices, key, i, placement, bytes, len).1 is Ok,
    ensures
        ({
            let cands = model::candidates(placement, devices);
            let found = s.searched(cands, placement is Each, len, key, cands.len());
            let slot = s.placed(devices, key, i, placement, bytes, len).0.objects[key].slots[i as int];
            &&& slot.len() == found.targets.len()
            &&& forall|j: int|
                0 <= j < slot.len() ==> (#[trigger] slot[j]).device == found.targets[j].0
        }),
{
    let each = placement is Each;
    let cands = model::candidates(placement, devices);
    placing::lemma_searched(s, cands, each, len, key, cands.len());
    let found = s.searched(cands, each, len, key, cands.len());
    let m = found.state.landed(key, i, found.targets, bytes);
    assert forall|j: int| 0 <= j < found.targets.len() implies m.pools.contains_key(
        (#[trigger] found.targets[j]).0,
    ) by {}
    placing::lemma_charged_all(m, found.targets, key, i, len, bytes, found.targets.len());
    let reps = model::copies(found.targets, bytes);
    assert(found.state.objects[key].slots[i as int] + reps =~= reps);
}

/// What has to stay while slot `i` of a `put` is placed: what is not evicted of
/// the other objects, and of the object itself what it had and the slots that
/// were written before.
pub open spec fn staying_for(
    s: StateView,
    t: StateView,
    key: Seq<u8>,
    i: int,
) -> Map<Seq<u8>, ObjectView> {
    let obj = t.objects[key];
    order::fixed(s.objects, key).insert(
        key,
        ObjectView {
            slots: Seq::new(
                obj.slots.len(),
                |j: int|
                    if j < i {
                        obj.slots[j]
                    } else if s.objects.contains_key(key) {
                        s.objects[key].slots[j]
                    } else {
                        Seq::empty()
                    },
            ),
            ..obj
        },
    )
}

proof fn lemma_slot_settled(
    s: StateView,
    devices: Seq<Device>,
    key: Seq<u8>,
    op: OpPutView,
    data: Seq<Seq<u8>>,
    n: nat,
    m: nat,
    j: int,
)
    requires
        s.inv(),
        placing::data_fits(op, data),
        s.objects.contains_key(key) ==> s.objects[key].spec == op.spec(),
        0 <= j < n <= m <= op.slots.len(),
    ensures
        s.put_slots(devices, key, op, data, m).0.objects[key].slots[j] == s.put_slots(
            devices,
            key,
            op,
            data,
            n,
        ).0.objects[key].slots[j],
        s.put_slots(devices, key, op, data, m).1[j] == s.put_slots(devices, key, op, data, n).1[j],
    decreases m,
{
    placing::lemma_put_slots(s, devices, key, op, data, n);
    placing::lemma_put_slots(s, devices, key, op, data, m);
    if n < m {
        let last = (m - 1) as nat;
        lemma_slot_settled(s, devices, key, op, data, n, last, j);
        placing::lemma_put_slots(s, devices, key, op, data, last);
        let p = s.put_slots(devices, key, op, data, last).0;
        if s.writable(key, last) {
            let spec = op.slots[last as int].spec;
            laws::lemma_placed_alone(
                p,
                devices,
                key,
                last,
                spec.placement,
                data[last as int],
                spec.len,
                j,
            );
        }
    }
}

/// A `put` reports a slot as written exactly if it was empty before and has a
/// place, given what has to stay; it then takes the first place there is.
pub proof fn law_put_lands_where_there_is_room(
    s: StateView,
    devices: Seq<Device>,
    key: Seq<u8>,
    op: OpPutView,
    data: Seq<Seq<u8>>,
    i: int,
)
    requires
        s.sound(),
        placing::data_fits(op, data),
        s.put(devices, key, op, data).1 is Ok,
        0 <= i < op.slots.len(),
        forall|d: Device| #[trigger] devices.contains(d) <==> s.pools.contains_key(d),
    ensures
        ({
            let (t, r) = s.put(devices, key, op, data);
            let spec = op.slots[i].spec;
            let stay = staying_for(s, t, key, i);
            let free = s.objects.contains_key(key) ==> s.objects[key].slots[i].len() == 0;
            &&& r->Ok_0[i] is Ok <==> free && has_place(
                stay,
                s.pools,
                spec.placement,
                spec.len as nat,
            )
            &&& r->Ok_0[i] is Ok ==> first_place(
                stay,
                s.pools,
                devices,
                spec.placement,
                spec.len as nat,
                t.objects[key].slots[i],
            )
        }),
{
    let n = op.slots.len();
    let (t, r) = s.put(devices, key, op, data);
    let p = s.put_slots(devices, key, op, data, i as nat).0;
    let spec = op.slots[i].spec;
    let stay = staying_for(s, t, key, i);
    placing::lemma_put_slots(s, devices, key, op, data, n);
    placing::lemma_put_slots(s, devices, key, op, data, i as nat);
    placing::lemma_put_slots(s, devices, key, op, data, (i + 1) as nat);
    order::lemma_put_slots_sound(s, devices, key, op, data, i as nat);
    lemma_slot_settled(s, devices, key, op, data, (i + 1) as nat, n, i);
    placing::lemma_reserved(s, key, op);
    let start = s.reserved(key, op.spec()).objects[key];
    if s.writable(key, i as nat) {
        assert(op.spec().slots[i] == spec);
        assert(p.objects[key].slots[i] == start.slots[i]);
        assert(order::fixed(p.objects, key) == stay) by {
            let a = order::fixed(p.objects, key);
            assert forall|k: Seq<u8>| #[trigger] a.contains_key(k) <==> stay.contains_key(k) by {
                if k != key && p.objects.contains_key(k) {
                    assert(placing::object_weakens(s.objects[k], p.objects[k]));
                }
                if k != key && stay.contains_key(k) {
                    assert(s.objects.contains_key(k));
                }
            }
            assert forall|k: Seq<u8>| #[trigger] a.contains_key(k) implies a[k] == stay[k] by {
                if k != key {
                    assert(s.objects.contains_key(k));
                } else {
                    assert forall|j: int| 0 <= j < n implies #[trigger] p.objects[key].slots[j]
                        == stay[key].slots[j] by {
                        if j < i {
                            lemma_slot_settled(s, devices, key, op, data, i as nat, n, j);
                        } else {
                            assert(p.objects[key].slots[j] == start.slots[j]);
                        }
                    }
                    assert(a[k].slots =~= stay[k].slots);
                }
            }
            assert(a =~= stay);
        }
        assert forall|d: Device| #[trigger] devices.contains(d) <==> p.pools.contains_key(d) by {}
        law_slots_land_where_there_is_room(
            p,
            devices,
            key,
            i as nat,
            spec.placement,
            data[i],
            spec.len,
        );
        lemma_same_fit(stay, s.pools, p.pools, devices, spec.placement, spec.len as nat, t.objects[key].slots[i]);
    }
}

/// Only the limits of the pools matter.
proof fn lemma_same_fit(
    stay: Map<Seq<u8>, ObjectView>,
    a: Map<Device, PoolView>,
    b: Map<Device, PoolView>,
    devices: Seq<Device>,
    placement: PlacementView,
    len: nat,
    slot: Seq<ReplicaView>,
)
    requires
        a.dom() == b.dom(),
        forall|d: Device| #[trigger] a.contains_key(d) ==> a[d].capacity == b[d].capacity,
    ensures
        has_place(stay, a, placement, len) == has_place(stay, b, placement, len),
        first_place(stay, a, devices, placement, len, slot) == first_place(
            stay,
            b,
            devices,
            placement,
            len,
            slot,
        ),
{
    assert forall|d: Device, n: nat|
        #![trigger fits(stay, a, d, n)]
        #![trigger fits(stay, b, d, n)]
        fits(stay, a, d, n) == fits(stay, b, d, n) by {
        assert(a.contains_key(d) == b.contains_key(d));
    }
    if let PlacementView::Each(ds) = placement {
        assert forall|j: int| 0 <= j < ds.len() implies fits(
            stay,
            a,
            #[trigger] ds[j],
            ds.to_multiset().count(ds[j]) * len,
        ) == fits(stay, b, ds[j], ds.to_multiset().count(ds[j]) * len) by {}
    }
    if has_place(stay, a, placement, len) && (placement is Prefer || placement is Anywhere) {
        let d = choose|d: Device| fits(stay, a, d, len);
        assert(fits(stay, b, d, len));
    }
    if has_place(stay, b, placement, len) && (placement is Prefer || placement is Anywhere) {
        let d = choose|d: Device| fits(stay, b, d, len);
        assert(fits(stay, a, d, len));
    }
}

} // verus!
