//! The eviction orders are orders of arrival: a call takes entries out of them
//! and adds new ones at the end, and never changes the order of two others.
use vstd::prelude::*;

use crate::ops::OpPutView;
use crate::services::evict;
use crate::services::history;
use crate::services::history::Call;
use crate::services::memory;
use crate::services::model;
use crate::services::model::{Entry, StateView};
use crate::services::order;
use crate::services::placing;
use crate::types::Device;

verus! {

/// Whether `a` is `b` with entries taken out.
pub open spec fn thinned(a: Seq<Entry>, b: Seq<Entry>) -> bool
    decreases b.len(),
{
    if b.len() == 0 {
        a.len() == 0
    } else {
        ||| thinned(a, b.drop_last())
        ||| a.len() > 0 && a.last() == b.last() && thinned(a.drop_last(), b.drop_last())
    }
}

/// Whether `a` is `b` with entries taken out, and entries of `key` added at the
/// end.
pub open spec fn follows(a: Seq<Entry>, b: Seq<Entry>, key: Seq<u8>) -> bool
    decreases a.len(),
{
    ||| thinned(a, b)
    ||| a.len() > 0 && a.last().0 == key && follows(a.drop_last(), b, key)
}

pub proof fn lemma_thinned_same(a: Seq<Entry>)
    ensures
        thinned(a, a),
    decreases a.len(),
{
    if a.len() > 0 {
        lemma_thinned_same(a.drop_last());
    }
}

pub proof fn lemma_thinned_twice(a: Seq<Entry>, b: Seq<Entry>, c: Seq<Entry>)
    requires
        thinned(a, b),
        thinned(b, c),
    ensures
        thinned(a, c),
    decreases c.len(),
{
    if c.len() > 0 {
        if thinned(b, c.drop_last()) {
            lemma_thinned_twice(a, b, c.drop_last());
        } else if thinned(a, b.drop_last()) {
            lemma_thinned_twice(a, b.drop_last(), c.drop_last());
        } else {
            lemma_thinned_twice(a.drop_last(), b.drop_last(), c.drop_last());
        }
    }
}

pub proof fn lemma_thinned_with(q: Seq<Entry>, keep: spec_fn(Entry) -> bool)
    ensures
        thinned(model::entries_with(q, keep), q),
    decreases q.len(),
{
    if q.len() > 0 {
        lemma_thinned_with(q.drop_last(), keep);
        let before = model::entries_with(q.drop_last(), keep);
        if keep(q.last()) {
            assert(before.push(q.last()).drop_last() =~= before);
        }
    }
}

pub proof fn lemma_thinned_add(a: Seq<Entry>, b: Seq<Entry>, c: Seq<Entry>)
    requires
        thinned(a, b),
    ensures
        thinned(a + c, b + c),
    decreases c.len(),
{
    if c.len() == 0 {
        assert(a + c =~= a);
        assert(b + c =~= b);
    } else {
        lemma_thinned_add(a, b, c.drop_last());
        assert((a + c).drop_last() =~= a + c.drop_last());
        assert((b + c).drop_last() =~= b + c.drop_last());
    }
}

/// The order of those that stay, after one stretch at the front was thinned out.
pub proof fn lemma_thinned_front(q: Seq<Entry>, keep: spec_fn(Entry) -> bool, n: int)
    requires
        0 <= n <= q.len(),
    ensures
        thinned(model::entries_with(q.take(n), keep) + q.skip(n), q),
{
    lemma_thinned_with(q.take(n), keep);
    lemma_thinned_add(model::entries_with(q.take(n), keep), q.take(n), q.skip(n));
    assert(q.take(n) + q.skip(n) =~= q);
}

pub proof fn lemma_follows_push(a: Seq<Entry>, b: Seq<Entry>, key: Seq<u8>, slot: nat)
    requires
        follows(a, b, key),
    ensures
        follows(a.push((key, slot)), b, key),
{
    assert(a.push((key, slot)).drop_last() =~= a);
}

// ---- room is made from the front ----

/// An order whose first `n` entries were thinned out to those that are kept.
pub open spec fn front_cut(q: Seq<Entry>, keep: spec_fn(Entry) -> bool, n: int) -> Seq<Entry> {
    model::entries_with(q.take(n), keep) + q.skip(n)
}

proof fn lemma_with_add(a: Seq<Entry>, b: Seq<Entry>, keep: spec_fn(Entry) -> bool)
    ensures
        model::entries_with(a + b, keep) == model::entries_with(a, keep) + model::entries_with(
            b,
            keep,
        ),
    decreases b.len(),
{
    if b.len() == 0 {
        assert(a + b =~= a);
        assert(model::entries_with(a, keep) + Seq::<Entry>::empty() =~= model::entries_with(
            a,
            keep,
        ));
    } else {
        lemma_with_add(a, b.drop_last(), keep);
        assert((a + b).drop_last() =~= a + b.drop_last());
        assert(model::entries_with(a + b, keep) =~= model::entries_with(a, keep)
            + model::entries_with(b, keep));
    }
}

proof fn lemma_with_all(q: Seq<Entry>, keep: spec_fn(Entry) -> bool)
    requires
        forall|i: int| 0 <= i < q.len() ==> keep(#[trigger] q[i]),
    ensures
        model::entries_with(q, keep) == q,
    decreases q.len(),
{
    if q.len() > 0 {
        assert(keep(q[q.len() - 1]));
        assert forall|i: int| 0 <= i < q.len() - 1 implies keep(#[trigger] q.drop_last()[i]) by {
            assert(keep(q[i]));
        }
        lemma_with_all(q.drop_last(), keep);
        assert(q.drop_last().push(q.last()) =~= q);
    } else {
        assert(model::entries_with(q, keep) =~= q);
    }
}

proof fn lemma_with_kept(q: Seq<Entry>, keep: spec_fn(Entry) -> bool, i: int)
    requires
        0 <= i < model::entries_with(q, keep).len(),
    ensures
        keep(model::entries_with(q, keep)[i]),
        q.contains(model::entries_with(q, keep)[i]),
    decreases q.len(),
{
    let before = model::entries_with(q.drop_last(), keep);
    if i < before.len() {
        lemma_with_kept(q.drop_last(), keep, i);
        let c = q.drop_last().index_of(before[i]);
        assert(q[c] == before[i]);
    } else {
        assert(q[q.len() - 1] == model::entries_with(q, keep)[i]);
    }
}

proof fn lemma_with_alike(
    q: Seq<Entry>,
    keep: spec_fn(Entry) -> bool,
    other: spec_fn(Entry) -> bool,
)
    requires
        forall|i: int| 0 <= i < q.len() ==> keep(#[trigger] q[i]) == other(q[i]),
    ensures
        model::entries_with(q, keep) == model::entries_with(q, other),
    decreases q.len(),
{
    if q.len() > 0 {
        assert(keep(q[q.len() - 1]) == other(q[q.len() - 1]));
        assert forall|i: int| 0 <= i < q.len() - 1 implies keep(#[trigger] q.drop_last()[i])
            == other(q.drop_last()[i]) by {
            assert(keep(q[i]) == other(q[i]));
        }
        lemma_with_alike(q.drop_last(), keep, other);
    }
}

/// Cutting twice from the front, with kept entries behind, is cutting once.
proof fn lemma_cut_again(
    q: Seq<Entry>,
    keep: spec_fn(Entry) -> bool,
    n: int,
    added: Seq<Entry>,
    m: int,
) -> (r: int)
    requires
        0 <= n <= q.len(),
        0 <= m <= front_cut(q, keep, n).len() + added.len(),
        forall|i: int| 0 <= i < added.len() ==> keep(#[trigger] added[i]),
    ensures
        n <= r <= q.len(),
        front_cut(front_cut(q, keep, n) + added, keep, m) == front_cut(q, keep, r) + added,
{
    let w = model::entries_with(q.take(n), keep);
    let rest = q.skip(n);
    let all = w + rest + added;
    assert(front_cut(q, keep, n) + added =~= all);
    assert forall|i: int| 0 <= i < w.len() implies keep(#[trigger] w[i]) by {
        lemma_with_kept(q.take(n), keep, i);
    }
    if m <= w.len() {
        assert(all.take(m) =~= w.take(m));
        assert forall|i: int| 0 <= i < m implies keep(#[trigger] w.take(m)[i]) by {
            assert(keep(w[i]));
        }
        lemma_with_all(w.take(m), keep);
        assert(all.take(m) + all.skip(m) =~= all);
        n
    } else {
        let c = if m - w.len() <= rest.len() {
            m - w.len()
        } else {
            rest.len() as int
        };
        let tail = added.take(m - w.len() - c);
        let mid = rest.take(c);
        assert(all.take(m) =~= w + mid + tail);
        lemma_with_add(w + mid, tail, keep);
        lemma_with_add(w, mid, keep);
        lemma_with_all(w, keep);
        assert forall|i: int| 0 <= i < tail.len() implies keep(#[trigger] tail[i]) by {
            assert(keep(added[i]));
        }
        lemma_with_all(tail, keep);
        lemma_with_add(q.take(n), mid, keep);
        assert(q.take(n) + mid =~= q.take(n + c));
        assert(all.skip(m) =~= q.skip(n + c) + added.skip(m - w.len() - c));
        assert(front_cut(all, keep, m) =~= front_cut(q, keep, n + c) + added);
        n + c
    }
}

/// Whether an object of `t` is one of `s`, or is of `key`.
spec fn no_strangers(s: StateView, t: StateView, key: Seq<u8>) -> bool {
    forall|k: Seq<u8>| #[trigger]
        t.objects.contains_key(k) && k != key ==> s.objects.contains_key(k)
            && t.objects[k].spec == s.objects[k].spec && t.objects[k].slots.len()
            == s.objects[k].slots.len()
}

/// The entries that stay where room is made for `key`.
pub open spec fn staying(s: StateView, key: Seq<u8>) -> spec_fn(Entry) -> bool {
    |e: Entry| s.spared(e, key)
}

proof fn lemma_room_cuts(
    s: StateView,
    p: StateView,
    d: Device,
    need: nat,
    key: Seq<u8>,
    x: Device,
    n: int,
    added: Seq<Entry>,
) -> (r: int)
    requires
        p.inv(),
        p.queued(),
        p.pools.contains_key(d),
        p.pools.contains_key(x),
        no_strangers(s, p, key),
        0 <= n <= s.pools[x].fifo.len(),
        p.pools[x].fifo == front_cut(s.pools[x].fifo, staying(s, key), n) + added,
        forall|i: int| 0 <= i < added.len() ==> (#[trigger] added[i]).0 == key,
    ensures
        n <= r <= s.pools[x].fifo.len(),
        p.make_room(d, need, key).0.pools[x].fifo == front_cut(
            s.pools[x].fifo,
            staying(s, key),
            r,
        ) + added,
{
    let t = p.make_room(d, need, key).0;
    if x == d {
        let q = p.pools[d].fifo;
        let m = order::law_oldest_go_first(p, d, need, key) as int;
        assert(p.queues(d, q));
        assert forall|i: int| 0 <= i < m implies staying(p, key)(#[trigger] q.take(m)[i])
            == staying(s, key)(q.take(m)[i]) by {
            let e = q[i];
            order::lemma_times_there(q, i);
            assert(model::times(q, e) == p.turns_on(e, d));
            assert(p.objects.contains_key(e.0));
        }
        lemma_with_alike(q.take(m), staying(p, key), staying(s, key));
        lemma_with_alike(q.take(m), |e: Entry| p.spared(e, key), staying(p, key));
        lemma_cut_again(s.pools[x].fifo, staying(s, key), n, added, m)
    } else {
        evict::law_make_room_only_evicts(p, d, need, key);
        n
    }
}

proof fn lemma_search_cuts(
    s: StateView,
    p: StateView,
    cands: Seq<(Device, bool)>,
    each: bool,
    len: u64,
    key: Seq<u8>,
    upto: nat,
    x: Device,
    n: int,
    added: Seq<Entry>,
) -> (r: int)
    requires
        p.inv(),
        p.queued(),
        p.objects.contains_key(key),
        upto <= cands.len(),
        p.pools.contains_key(x),
        no_strangers(s, p, key),
        0 <= n <= s.pools[x].fifo.len(),
        p.pools[x].fifo == front_cut(s.pools[x].fifo, staying(s, key), n) + added,
        forall|i: int| 0 <= i < added.len() ==> (#[trigger] added[i]).0 == key,
    ensures
        n <= r <= s.pools[x].fifo.len(),
        p.searched(cands, each, len, key, upto).state.pools[x].fifo == front_cut(
            s.pools[x].fifo,
            staying(s, key),
            r,
        ) + added,
    decreases upto,
{
    if upto == 0 {
        n
    } else {
        let before = (upto - 1) as nat;
        let r = lemma_search_cuts(s, p, cands, each, len, key, before, x, n, added);
        placing::lemma_searched(p, cands, each, len, key, before);
        order::lemma_searched_queued(p, cands, each, len, key, before);
        let found = p.searched(cands, each, len, key, before);
        let d = cands[upto - 1].0;
        if !found.done && found.state.pools.contains_key(d) {
            let need = (1 + model::aimed(found.targets, d)) * len as nat;
            assert(no_strangers(s, found.state, key)) by {
                assert forall|k: Seq<u8>| #[trigger]
                    found.state.objects.contains_key(k) && k != key implies s.objects.contains_key(k)
                    && found.state.objects[k].spec == s.objects[k].spec
                    && found.state.objects[k].slots.len() == s.objects[k].slots.len() by {
                    assert(p.objects.contains_key(k));
                    assert(placing::object_weakens(p.objects[k], found.state.objects[k]));
                }
            }
            assert(found.state.pools.contains_key(x));
            lemma_room_cuts(s, found.state, d, need, key, x, r, added)
        } else {
            r
        }
    }
}

/// What charging a slot adds to the order of a pool.
proof fn lemma_charge_adds(
    s: StateView,
    targets: Seq<(Device, bool)>,
    key: Seq<u8>,
    slot: nat,
    len: u64,
    n: nat,
    x: Device,
) -> (added: Seq<Entry>)
    requires
        n <= targets.len(),
    ensures
        s.charged_all(targets, key, slot, len, n).pools[x].fifo == s.pools[x].fifo + added,
        forall|i: int| 0 <= i < added.len() ==> (#[trigger] added[i]).0 == key,
    decreases n,
{
    if n == 0 {
        assert(s.pools[x].fifo + Seq::<Entry>::empty() =~= s.pools[x].fifo);
        Seq::empty()
    } else {
        let added = lemma_charge_adds(s, targets, key, slot, len, (n - 1) as nat, x);
        let p = s.charged_all(targets, key, slot, len, (n - 1) as nat).pools[x].fifo;
        if targets[n - 1].0 == x && !(p.len() > 0 && p.last() == (key, slot)) {
            assert((s.pools[x].fifo + added).push((key, slot)) =~= s.pools[x].fifo + added.push(
                (key, slot),
            ));
            added.push((key, slot))
        } else {
            added
        }
    }
}

proof fn lemma_put_cuts(
    s: StateView,
    devices: Seq<Device>,
    key: Seq<u8>,
    op: OpPutView,
    data: Seq<Seq<u8>>,
    upto: nat,
    x: Device,
) -> (r: (int, Seq<Entry>))
    requires
        s.sound(),
        placing::data_fits(op, data),
        s.objects.contains_key(key) ==> s.objects[key].spec == op.spec(),
        upto <= op.slots.len(),
        s.pools.contains_key(x),
    ensures
        0 <= r.0 <= s.pools[x].fifo.len(),
        s.put_slots(devices, key, op, data, upto).0.pools[x].fifo == front_cut(
            s.pools[x].fifo,
            staying(s, key),
            r.0,
        ) + r.1,
        forall|i: int| 0 <= i < r.1.len() ==> (#[trigger] r.1[i]).0 == key,
    decreases upto,
{
    let q = s.pools[x].fifo;
    if upto == 0 {
        assert(q.take(0) =~= Seq::<Entry>::empty());
        assert(front_cut(q, staying(s, key), 0) + Seq::<Entry>::empty() =~= q);
        (0, Seq::empty())
    } else {
        let i = (upto - 1) as nat;
        let (n, added) = lemma_put_cuts(s, devices, key, op, data, i, x);
        order::lemma_put_slots_sound(s, devices, key, op, data, i);
        placing::lemma_put_slots(s, devices, key, op, data, i);
        let p = s.put_slots(devices, key, op, data, i).0;
        if s.writable(key, i) {
            let spec = op.slots[i as int].spec;
            let each = spec.placement is Each;
            let cands = model::candidates(spec.placement, devices);
            assert(no_strangers(s, p, key)) by {
                assert forall|k: Seq<u8>| #[trigger]
                    p.objects.contains_key(k) && k != key implies s.objects.contains_key(k)
                    && p.objects[k].spec == s.objects[k].spec && p.objects[k].slots.len()
                    == s.objects[k].slots.len() by {
                    assert(placing::object_weakens(s.objects[k], p.objects[k]));
                }
            }
            assert(p.pools.contains_key(x));
            let r = lemma_search_cuts(
                s,
                p,
                cands,
                each,
                spec.len,
                key,
                cands.len(),
                x,
                n,
                added,
            );
            let found = p.searched(cands, each, spec.len, key, cands.len());
            let m = found.state.landed(key, i, found.targets, data[i as int]);
            let more = lemma_charge_adds(
                m,
                found.targets,
                key,
                i,
                spec.len,
                found.targets.len(),
                x,
            );
            let front = front_cut(q, staying(s, key), r);
            assert(front + added + more =~= front + (added + more));
            if found.targets.len() > 0 && (each ==> found.error is None) {
                (r, added + more)
            } else {
                (r, added)
            }
        } else {
            (n, added)
        }
    }
}

/// A `put` evicts the oldest first: from the order of every pool go the evictable
/// entries among the first `n`, each with the slot that it stands for, and
/// no other; what the `put` stores comes in at the end.
pub proof fn law_puts_evict_the_oldest(
    s: StateView,
    devices: Seq<Device>,
    key: Seq<u8>,
    op: OpPutView,
    data: Seq<Seq<u8>>,
    d: Device,
) -> (r: (int, Seq<Entry>))
    requires
        s.sound(),
        op.error() is None ==> placing::data_fits(op, data),
        s.pools.contains_key(d),
    ensures
        0 <= r.0 <= s.pools[d].fifo.len(),
        s.put(devices, key, op, data).0.queued(),
        s.put(devices, key, op, data).0.pools[d].fifo == front_cut(
            s.pools[d].fifo,
            staying(s, key),
            r.0,
        ) + r.1,
        forall|i: int| 0 <= i < r.1.len() ==> (#[trigger] r.1[i]).0 == key,
{
    order::lemma_put_sound(s, devices, key, op, data);
    if s.put(devices, key, op, data).1 is Ok {
        lemma_put_cuts(s, devices, key, op, data, op.slots.len(), d)
    } else {
        let q = s.pools[d].fifo;
        assert(q.take(0) =~= Seq::<Entry>::empty());
        assert(front_cut(q, staying(s, key), 0) + Seq::<Entry>::empty() =~= q);
        (0, Seq::empty())
    }
}

proof fn lemma_follows_add(a: Seq<Entry>, b: Seq<Entry>, added: Seq<Entry>, key: Seq<u8>)
    requires
        thinned(a, b),
        forall|i: int| 0 <= i < added.len() ==> (#[trigger] added[i]).0 == key,
    ensures
        follows(a + added, b, key),
    decreases added.len(),
{
    if added.len() == 0 {
        assert(a + added =~= a);
    } else {
        assert forall|i: int| 0 <= i < added.len() - 1 implies (
        #[trigger] added.drop_last()[i]).0 == key by {
            assert(added[i].0 == key);
        }
        lemma_follows_add(a, b, added.drop_last(), key);
        assert((a + added).drop_last() =~= a + added.drop_last());
        assert(added[added.len() - 1].0 == key);
    }
}

/// Every eviction order is one of arrival: whatever is called, entries go from
/// it, what a `put` stores comes in at the end, and the others stay as they
/// stood.
pub proof fn law_orders_are_of_arrival(s: StateView, devices: Seq<Device>, call: Call, d: Device)
    requires
        s.sound(),
        s.pools.contains_key(d),
    ensures
        ({
            let before = s.pools[d].fifo;
            let now = history::called(s, devices, call).pools[d].fifo;
            match call {
                Call::Put { key, .. } => follows(now, before, key),
                _ => thinned(now, before),
            }
        }),
{
    let before = s.pools[d].fifo;
    lemma_thinned_same(before);
    match call {
        Call::Put { key, op, mem } => {
            let data = memory::sources(mem, op);
            if op.error() is None {
                memory::lemma_sources_fit(mem, op);
            }
            let (n, added) = law_puts_evict_the_oldest(s, devices, key, op, data, d);
            lemma_thinned_front(before, staying(s, key), n);
            lemma_follows_add(front_cut(before, staying(s, key), n), before, added, key);
        },
        Call::Publish { .. } => {},
        Call::Remove { keys } => {
            lemma_removed_thins(s, keys, keys.len(), d);
        },
        Call::RemovePrefix { prefix } => {
            let rest = s.objects.remove_keys(s.under(prefix));
            lemma_thinned_with(before, |e: Entry| rest.contains_key(e.0));
        },
        Call::RetireRegion { .. } => {},
    }
}

proof fn lemma_removed_thins(s: StateView, keys: Seq<Seq<u8>>, n: nat, d: Device)
    requires
        s.pools.contains_key(d),
    ensures
        thinned(s.removed_all(keys, n).pools[d].fifo, s.pools[d].fifo),
        s.removed_all(keys, n).pools.contains_key(d),
    decreases n,
{
    if n == 0 {
        lemma_thinned_same(s.pools[d].fifo);
    } else {
        lemma_removed_thins(s, keys, (n - 1) as nat, d);
        let p = s.removed_all(keys, (n - 1) as nat);
        let rest = p.objects.remove(keys[n - 1]);
        if p.objects.contains_key(keys[n - 1]) {
            lemma_thinned_with(p.pools[d].fifo, |e: Entry| rest.contains_key(e.0));
            lemma_thinned_twice(
                model::entries_of(p.pools[d].fifo, rest),
                p.pools[d].fifo,
                s.pools[d].fifo,
            );
        }
    }
}

} // verus!
