//! What ports, GIDs and handshakes promise, on what was read of the NICs and
//! what the peers say.
use vstd::prelude::*;

use crate::rdma::batch::Registration;
use crate::rdma::descriptor::{EndpointView, RegionDescriptorView};
use crate::rdma::engine;
use crate::rdma::engine::{ConnView, EngineView};
use crate::rdma::hosts;
use crate::rdma::numa::NumaNode;
use crate::rdma::ports;
use crate::rdma::ports::{GidEntry, GidType, LinkLayer, PortAttr, PortChoice};
use crate::rdma::transfer::TransferErrorView;
use crate::text;

verus! {

// ---- GIDs ----

/// A GID is link-local exactly if its first ten bits are those of `fe80::/10`.
pub proof fn law_link_local_goes_by_ten_bits(gid: Seq<u8>)
    requires
        gid.len() == 16,
    ensures
        ports::local_gid(gid) <==> (gid[0] as int * 256 + gid[1] as int) / 64 == 0xfe80int / 64,
{
}

/// An entry is empty exactly if each of its bytes is zero.
pub proof fn law_empty_gids_are_all_zero(gid: Seq<u8>)
    ensures
        ports::zero_gid(gid) <==> gid == Seq::new(gid.len(), |i: int| 0u8),
{
    if ports::zero_gid(gid) {
        assert(gid =~= Seq::new(gid.len(), |i: int| 0u8));
    } else {
        let i = choose|i: int| 0 <= i < gid.len() && gid[i] != 0;
        assert(Seq::new(gid.len(), |i: int| 0u8)[i] == 0);
    }
}

/// Whether a port can be told apart by an entry: it is of the port and not empty.
pub open spec fn names_port(e: GidEntry, port: u8) -> bool {
    e.port_num == port && !ports::zero_gid(e.gid@)
}

/// What is picked for a port is an entry of that port. A RoCEv2 GID that is not
/// link-local comes before all others, an InfiniBand GID before the rest, and
/// nothing else that is link-local is picked; of equals the first.
pub proof fn law_gids_are_picked_by_kind(entries: Seq<GidEntry>, port: u8, i: int, k: int)
    requires
        ports::is_best(entries, port, i),
        0 <= k < entries.len(),
        names_port(entries[k], port),
    ensures
        0 <= i < entries.len(),
        names_port(entries[i], port),
        entries[k].gid_type == GidType::RoceV2 && !ports::local_gid(entries[k].gid@)
            ==> entries[i].gid_type == GidType::RoceV2 && !ports::local_gid(entries[i].gid@) && i
            <= k,
        entries[k].gid_type == GidType::InfiniBand ==> entries[i].gid_type == GidType::InfiniBand
            && i <= k || entries[i].gid_type == GidType::RoceV2 && !ports::local_gid(
            entries[i].gid@,
        ),
        !ports::local_gid(entries[k].gid@) ==> entries[i].gid_type == GidType::InfiniBand
            || !ports::local_gid(entries[i].gid@) && (entries[i].gid_type == GidType::RoceV2 || i
            <= k),
        ports::local_gid(entries[i].gid@) ==> entries[i].gid_type == GidType::InfiniBand,
{
    let e = entries[k];
    if ports::none_suits(entries, port, 0) {
        assert(!e.suits(port, 0));
    }
    if ports::none_suits(entries, port, 1) {
        assert(!e.suits(port, 1));
    }
}

/// A port has no entry to be driven through exactly if each of its entries is
/// empty, or link-local and not an InfiniBand one.
pub proof fn law_no_gid_is_picked_for_want_of_one(entries: Seq<GidEntry>, port: u8)
    ensures
        ports::none_best(entries, port) <==> forall|k: int|
            0 <= k < entries.len() && names_port(#[trigger] entries[k], port)
                ==> ports::local_gid(entries[k].gid@) && entries[k].gid_type
                != GidType::InfiniBand,
{
    if ports::none_best(entries, port) {
        assert forall|k: int|
            0 <= k < entries.len() && names_port(
                #[trigger] entries[k],
                port,
            ) implies ports::local_gid(entries[k].gid@) && entries[k].gid_type
            != GidType::InfiniBand by {
            assert(!entries[k].suits(port, 1));
            assert(!entries[k].suits(port, 2));
        }
    } else {
        if forall|k: int|
            0 <= k < entries.len() && names_port(#[trigger] entries[k], port)
                ==> ports::local_gid(entries[k].gid@) && entries[k].gid_type
                != GidType::InfiniBand {
            assert forall|rank: int, j: int|
                0 <= rank <= 2 && 0 <= j < entries.len() implies !(
            #[trigger] entries[j].suits(port, rank)) by {
                if names_port(entries[j], port) {
                }
            }
            assert(ports::none_suits(entries, port, 0));
            assert(ports::none_suits(entries, port, 1));
            assert(ports::none_suits(entries, port, 2));
        }
    }
}

// ---- ports ----

/// Whether a port was read and is down.
pub open spec fn is_down(port: Result<PortAttr, Seq<char>>) -> bool {
    port matches Ok(a) && !a.active
}

proof fn lemma_deciding(
    nic: Seq<char>,
    ports_read: Seq<Result<PortAttr, Seq<char>>>,
    from: nat,
    i: nat,
)
    requires
        from <= i <= ports_read.len(),
        forall|j: int| from <= j < i ==> is_down(#[trigger] ports_read[j]),
    ensures
        ports::deciding_port(nic, ports_read, from) == ports::deciding_port(nic, ports_read, i),
    decreases i - from,
{
    if from < i {
        assert(is_down(ports_read[from as int]));
        lemma_deciding(nic, ports_read, from + 1, i);
    }
}

/// The first port that is not down decides. One that is up over InfiniBand or
/// Ethernet is chosen, with its number counted from one, its link layer, its MTU,
/// and its LID over InfiniBand alone; one without a LID over InfiniBand, of
/// another link layer, or that could not be read has the NIC refused.
pub proof fn law_the_first_port_that_is_up_is_driven(
    nic: Seq<char>,
    ports_read: Seq<Result<PortAttr, Seq<char>>>,
    entries: Seq<GidEntry>,
    r: Result<PortChoice, TransferErrorView>,
    i: nat,
)
    requires
        ports::is_choice(nic, ports_read, entries, r),
        i < ports_read.len(),
        !is_down(ports_read[i as int]),
        forall|j: int| 0 <= j < i ==> is_down(#[trigger] ports_read[j]),
    ensures
        match ports_read[i as int] {
            Err(e) => r == Err::<PortChoice, TransferErrorView>(TransferErrorView::Backend(e)),
            Ok(a) => {
                &&& r is Ok <==> a.link_layer == LinkLayer::Ethernet || a.link_layer
                    == LinkLayer::InfiniBand && a.lid != 0
                &&& r matches Ok(c) ==> {
                    &&& c.port_num == i + 1
                    &&& c.link_layer == a.link_layer
                    &&& c.mtu == a.mtu
                    &&& a.link_layer == LinkLayer::InfiniBand ==> c.lid == a.lid
                    &&& a.link_layer == LinkLayer::Ethernet ==> c.lid == 0
                    &&& c.entry matches Some(e) ==> 0 <= e < entries.len() && names_port(
                        entries[e as int],
                        c.port_num,
                    )
                }
            },
        },
{
    lemma_deciding(nic, ports_read, 0, i);
}

/// A NIC whose ports are all down is refused.
pub proof fn law_a_nic_needs_a_port_that_is_up(
    nic: Seq<char>,
    ports_read: Seq<Result<PortAttr, Seq<char>>>,
    entries: Seq<GidEntry>,
    r: Result<PortChoice, TransferErrorView>,
)
    requires
        ports::is_choice(nic, ports_read, entries, r),
        forall|j: int| 0 <= j < ports_read.len() ==> is_down(#[trigger] ports_read[j]),
    ensures
        r is Err,
{
    lemma_deciding(nic, ports_read, 0, ports_read.len());
}

// ---- opening ----

/// Whether a NIC has a name and could be opened.
pub open spec fn opens(name: Seq<char>, opened: Result<NumaNode, TransferErrorView>) -> bool {
    (exists|i: int| 0 <= i < name.len() && !text::is_space(#[trigger] name[i])) && opened is Ok
}

proof fn lemma_open_refusal(
    names: Seq<Seq<char>>,
    opened: Seq<Result<NumaNode, TransferErrorView>>,
    i: nat,
)
    requires
        i <= names.len(),
        opened.len() >= names.len(),
    ensures
        engine::open_refusal(names, opened, i) is None <==> forall|j: int|
            i <= j < names.len() ==> #[trigger] opens(names[j], opened[j]),
    decreases names.len() - i,
{
    if i < names.len() {
        hosts::lemma_blank(names[i as int]);
        lemma_open_refusal(names, opened, i + 1);
        if engine::open_refusal(names, opened, i) is None {
            assert(opens(names[i as int], opened[i as int]));
        } else if engine::open_refusal(names, opened, i + 1) is None {
            assert(!opens(names[i as int], opened[i as int]));
        }
    }
}

/// An engine comes to be exactly if it is given NICs, at least one queue pair per
/// peer, and each NIC has a name that is not blank and could be opened.
pub proof fn law_engines_need_nics_that_open(
    names: Seq<Seq<char>>,
    qps: usize,
    opened: Seq<Result<NumaNode, TransferErrorView>>,
)
    requires
        opened.len() >= names.len(),
    ensures
        engine::new_refusal(names, qps, opened) is None <==> names.len() > 0 && qps > 0 && forall|
            j: int,
        |
            0 <= j < names.len() ==> #[trigger] opens(names[j], opened[j]),
{
    lemma_open_refusal(names, opened, 0);
}

// ---- handshakes ----

proof fn lemma_qps_refusal(qps: usize, remote: Seq<Seq<EndpointView>>, i: nat)
    requires
        i <= remote.len(),
    ensures
        engine::qps_refusal(qps, remote, i) is None <==> forall|j: int|
            i <= j < remote.len() ==> (#[trigger] remote[j]).len() == qps,
    decreases remote.len() - i,
{
    if i < remote.len() {
        lemma_qps_refusal(qps, remote, i + 1);
    }
}

/// A peer is accepted exactly if it has as many NICs as the engine, and on each as
/// many queue pairs as the engine makes per peer.
pub proof fn law_peers_have_the_same_shape(v: EngineView, remote: Seq<Seq<EndpointView>>)
    ensures
        v.matches(remote) <==> remote.len() == v.names.len() && forall|j: int|
            0 <= j < remote.len() ==> (#[trigger] remote[j]).len() == v.qps,
{
    lemma_qps_refusal(v.qps, remote, 0);
}

/// A handshake that has begun is in progress until it ends, and no other
/// handshake, connection, queue pair or registration changes with it.
pub proof fn law_handshakes_are_kept_apart(
    v: EngineView,
    k: Seq<u8>,
    other: Seq<u8>,
    local: Seq<Seq<EndpointView>>,
)
    requires
        other != k,
    ensures
        v.begun(k).connecting.contains(k),
        !v.ended(k).connecting.contains(k),
        !v.joined(k, local).connecting.contains(k),
        v.begun(k).connecting.contains(other) == v.connecting.contains(other),
        v.ended(k).connecting.contains(other) == v.connecting.contains(other),
        v.joined(k, local).connecting.contains(other) == v.connecting.contains(other),
        v.begun(k).conns == v.conns,
        v.begun(k).pending == v.pending,
        v.begun(k).registered == v.registered,
        v.ended(k).conns == v.conns,
        v.ended(k).pending == v.pending,
        v.ended(k).registered == v.registered,
        v.joined(k, local).pending == v.pending,
        v.joined(k, local).registered == v.registered,
        v.joined(k, local).turns == v.turns,
        v.parted(k).pending == v.pending,
        v.parted(k).connecting == v.connecting,
        v.parted(k).registered == v.registered,
{
}

/// A new connection starts on the first queue pair of every NIC.
pub proof fn law_connections_start_on_the_first_pair(
    v: EngineView,
    k: Seq<u8>,
    local: Seq<Seq<EndpointView>>,
    nic: int,
)
    requires
        0 <= nic < v.names.len(),
    ensures
        v.joined(k, local).conns[k].rots.len() == v.names.len(),
        v.joined(k, local).conns[k].rots[nic] == 0,
{
}

/// Queue pairs that were made wait behind those that wait already, on their own
/// NIC and in the order made.
pub proof fn law_new_pairs_wait_on_their_nic(
    v: EngineView,
    local: Seq<Seq<EndpointView>>,
    nic: int,
    m: int,
)
    requires
        0 <= nic < v.pending.len(),
        nic < local.len(),
        0 <= m < local[nic].len(),
    ensures
        v.waiting(local).pending.len() == v.pending.len(),
        v.waiting(local).pending[nic].len() == v.pending[nic].len() + local[nic].len(),
        v.waiting(local).pending[nic].take(v.pending[nic].len() as int) == v.pending[nic],
        v.waiting(local).pending[nic][v.pending[nic].len() + m] == local[nic][m].2,
        v.waiting(local).connecting == v.connecting,
        v.waiting(local).conns == v.conns,
        v.waiting(local).registered == v.registered,
{
    assert(v.waiting(local).pending[nic].take(v.pending[nic].len() as int) =~= v.pending[nic]);
}

proof fn lemma_dropped_from(q: Seq<u32>, qpn: u32, x: u32)
    requires
        engine::dropped(q, qpn).contains(x),
    ensures
        q.contains(x),
    decreases q.len(),
{
    let d = engine::dropped(q, qpn);
    let c = d.index_of(x);
    if q.len() > 0 {
        if q[0] == qpn {
            assert(q[c + 1] == x);
        } else if c == 0 {
            assert(q[0] == x);
        } else {
            let t = q.skip(1);
            assert(engine::dropped(t, qpn)[c - 1] == x);
            lemma_dropped_from(t, qpn, x);
            assert(q[t.index_of(x) + 1] == x);
        }
    }
}

proof fn lemma_without_from(q: Seq<u32>, endpoints: Seq<EndpointView>, m: nat, x: u32)
    requires
        engine::without(q, endpoints, m).contains(x),
    ensures
        q.contains(x),
    decreases m,
{
    if m > 0 {
        lemma_dropped_from(
            engine::without(q, endpoints, (m - 1) as nat),
            endpoints[m - 1].2,
            x,
        );
        lemma_without_from(q, endpoints, (m - 1) as nat, x);
    }
}

proof fn lemma_takeable(q: Seq<u32>, endpoints: Seq<EndpointView>, m: nat, x: int)
    requires
        m <= endpoints.len(),
        engine::takeable(q, endpoints, m) == m,
        0 <= x < m,
    ensures
        q.contains(endpoints[x].2),
    decreases m,
{
    lemma_takeable_within(q, endpoints, (m - 1) as nat);
    if x == m - 1 {
        lemma_without_from(q, endpoints, (m - 1) as nat, endpoints[x].2);
    } else {
        lemma_takeable(q, endpoints, (m - 1) as nat, x);
    }
}

proof fn lemma_takeable_within(q: Seq<u32>, endpoints: Seq<EndpointView>, m: nat)
    ensures
        engine::takeable(q, endpoints, m) <= m,
    decreases m,
{
    if m > 0 {
        lemma_takeable_within(q, endpoints, (m - 1) as nat);
    }
}

proof fn lemma_taken_later(
    pending: Seq<Seq<u32>>,
    local: Seq<Seq<EndpointView>>,
    n: nat,
    nic: int,
)
    requires
        n <= nic < pending.len(),
    ensures
        engine::taken(pending, local, n).0[nic] == pending[nic],
        engine::taken(pending, local, n).0.len() == pending.len(),
    decreases n,
{
    if n > 0 {
        lemma_taken_later(pending, local, (n - 1) as nat, nic);
    }
}

/// A handshake is completed only with queue pairs that wait, each on its own NIC.
pub proof fn law_only_waiting_pairs_are_taken(
    pending: Seq<Seq<u32>>,
    local: Seq<Seq<EndpointView>>,
    n: nat,
    nic: int,
    m: int,
)
    requires
        n <= local.len(),
        n <= pending.len(),
        engine::taken(pending, local, n).1,
        0 <= nic < n,
        0 <= m < local[nic].len(),
    ensures
        pending[nic].contains(local[nic][m].2),
    decreases n,
{
    lemma_taken_later(pending, local, (n - 1) as nat, n - 1);
    if nic == n - 1 {
        lemma_takeable(pending[nic], local[nic], local[nic].len(), m);
    } else {
        law_only_waiting_pairs_are_taken(pending, local, (n - 1) as nat, nic, m);
    }
}

// ---- counting ----

/// No connections have no queue pairs, and a new one adds those of all its NICs.
pub proof fn law_connections_add_their_pairs(
    conns: Map<Seq<u8>, ConnView>,
    k: Seq<u8>,
    c: ConnView,
)
    requires
        conns.dom().finite(),
        !conns.contains_key(k),
    ensures
        engine::total_pairs(Map::empty()) == 0,
        engine::total_pairs(conns.insert(k, c)) == engine::total_pairs(conns) + engine::pairs_of(
            c.local,
        ),
{
    let after = conns.insert(k, c);
    engine::lemma_total_pairs(after, k);
    assert(after.remove(k) =~= conns);
}

/// A connection has the queue pairs of one NIC after the other.
pub proof fn law_nics_add_their_pairs(local: Seq<Seq<EndpointView>>, more: Seq<EndpointView>)
    ensures
        engine::pairs_of(Seq::empty()) == 0,
        engine::pairs_of(local.push(more)) == engine::pairs_of(local) + more.len(),
{
    assert(local.push(more).drop_last() =~= local);
}

// ---- memory ----

/// Whether a byte lies in memory of a length.
pub open spec fn lies_in(b: int, start: int, len: int) -> bool {
    start <= b < start + len
}

/// Whether each byte of a range lies in memory of a length.
pub open spec fn all_in(ptr: int, n: int, start: int, len: int) -> bool {
    forall|b: int| #[trigger] lies_in(b, ptr, n) ==> lies_in(b, start, len)
}

proof fn lemma_all_in(ptr: int, n: int, start: int, len: int)
    requires
        n > 0,
    ensures
        all_in(ptr, n, start, len) <==> start <= ptr && ptr + n <= start + len,
{
    if all_in(ptr, n, start, len) {
        assert(lies_in(ptr, ptr, n));
        assert(lies_in(ptr + n - 1, ptr, n));
    }
}

/// A range is held by registered memory exactly if each of its bytes is.
pub proof fn law_registered_ranges_are_held_byte_by_byte(e: Registration, ptr: u64, len: usize)
    requires
        len > 0,
    ensures
        e.covers(ptr, len) <==> all_in(ptr as int, len as int, e.base as int, e.len as int),
{
    lemma_all_in(ptr as int, len as int, e.base as int, e.len as int);
}

/// A range of a peer's memory is covered exactly if each of its bytes lies in the
/// region.
pub proof fn law_remote_ranges_are_covered_byte_by_byte(
    d: RegionDescriptorView,
    ptr: u64,
    len: nat,
)
    requires
        len > 0,
        d.addr + d.len <= u64::MAX,
    ensures
        d.covers(ptr, len) <==> all_in(ptr as int, len as int, d.addr as int, d.len as int),
{
    lemma_all_in(ptr as int, len as int, d.addr as int, d.len as int);
}

proof fn lemma_first_refused(keys: Seq<Result<u32, String>>, i: nat)
    requires
        i <= keys.len(),
    ensures
        engine::first_refused(keys, i) is None <==> forall|j: int|
            i <= j < keys.len() ==> (#[trigger] keys[j]) is Ok,
    decreases keys.len() - i,
{
    if i < keys.len() {
        lemma_first_refused(keys, i + 1);
    }
}

/// Memory is registered exactly if it has a length, every NIC took it, and no
/// memory is registered at its address.
pub proof fn law_registrations_are_refused_for_cause(
    v: EngineView,
    addr: u64,
    len: usize,
    kind: Seq<char>,
    keys: Seq<Result<u32, String>>,
)
    ensures
        engine::register_refusal(v, addr, len, kind, keys) is None <==> len > 0 && (forall|j: int|
            0 <= j < keys.len() ==> (#[trigger] keys[j]) is Ok) && forall|i: int|
            0 <= i < v.registered.len() ==> (#[trigger] v.registered[i]).base != addr,
{
    lemma_first_refused(keys, 0);
}

} // verus!
