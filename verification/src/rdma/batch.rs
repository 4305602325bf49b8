//! Which NIC and which queue pair carries each transfer of a batch.
use std::collections::HashMap;

use vstd::multiset::Multiset;
use vstd::prelude::*;

use crate::rdma::descriptor::{TransferDesc, TransferDescView};
use crate::rdma::numa::NumaNode;
use crate::rdma::transfer::{TransferError, TransferErrorView};

verus! {

broadcast use vstd::std_specs::hash::group_hash_axioms;

// ---- NICs in turn ----

/// NICs that take turns.
pub struct NicGroup {
    nic_indices: Vec<usize>,
    rr_counter: usize,
}

#[verifier::ext_equal]
pub struct GroupTurn {
    pub nics: Seq<usize>,
    pub counter: usize,
}

impl View for NicGroup {
    type V = GroupTurn;

    closed spec fn view(&self) -> GroupTurn {
        GroupTurn { nics: self.nic_indices@, counter: self.rr_counter }
    }
}

impl GroupTurn {
    /// The NIC whose turn it is.
    pub open spec fn current(self) -> usize {
        self.nics[self.counter as int % self.nics.len() as int]
    }

    pub open spec fn turned(self) -> GroupTurn {
        GroupTurn { counter: self.counter.wrapping_add(1), ..self }
    }
}

impl NicGroup {
    fn next(&mut self) -> (r: usize)
        requires
            old(self)@.nics.len() > 0,
        ensures
            r == old(self)@.current(),
            final(self)@ == old(self)@.turned(),
    {
        let idx: usize = self.rr_counter;
        self.rr_counter = self.rr_counter.wrapping_add(1);
        self.nic_indices[idx % self.nic_indices.len()]
    }
}

/// The NICs of each NUMA node, and all of them, each group in turn.
pub struct NumaRoundRobin {
    /// NUMA node to NIC group on that node.
    groups: HashMap<u32, NicGroup>,
    /// Fallback for unknown NUMA or unmatched nodes (all NICs).
    fallback: NicGroup,
}

#[verifier::ext_equal]
pub struct Turns {
    pub groups: Map<u32, GroupTurn>,
    pub fallback: GroupTurn,
}

pub open spec fn group_turns(groups: Map<u32, NicGroup>) -> Map<u32, GroupTurn> {
    groups.map_values(|g: NicGroup| g@)
}

impl View for NumaRoundRobin {
    type V = Turns;

    closed spec fn view(&self) -> Turns {
        Turns { groups: group_turns(self.groups@), fallback: self.fallback@ }
    }
}

/// The first `n` NICs, those on a node.
pub open spec fn on_node(nodes: Seq<NumaNode>, node: u32, n: nat) -> Seq<usize>
    decreases n,
{
    if n == 0 {
        Seq::empty()
    } else {
        let before = on_node(nodes, node, (n - 1) as nat);
        if nodes[n - 1].0 == node {
            before.push((n - 1) as usize)
        } else {
            before
        }
    }
}

/// The groups of the first `n` NICs, each at its start.
pub open spec fn fresh_groups(nodes: Seq<NumaNode>, n: nat) -> Map<u32, GroupTurn> {
    Map::new(
        |k: u32| k != u32::MAX && on_node(nodes, k, n).len() > 0,
        |k: u32| GroupTurn { nics: on_node(nodes, k, n), counter: 0 },
    )
}

impl Turns {
    pub open spec fn fresh(nodes: Seq<NumaNode>) -> Turns {
        Turns {
            groups: fresh_groups(nodes, nodes.len()),
            fallback: GroupTurn {
                nics: Seq::new(nodes.len(), |i: int| i as usize),
                counter: 0,
            },
        }
    }

    /// Whether a node has NICs of its own.
    pub open spec fn has_own(self, numa: NumaNode) -> bool {
        numa.0 != u32::MAX && self.groups.contains_key(numa.0)
    }

    /// The NIC for memory on a node: the next of the node's own, or of all.
    pub open spec fn pick(self, numa: NumaNode) -> usize {
        if self.has_own(numa) {
            self.groups[numa.0].current()
        } else {
            self.fallback.current()
        }
    }

    pub open spec fn picked(self, numa: NumaNode) -> Turns {
        if self.has_own(numa) {
            Turns { groups: self.groups.insert(numa.0, self.groups[numa.0].turned()), ..self }
        } else {
            Turns { fallback: self.fallback.turned(), ..self }
        }
    }

    /// Whether every group has NICs to pick from.
    pub open spec fn ready(self) -> bool {
        &&& self.fallback.nics.len() > 0
        &&& forall|k: u32| #[trigger]
            self.groups.contains_key(k) ==> self.groups[k].nics.len() > 0
    }

    /// Whether every group has NICs, all among the first `n`.
    pub open spec fn ok(self, n: nat) -> bool {
        &&& turn_ok(self.fallback, n)
        &&& forall|k: u32| #[trigger] self.groups.contains_key(k) ==> turn_ok(self.groups[k], n)
    }
}

pub open spec fn turn_ok(g: GroupTurn, n: nat) -> bool {
    &&& g.nics.len() > 0
    &&& forall|i: int| 0 <= i < g.nics.len() ==> (#[trigger] g.nics[i]) < n
}

proof fn lemma_on_node(nodes: Seq<NumaNode>, node: u32, n: nat)
    requires
        n <= nodes.len(),
        nodes.len() <= usize::MAX,
    ensures
        forall|i: int|
            0 <= i < on_node(nodes, node, n).len() ==> (#[trigger] on_node(nodes, node, n)[i]) < n
                && nodes[on_node(nodes, node, n)[i] as int].0 == node,
    decreases n,
{
    if n > 0 {
        let before = on_node(nodes, node, (n - 1) as nat);
        let now = on_node(nodes, node, n);
        lemma_on_node(nodes, node, (n - 1) as nat);
        assert forall|i: int| 0 <= i < now.len() implies (#[trigger] now[i]) < n
            && nodes[now[i] as int].0 == node by {
            if i < before.len() {
                assert(now[i] == before[i]);
            }
        }
    }
}

/// A pick is one of the NICs, and keeps every group in order.
pub proof fn lemma_pick(t: Turns, numa: NumaNode, n: nat)
    requires
        t.ok(n),
    ensures
        t.pick(numa) < n,
        t.picked(numa).ok(n),
{
    let g = if t.has_own(numa) {
        t.groups[numa.0]
    } else {
        t.fallback
    };
    assert(turn_ok(g, n));
    let i = g.counter as int % g.nics.len() as int;
    assert(0 <= i < g.nics.len()) by (nonlinear_arith)
        requires
            g.nics.len() > 0,
            i == g.counter as int % g.nics.len() as int,
    ;
    assert(g.nics[i] < n);
    assert forall|k: u32| #[trigger] t.picked(numa).groups.contains_key(k) implies turn_ok(
        t.picked(numa).groups[k],
        n,
    ) by {
        assert(t.groups.contains_key(k));
    }
}

impl NumaRoundRobin {
    /// Group NICs by the NUMA node of each.
    pub fn from_nodes(nodes: &Vec<NumaNode>) -> (r: Self)
        ensures
            r@ == Turns::fresh(nodes@),
            nodes@.len() > 0 ==> r@.ok(nodes@.len()),
    {
        let mut groups: HashMap<u32, NicGroup> = HashMap::new();
        let mut all: Vec<usize> = Vec::new();
        assert(group_turns(groups@) =~= fresh_groups(nodes@, 0));
        for i in 0..nodes.len()
            invariant
                all@ == Seq::new(i as nat, |j: int| j as usize),
                group_turns(groups@) == fresh_groups(nodes@, i as nat),
        {
            all.push(i);
            assert(all@ =~= Seq::new((i + 1) as nat, |j: int| j as usize));
            let ghost before = groups@;
            let ghost view0 = group_turns(groups@);
            let k: u32 = nodes[i].0;
            if nodes[i].is_valid() {
                let mut group = match groups.remove(&k) {
                    Some(g) => g,
                    None => NicGroup { nic_indices: Vec::new(), rr_counter: 0 },
                };
                assert(group@.nics =~= on_node(nodes@, k, i as nat)) by {
                    if before.contains_key(k) {
                        assert(view0.contains_key(k));
                        assert(group@ == view0[k]);
                    } else {
                        assert(!view0.contains_key(k));
                    }
                }
                assert(group@.counter == 0) by {
                    if before.contains_key(k) {
                        assert(view0.contains_key(k));
                        assert(group@ == view0[k]);
                    }
                }
                group.nic_indices.push(i);
                assert(group@.nics =~= on_node(nodes@, k, (i + 1) as nat));
                groups.insert(k, group);
            }
            assert(group_turns(groups@) =~= fresh_groups(nodes@, (i + 1) as nat)) by {
                let now = group_turns(groups@);
                let want = fresh_groups(nodes@, (i + 1) as nat);
                assert forall|x: u32| #[trigger] now.contains_key(x) <==> want.contains_key(x) by {
                    assert(view0.contains_key(x) <==> before.contains_key(x));
                }
                assert forall|x: u32| #[trigger] now.contains_key(x) implies now[x] == want[x] by {
                    if x != k {
                        assert(view0.contains_key(x));
                        assert(now[x] == view0[x]);
                    } else {
                        assert(now[x].nics =~= want[x].nics);
                    }
                }
            }
        }
        let r = NumaRoundRobin { groups, fallback: NicGroup { nic_indices: all, rr_counter: 0 } };
        proof {
            assert(nodes@.len() == nodes.len());
            assert(r@ =~= Turns::fresh(nodes@));
            assert forall|k: u32| #[trigger] r@.groups.contains_key(k) implies turn_ok(
                r@.groups[k],
                nodes@.len(),
            ) by {
                lemma_on_node(nodes@, k, nodes@.len());
            }
        }
        r
    }

    /// The NIC for memory on a node: the next of the node's own, or of all.
    pub fn pick(&mut self, numa: NumaNode) -> (r: usize)
        requires
            old(self)@.ready(),
        ensures
            r == old(self)@.pick(numa),
            final(self)@ == old(self)@.picked(numa),
            final(self)@.ready(),
    {
        let ghost t = self@;
        let ghost before = self.groups@;
        if numa.is_valid() {
            if let Some(g) = self.groups.remove(&numa.0) {
                let mut group = g;
                assert(t.groups.contains_key(numa.0));
                assert(t.groups[numa.0] == group@);
                let r = group.next();
                self.groups.insert(numa.0, group);
                assert(self@.groups =~= t.picked(numa).groups);
                return r;
            }
            assert(self.groups@ =~= before);
        }
        assert(!t.has_own(numa)) by {
            if t.groups.contains_key(numa.0) {
                assert(before.contains_key(numa.0));
            }
        }
        self.fallback.next()
    }
}

/// NICs take turns: as many picks as a group has NICs, one after the other,
/// give each of its NICs once.
pub proof fn law_round_robin_is_fair(g: GroupTurn, p: int) -> (k: int)
    requires
        g.nics.len() > 0,
        g.counter + g.nics.len() <= usize::MAX,
        0 <= p < g.nics.len(),
    ensures
        0 <= k < g.nics.len(),
        (g.counter + k) % g.nics.len() as int == p,
        forall|j: int|
            0 <= j < g.nics.len() && j != k ==> #[trigger] turn_at(g, j) != p,
{
    let n = g.nics.len() as int;
    let c = g.counter as int % n;
    let k = if c <= p {
        p - c
    } else {
        p - c + n
    };
    let q = g.counter as int / n;
    assert(g.counter == q * n + c) by {
        vstd::arithmetic::div_mod::lemma_fundamental_div_mod(g.counter as int, n);
        assert(n * q == q * n) by (nonlinear_arith);
    }
    assert(0 <= c < n) by {
        vstd::arithmetic::div_mod::lemma_mod_bound(g.counter as int, n);
    }
    if c <= p {
        vstd::arithmetic::div_mod::lemma_fundamental_div_mod_converse(g.counter + k, n, q, p);
    } else {
        assert((q + 1) * n == q * n + n) by (nonlinear_arith);
        vstd::arithmetic::div_mod::lemma_fundamental_div_mod_converse(g.counter + k, n, q + 1, p);
    }
    assert forall|j: int| 0 <= j < n && j != k implies #[trigger] turn_at(g, j) != p by {
        let x = c + j;
        if x < n {
            vstd::arithmetic::div_mod::lemma_fundamental_div_mod_converse(g.counter + j, n, q, x);
        } else {
            assert((q + 1) * n == q * n + n) by (nonlinear_arith);
            vstd::arithmetic::div_mod::lemma_fundamental_div_mod_converse(
                g.counter + j,
                n,
                q + 1,
                x - n,
            );
        }
    }
    k
}

/// The place in a group of the `j`th pick from now.
pub open spec fn turn_at(g: GroupTurn, j: int) -> int {
    (g.counter + j) % g.nics.len() as int
}

// ---- registered memory ----

/// Memory that is registered on every NIC.
#[derive(Clone, Copy, Debug, PartialEq, Eq, Structural)]
pub struct Registration {
    pub base: u64,
    pub len: usize,
    pub numa: NumaNode,
}

impl Registration {
    /// Whether `[ptr, ptr + len)` lies inside.
    pub open spec fn covers(self, ptr: u64, len: usize) -> bool {
        self.base <= ptr && ptr + len <= self.base + self.len
    }
}

/// The first registration that holds a range.
pub open spec fn found_entry(entries: Seq<Registration>, ptr: u64, len: usize) -> Option<
    Registration,
>
    decreases entries.len(),
{
    if entries.len() == 0 {
        None
    } else {
        match found_entry(entries.drop_last(), ptr, len) {
            Some(e) => Some(e),
            None => if entries.last().covers(ptr, len) {
                Some(entries.last())
            } else {
                None
            },
        }
    }
}

/// The node of the registered memory that holds the local range of each
/// transfer, and nothing where none does.
pub open spec fn found_nodes(
    entries: Seq<Registration>,
    descs: Seq<TransferDescView>,
) -> Seq<Option<NumaNode>> {
    Seq::new(
        descs.len(),
        |i: int|
            match found_entry(entries, descs[i].local, descs[i].len) {
                Some(e) => Some(e.numa),
                None => None,
            },
    )
}

pub open spec fn has_base(entries: Seq<Registration>, base: u64) -> bool {
    exists|i: int| 0 <= i < entries.len() && (#[trigger] entries[i]).base == base
}

/// The registrations but for those at `base`, in order.
pub open spec fn without_base(entries: Seq<Registration>, base: u64) -> Seq<Registration>
    decreases entries.len(),
{
    if entries.len() == 0 {
        Seq::empty()
    } else {
        let before = without_base(entries.drop_last(), base);
        if entries.last().base == base {
            before
        } else {
            before.push(entries.last())
        }
    }
}

/// Whether no base address is registered twice.
pub open spec fn one_per_base(entries: Seq<Registration>) -> bool {
    forall|i: int, j: int|
        0 <= i < j < entries.len() ==> (#[trigger] entries[i]).base != (#[trigger] entries[j]).base
}

/// The registered memory of an engine, by base address.
pub struct Registrations {
    entries: Vec<Registration>,
}

impl View for Registrations {
    type V = Seq<Registration>;

    closed spec fn view(&self) -> Seq<Registration> {
        self.entries@
    }
}

proof fn lemma_found_take(entries: Seq<Registration>, ptr: u64, len: usize, i: int)
    requires
        0 <= i < entries.len(),
        entries[i].covers(ptr, len),
        forall|j: int| 0 <= j < i ==> !(#[trigger] entries[j]).covers(ptr, len),
    ensures
        found_entry(entries, ptr, len) == Some(entries[i]),
    decreases entries.len(),
{
    let before = entries.drop_last();
    if i < before.len() {
        assert forall|j: int| 0 <= j < i implies !(#[trigger] before[j]).covers(ptr, len) by {
            assert(before[j] == entries[j]);
        }
        lemma_found_take(before, ptr, len, i);
    } else {
        assert forall|j: int| 0 <= j < before.len() implies !(#[trigger] before[j]).covers(
            ptr,
            len,
        ) by {
            assert(before[j] == entries[j]);
        }
        lemma_found_none(before, ptr, len);
    }
}

proof fn lemma_found_none(entries: Seq<Registration>, ptr: u64, len: usize)
    requires
        forall|j: int| 0 <= j < entries.len() ==> !(#[trigger] entries[j]).covers(ptr, len),
    ensures
        found_entry(entries, ptr, len) is None,
    decreases entries.len(),
{
    if entries.len() > 0 {
        assert(!entries[entries.len() - 1].covers(ptr, len));
        assert forall|j: int| 0 <= j < entries.len() - 1 implies !(
        #[trigger] entries.drop_last()[j]).covers(ptr, len) by {
            assert(entries[j] == entries.drop_last()[j]);
        }
        lemma_found_none(entries.drop_last(), ptr, len);
    }
}

/// What is found holds the range, and something is found wherever anything
/// holds it.
pub proof fn law_what_is_found_holds_the_range(entries: Seq<Registration>, ptr: u64, len: usize)
    ensures
        match found_entry(entries, ptr, len) {
            Some(e) => entries.contains(e) && e.covers(ptr, len),
            None => forall|j: int|
                0 <= j < entries.len() ==> !(#[trigger] entries[j]).covers(ptr, len),
        },
    decreases entries.len(),
{
    if entries.len() > 0 {
        let before = entries.drop_last();
        law_what_is_found_holds_the_range(before, ptr, len);
        match found_entry(before, ptr, len) {
            Some(e) => {
                let c = before.index_of(e);
                assert(entries[c] == e);
            },
            None => {
                assert(entries[entries.len() - 1] == entries.last());
                assert forall|j: int|
                    0 <= j < entries.len() - 1 implies !(#[trigger] entries[j]).covers(
                    ptr,
                    len,
                ) by {
                    assert(before[j] == entries[j]);
                }
            },
        }
    }
}

/// Removal takes the registrations at a base address, and no other.
pub proof fn law_removal_takes_one_base(entries: Seq<Registration>, base: u64, e: Registration)
    ensures
        !has_base(without_base(entries, base), base),
        without_base(entries, base).contains(e) <==> entries.contains(e) && e.base != base,
        one_per_base(entries) ==> one_per_base(without_base(entries, base)),
        !has_base(entries, base) ==> without_base(entries, base) == entries,
    decreases entries.len(),
{
    let after = without_base(entries, base);
    if entries.len() == 0 {
        assert(after =~= entries);
    } else {
        let before = entries.drop_last();
        let rest = without_base(before, base);
        let last = entries.last();
        law_removal_takes_one_base(before, base, e);
        assert(entries[entries.len() - 1] == last);
        assert forall|i: int| 0 <= i < after.len() implies (#[trigger] after[i]).base != base by {
            if i < rest.len() {
                assert(rest[i] == after[i]);
            }
        }
        if entries.contains(e) && e.base != base {
            let c = entries.index_of(e);
            if c < before.len() {
                assert(before[c] == e);
                let x = rest.index_of(e);
                assert(after[x] == e);
            } else {
                assert(after[after.len() - 1] == e);
            }
        }
        if after.contains(e) {
            let c = after.index_of(e);
            if c < rest.len() {
                assert(rest[c] == e);
                let x = before.index_of(e);
                assert(entries[x] == e);
            }
        }
        if one_per_base(entries) {
            assert forall|i: int, j: int| 0 <= i < j < before.len() implies (
            #[trigger] before[i]).base != (#[trigger] before[j]).base by {
                assert(entries[i].base != entries[j].base);
            }
            assert forall|i: int, j: int| 0 <= i < j < after.len() implies (
            #[trigger] after[i]).base != (#[trigger] after[j]).base by {
                assert(after[i] == rest[i]);
                if j < rest.len() {
                    assert(after[j] == rest[j]);
                } else {
                    law_removal_takes_one_base(before, base, rest[i]);
                    assert(rest.contains(rest[i]));
                    let x = before.index_of(rest[i]);
                    assert(entries[x] == rest[i]);
                    assert(entries[x].base != entries[entries.len() - 1].base);
                }
            }
        }
        if !has_base(entries, base) {
            assert(entries[entries.len() - 1].base != base);
            assert(!has_base(before, base)) by {
                if has_base(before, base) {
                    let x = choose|x: int|
                        0 <= x < before.len() && (#[trigger] before[x]).base == base;
                    assert(entries[x].base == base);
                }
            }
            assert(before.push(last) =~= entries);
        }
    }
}

/// A removed range is found no more: what is found after a removal is another
/// registration, and there is one exactly where another one holds the range too.
pub proof fn law_removed_range_is_found_no_more(
    entries: Seq<Registration>,
    base: u64,
    ptr: u64,
    len: usize,
)
    ensures
        found_entry(without_base(entries, base), ptr, len) matches Some(e) ==> e.base != base
            && entries.contains(e) && e.covers(ptr, len),
        found_entry(without_base(entries, base), ptr, len) is None <==> forall|i: int|
            0 <= i < entries.len() && (#[trigger] entries[i]).covers(ptr, len) ==> entries[i].base
                == base,
{
    let after = without_base(entries, base);
    law_what_is_found_holds_the_range(after, ptr, len);
    match found_entry(after, ptr, len) {
        Some(e) => {
            law_removal_takes_one_base(entries, base, e);
            assert(entries[entries.index_of(e)] == e);
        },
        None => {
            assert forall|i: int|
                0 <= i < entries.len() && (#[trigger] entries[i]).covers(
                    ptr,
                    len,
                ) implies entries[i].base == base by {
                if entries[i].base != base {
                    law_removal_takes_one_base(entries, base, entries[i]);
                    assert(entries.contains(entries[i]));
                    assert(after[after.index_of(entries[i])] == entries[i]);
                }
            }
        },
    }
}

/// What is registered is found.
pub proof fn law_registered_range_is_found(
    entries: Seq<Registration>,
    e: Registration,
    ptr: u64,
    len: usize,
)
    requires
        e.covers(ptr, len),
    ensures
        found_entry(entries.push(e), ptr, len) is Some,
        found_entry(entries, ptr, len) is Some ==> found_entry(entries.push(e), ptr, len)
            == found_entry(entries, ptr, len),
{
    assert(entries.push(e).drop_last() =~= entries);
}

impl Registrations {
    pub open spec fn wf(&self) -> bool {
        one_per_base(self@)
    }

    pub fn new() -> (r: Self)
        ensures
            r.wf(),
            r@.len() == 0,
    {
        Registrations { entries: Vec::new() }
    }

    /// Add a registration; refused where its base address has one.
    pub fn insert(&mut self, entry: Registration) -> (r: Result<(), TransferError>)
        requires
            old(self).wf(),
        ensures
            final(self).wf(),
            if has_base(old(self)@, entry.base) {
                final(self)@ == old(self)@ && (r matches Err(x) && x@ == already_registered())
            } else {
                final(self)@ == old(self)@.push(entry) && r is Ok
            },
    {
        for i in 0..self.entries.len()
            invariant
                *self == *old(self),
                self.wf(),
                forall|j: int| 0 <= j < i ==> (#[trigger] self@[j]).base != entry.base,
        {
            if self.entries[i].base == entry.base {
                assert(self@[i as int].base == entry.base);
                return Err(TransferError::InvalidArgument("memory is already registered"));
            }
        }
        self.entries.push(entry);
        Ok(())
    }

    /// Drop a registration by its base address; says whether there was one.
    pub fn remove(&mut self, base: u64) -> (r: bool)
        requires
            old(self).wf(),
        ensures
            final(self).wf(),
            r == has_base(old(self)@, base),
            final(self)@ == without_base(old(self)@, base),
            !has_base(final(self)@, base),
    {
        let ghost all = self@;
        let n: usize = self.entries.len();
        for i in 0..n
            invariant
                *self == *old(self),
                all == self@,
                n == self.entries@.len(),
                one_per_base(all),
                forall|j: int| 0 <= j < i ==> (#[trigger] all[j]).base != base,
        {
            if self.entries[i].base == base {
                proof {
                    assert(all[i as int].base == base);
                    law_removal_takes_one_base(all, base, all[i as int]);
                    lemma_without_one(all, base, i as int);
                }
                let _ = self.entries.remove(i);
                assert(self@ =~= all.remove(i as int));
                return true;
            }
        }
        proof {
            law_removal_takes_one_base(all, base, Registration { base, len: 0, numa: NumaNode(0) });
        }
        false
    }

    /// The registration that holds a range, if one does.
    pub fn find_entry(&self, ptr: u64, len: usize) -> (r: Option<Registration>)
        ensures
            r == found_entry(self@, ptr, len),
    {
        for i in 0..self.entries.len()
            invariant
                forall|j: int| 0 <= j < i ==> !(#[trigger] self@[j]).covers(ptr, len),
        {
            let e = self.entries[i];
            assert(self@[i as int] == e);
            if e.base <= ptr {
                let into: u64 = ptr - e.base;
                if into <= e.len as u64 && len as u64 <= e.len as u64 - into {
                    proof {
                        lemma_found_take(self@, ptr, len, i as int);
                    }
                    return Some(e);
                }
            }
        }
        proof {
            lemma_found_none(self@, ptr, len);
        }
        None
    }

    /// The node of the registered memory that holds the local range of each
    /// transfer.
    pub fn find_nodes(&self, descs: &[TransferDesc<'_>]) -> (r: Vec<Option<NumaNode>>)
        ensures
            r@ == found_nodes(self@, desc_views(descs@)),
    {
        let ghost want = found_nodes(self@, desc_views(descs@));
        let mut out: Vec<Option<NumaNode>> = Vec::new();
        for i in 0..descs.len()
            invariant
                want == found_nodes(self@, desc_views(descs@)),
                out@ == want.take(i as int),
        {
            assert(desc_views(descs@)[i as int] == descs@[i as int]@);
            match self.find_entry(descs[i].local, descs[i].len) {
                Some(e) => out.push(Some(e.numa)),
                None => out.push(None),
            }
            assert(out@ =~= want.take(i + 1));
        }
        assert(out@ =~= want);
        out
    }
}

/// The refusal of memory whose base address is registered.
pub open spec fn already_registered() -> TransferErrorView {
    TransferErrorView::InvalidArgument("memory is already registered"@)
}

/// Removal by a base address that is registered once takes that one out.
proof fn lemma_without_one(entries: Seq<Registration>, base: u64, i: int)
    requires
        one_per_base(entries),
        0 <= i < entries.len(),
        entries[i].base == base,
    ensures
        without_base(entries, base) == entries.remove(i),
    decreases entries.len(),
{
    let before = entries.drop_last();
    assert forall|a: int, b: int| 0 <= a < b < before.len() implies (#[trigger] before[a]).base != (
    #[trigger] before[b]).base by {
        assert(entries[a].base != entries[b].base);
    }
    if i == before.len() {
        assert(!has_base(before, base)) by {
            if has_base(before, base) {
                let x = choose|x: int| 0 <= x < before.len() && (#[trigger] before[x]).base == base;
                assert(entries[x].base != entries[i].base);
            }
        }
        law_removal_takes_one_base(before, base, entries[i]);
        assert(entries.remove(i) =~= before);
    } else {
        lemma_without_one(before, base, i);
        assert(entries[i].base != entries[entries.len() - 1].base);
        assert(entries.remove(i) =~= before.remove(i).push(entries.last()));
    }
}

// ---- resolving ----

/// One transfer with its keys.
#[derive(Clone, Copy, Debug, PartialEq, Eq, Structural)]
pub struct PlannedOp {
    pub local: u64,
    pub remote: u64,
    pub len: usize,
    pub remote_rkey: u32,
}

/// How far the resolution of a batch has come.
#[verifier::ext_equal]
pub struct Resolution {
    pub turns: Turns,
    pub per_nic: Seq<Seq<PlannedOp>>,
    pub error: Option<TransferErrorView>,
}

pub open spec fn desc_views(descs: Seq<TransferDesc<'_>>) -> Seq<TransferDescView> {
    Seq::new(descs.len(), |i: int| descs[i]@)
}

/// The first `n` transfers of a batch, each on the NIC for the node of its
/// registered memory (`found`, where it is registered), with the remote key for
/// that NIC; or the first thing wrong.
pub open spec fn resolution(
    turns: Turns,
    descs: Seq<TransferDescView>,
    found: Seq<Option<NumaNode>>,
    nics: nat,
    n: nat,
) -> Resolution
    decreases n,
{
    if n == 0 {
        Resolution { turns, per_nic: Seq::new(nics, |i: int| Seq::empty()), error: None }
    } else {
        let p = resolution(turns, descs, found, nics, (n - 1) as nat);
        let d = descs[n - 1];
        if p.error is Some {
            p
        } else if d.len == 0 {
            Resolution {
                error: Some(TransferErrorView::InvalidArgument("len must be non-zero"@)),
                ..p
            }
        } else if found[n - 1] is None {
            Resolution {
                error: Some(TransferErrorView::MemoryNotRegistered { ptr: d.local }),
                ..p
            }
        } else if !d.region.covers(d.remote, d.len as nat) {
            Resolution {
                error: Some(
                    TransferErrorView::InvalidArgument(
                        "remote range not covered by its region descriptor"@,
                    ),
                ),
                ..p
            }
        } else {
            let numa = found[n - 1]->0;
            let nic = p.turns.pick(numa) as int;
            let after = p.turns.picked(numa);
            if nic >= d.region.rkeys.len() {
                Resolution {
                    turns: after,
                    error: Some(
                        TransferErrorView::InvalidArgument(
                            "region descriptor has no rkey for paired NIC"@,
                        ),
                    ),
                    ..p
                }
            } else {
                let op = PlannedOp {
                    local: d.local,
                    remote: d.remote,
                    len: d.len,
                    remote_rkey: d.region.rkeys[nic],
                };
                Resolution {
                    turns: after,
                    per_nic: p.per_nic.update(nic, p.per_nic[nic].push(op)),
                    error: None,
                }
            }
        }
    }
}

pub open spec fn op_views(per_nic: Seq<Vec<PlannedOp>>) -> Seq<Seq<PlannedOp>> {
    Seq::new(per_nic.len(), |i: int| per_nic[i]@)
}

pub proof fn lemma_resolution_error(
    turns: Turns,
    descs: Seq<TransferDescView>,
    found: Seq<Option<NumaNode>>,
    nics: nat,
    n: nat,
    m: nat,
)
    requires
        n <= m,
        resolution(turns, descs, found, nics, n).error is Some,
    ensures
        resolution(turns, descs, found, nics, m) == resolution(turns, descs, found, nics, n),
    decreases m,
{
    if n < m {
        lemma_resolution_error(turns, descs, found, nics, n, (m - 1) as nat);
    }
}

/// Resolve each transfer: NIC by its registered memory's NUMA node, remote key
/// from the peer's descriptor (NICs are index-paired across the two engines).
pub fn resolve(
    rr: &mut NumaRoundRobin,
    descs: &[TransferDesc<'_>],
    found: &[Option<NumaNode>],
    nics: usize,
) -> (r: Result<Vec<Vec<PlannedOp>>, TransferError>)
    requires
        old(rr)@.ok(nics as nat),
        found@.len() == descs@.len(),
    ensures
        final(rr)@.ok(nics as nat),
        ({
            let want = resolution(
                old(rr)@,
                desc_views(descs@),
                found@,
                nics as nat,
                descs@.len(),
            );
            &&& final(rr)@ == want.turns
            &&& match want.error {
                Some(e) => r matches Err(x) && x@ == e,
                None => r matches Ok(v) && op_views(v@) == want.per_nic && v@.len() == nics,
            }
        }),
{
    let ghost t0 = rr@;
    let ghost views = desc_views(descs@);
    let mut per_nic: Vec<Vec<PlannedOp>> = Vec::new();
    for i in 0..nics
        invariant
            per_nic@.len() == i,
            forall|j: int| 0 <= j < i ==> (#[trigger] per_nic@[j])@.len() == 0,
    {
        per_nic.push(Vec::new());
    }
    proof {
        let want = resolution(t0, views, found@, nics as nat, 0).per_nic;
        assert forall|j: int| 0 <= j < nics implies #[trigger] op_views(per_nic@)[j] == want[j] by {
            assert(per_nic@[j]@.len() == 0);
            assert(op_views(per_nic@)[j] =~= want[j]);
        }
        assert(op_views(per_nic@) =~= want);
    }
    for i in 0..descs.len()
        invariant
            t0 == old(rr)@,
            views == desc_views(descs@),
            found@.len() == descs@.len(),
            rr@.ok(nics as nat),
            per_nic@.len() == nics,
            ({
                let p = resolution(t0, views, found@, nics as nat, i as nat);
                &&& p.error is None
                &&& rr@ == p.turns
                &&& op_views(per_nic@) == p.per_nic
            }),
    {
        let ghost p = resolution(t0, views, found@, nics as nat, i as nat);
        let ghost q = resolution(t0, views, found@, nics as nat, (i + 1) as nat);
        let desc = &descs[i];
        assert(views[i as int] == desc@);
        proof {
            if q.error is Some {
                lemma_resolution_error(
                    t0,
                    views,
                    found@,
                    nics as nat,
                    (i + 1) as nat,
                    descs@.len(),
                );
            }
        }
        if desc.len == 0 {
            return Err(TransferError::InvalidArgument("len must be non-zero"));
        }
        let numa = match found[i] {
            Some(numa) => numa,
            None => return Err(TransferError::MemoryNotRegistered { ptr: desc.local }),
        };
        if !desc.region.contains(desc.remote, desc.len) {
            return Err(
                TransferError::InvalidArgument("remote range not covered by its region descriptor"),
            );
        }
        proof {
            lemma_pick(rr@, numa, nics as nat);
        }
        let nic = rr.pick(numa);
        if nic >= desc.region.rkeys.len() {
            return Err(
                TransferError::InvalidArgument("region descriptor has no rkey for paired NIC"),
            );
        }
        let op = PlannedOp {
            local: desc.local,
            remote: desc.remote,
            len: desc.len,
            remote_rkey: desc.region.rkeys[nic],
        };
        let ghost before = op_views(per_nic@);
        per_nic[nic].push(op);
        assert(op_views(per_nic@) =~= before.update(nic as int, before[nic as int].push(op)));
    }
    Ok(per_nic)
}

// ---- spreading ----

/// The queue pair of the `i`th transfer of a NIC, of `n`, the start rotated.
pub open spec fn pair_of(rot: usize, i: nat, n: nat) -> int {
    rot.wrapping_add(i as usize) as int % n as int
}

/// Those of the first `upto` transfers of a NIC that go to queue pair `b`, in
/// order.
pub open spec fn bucket(ops: Seq<PlannedOp>, rot: usize, n: nat, b: int, upto: nat) -> Seq<PlannedOp>
    decreases upto,
{
    if upto == 0 {
        Seq::empty()
    } else {
        let before = bucket(ops, rot, n, b, (upto - 1) as nat);
        if pair_of(rot, (upto - 1) as nat, n) == b {
            before.push(ops[upto - 1])
        } else {
            before
        }
    }
}

/// The transfers that one queue pair carries.
pub struct Work {
    pub pair: usize,
    pub ops: Vec<PlannedOp>,
}

#[verifier::ext_equal]
pub struct WorkView {
    pub pair: usize,
    pub ops: Seq<PlannedOp>,
}

impl View for Work {
    type V = WorkView;

    open spec fn view(&self) -> WorkView {
        WorkView { pair: self.pair, ops: self.ops@ }
    }
}

pub open spec fn work_views(work: Seq<Work>) -> Seq<WorkView> {
    Seq::new(work.len(), |i: int| work[i]@)
}

/// The bytes of a list of transfers.
pub open spec fn ops_bytes(ops: Seq<PlannedOp>) -> nat
    decreases ops.len(),
{
    if ops.len() == 0 {
        0
    } else {
        ops_bytes(ops.drop_last()) + ops.last().len as nat
    }
}

/// What one NIC carries of a batch: how many bytes, and on which queue pairs.
pub struct NicWork {
    pub nic: usize,
    pub bytes: u128,
    pub parts: Vec<Work>,
}

#[verifier::ext_equal]
pub struct NicWorkView {
    pub nic: usize,
    pub bytes: nat,
    pub parts: Seq<WorkView>,
}

impl View for NicWork {
    type V = NicWorkView;

    open spec fn view(&self) -> NicWorkView {
        NicWorkView { nic: self.nic, bytes: self.bytes as nat, parts: work_views(self.parts@) }
    }
}

pub open spec fn nic_work_views(work: Seq<NicWork>) -> Seq<NicWorkView> {
    Seq::new(work.len(), |i: int| work[i]@)
}

/// The work of the first `b` queue pairs of a NIC that have some.
pub open spec fn nic_work(ops: Seq<PlannedOp>, rot: usize, n: nat, b: nat) -> Seq<WorkView>
    decreases b,
{
    if b == 0 {
        Seq::empty()
    } else {
        let before = nic_work(ops, rot, n, (b - 1) as nat);
        let mine = bucket(ops, rot, n, b - 1, ops.len());
        if mine.len() > 0 {
            before.push(WorkView { pair: (b - 1) as usize, ops: mine })
        } else {
            before
        }
    }
}

/// The work of the first `n` NICs, each with its number of queue pairs and its
/// rotation: one entry for every NIC that carries a transfer.
pub open spec fn spread(
    per_nic: Seq<Seq<PlannedOp>>,
    pairs: Seq<nat>,
    rots: Seq<usize>,
    n: nat,
) -> Seq<NicWorkView>
    decreases n,
{
    if n == 0 {
        Seq::empty()
    } else {
        let before = spread(per_nic, pairs, rots, (n - 1) as nat);
        if per_nic[n - 1].len() == 0 {
            before
        } else {
            before.push(
                NicWorkView {
                    nic: (n - 1) as usize,
                    bytes: ops_bytes(per_nic[n - 1]),
                    parts: nic_work(per_nic[n - 1], rots[n - 1], pairs[n - 1], pairs[n - 1]),
                },
            )
        }
    }
}

/// Whether every NIC that carries a transfer has a queue pair for it.
pub open spec fn carried(per_nic: Seq<Seq<PlannedOp>>, pairs: Seq<nat>) -> bool {
    forall|i: int|
        0 <= i < per_nic.len() && (#[trigger] per_nic[i]).len() > 0 ==> pairs[i] > 0
}

/// The bytes of a list of transfers.
fn count_bytes(ops: &Vec<PlannedOp>) -> (r: u128)
    ensures
        r == ops_bytes(ops@),
{
    let mut n: u128 = 0;
    assert(ops@.take(0) =~= Seq::<PlannedOp>::empty());
    for i in 0..ops.len()
        invariant
            n == ops_bytes(ops@.take(i as int)),
            n <= i * usize::MAX,
    {
        assert(ops@.take(i + 1).drop_last() =~= ops@.take(i as int));
        assert(i * usize::MAX + usize::MAX <= u128::MAX) by (nonlinear_arith)
            requires
                0 <= i <= 0xffff_ffff_ffff_fffe,
                usize::MAX <= 0xffff_ffff_ffff_ffff,
        ;
        assert((i + 1) * usize::MAX == i * usize::MAX + usize::MAX) by (nonlinear_arith);
        n = n + ops[i].len as u128;
    }
    assert(ops@.take(ops@.len() as int) =~= ops@);
    n
}

/// Deal the transfers of a NIC to its queue pairs, rotating the start.
fn deal(ops: &Vec<PlannedOp>, rot: usize, n: usize) -> (r: Vec<Work>)
    requires
        n > 0,
    ensures
        work_views(r@) == nic_work(ops@, rot, n as nat, n as nat),
{
    let mut out: Vec<Work> = Vec::new();
    assert(work_views(out@) =~= Seq::empty());
    let mut buckets: Vec<Vec<PlannedOp>> = Vec::new();
    for b in 0..n
        invariant
            buckets@.len() == b,
            forall|j: int| 0 <= j < b ==> (#[trigger] buckets@[j])@.len() == 0,
    {
        buckets.push(Vec::new());
    }
    assert forall|j: int| 0 <= j < n implies (#[trigger] buckets@[j])@ == bucket(
        ops@,
        rot,
        n as nat,
        j,
        0,
    ) by {
        assert(buckets@[j]@ =~= Seq::empty());
    }
    for i in 0..ops.len()
        invariant
            n > 0,
            buckets@.len() == n,
            forall|j: int|
                0 <= j < n ==> (#[trigger] buckets@[j])@ == bucket(
                    ops@,
                    rot,
                    n as nat,
                    j,
                    i as nat,
                ),
    {
        let at: usize = rot.wrapping_add(i) % n;
        let ghost b0 = buckets@;
        buckets[at].push(ops[i]);
        assert forall|j: int| 0 <= j < n implies (#[trigger] buckets@[j])@ == bucket(
            ops@,
            rot,
            n as nat,
            j,
            (i + 1) as nat,
        ) by {
            assert(b0[j]@ == bucket(ops@, rot, n as nat, j, i as nat));
            assert(pair_of(rot, i as nat, n as nat) == at);
        }
    }
    let mut left = buckets;
    for b in 0..n
        invariant
            left@.len() == n,
            forall|j: int|
                b <= j < n ==> (#[trigger] left@[j])@ == bucket(
                    ops@,
                    rot,
                    n as nat,
                    j,
                    ops@.len(),
                ),
            work_views(out@) == nic_work(ops@, rot, n as nat, b as nat),
    {
        let ghost out0 = work_views(out@);
        let mut mine: Vec<PlannedOp> = Vec::new();
        core::mem::swap(&mut left[b], &mut mine);
        assert(mine@ == bucket(ops@, rot, n as nat, b as int, ops@.len()));
        if mine.len() > 0 {
            let ghost view = WorkView { pair: b, ops: mine@ };
            out.push(Work { pair: b, ops: mine });
            assert(work_views(out@) =~= out0.push(view));
        }
        assert(work_views(out@) =~= nic_work(ops@, rot, n as nat, (b + 1) as nat));
    }
    out
}

/// Spread each NIC's transfers over its queue pairs.
pub fn spread_work(per_nic: &Vec<Vec<PlannedOp>>, pairs: &Vec<usize>, rots: &Vec<usize>) -> (r: Vec<
    NicWork,
>)
    requires
        pairs@.len() == per_nic@.len(),
        rots@.len() == per_nic@.len(),
        carried(op_views(per_nic@), Seq::new(pairs@.len(), |i: int| pairs@[i] as nat)),
    ensures
        nic_work_views(r@) == spread(
            op_views(per_nic@),
            Seq::new(pairs@.len(), |i: int| pairs@[i] as nat),
            rots@,
            per_nic@.len(),
        ),
{
    let ghost all = op_views(per_nic@);
    let ghost ns = Seq::new(pairs@.len(), |i: int| pairs@[i] as nat);
    let mut out: Vec<NicWork> = Vec::new();
    assert(nic_work_views(out@) =~= Seq::empty());
    for nic in 0..per_nic.len()
        invariant
            pairs@.len() == per_nic@.len(),
            rots@.len() == per_nic@.len(),
            carried(all, ns),
            all == op_views(per_nic@),
            ns == Seq::new(pairs@.len(), |i: int| pairs@[i] as nat),
            nic_work_views(out@) == spread(all, ns, rots@, nic as nat),
    {
        let ops = &per_nic[nic];
        assert(all[nic as int] == ops@);
        if ops.len() > 0 {
            let ghost before = nic_work_views(out@);
            assert(ns[nic as int] > 0);
            let parts = deal(ops, rots[nic], pairs[nic]);
            let entry = NicWork { nic, bytes: count_bytes(ops), parts };
            let ghost view = entry@;
            out.push(entry);
            assert(nic_work_views(out@) =~= before.push(view));
        }
    }
    out
}

// ---- reports ----

/// What a list of reports comes to: the bytes of all of them, or the first
/// failure.
pub open spec fn tallied(outcomes: Seq<Result<nat, TransferErrorView>>) -> Result<
    nat,
    TransferErrorView,
>
    decreases outcomes.len(),
{
    if outcomes.len() == 0 {
        Ok(0)
    } else {
        match tallied(outcomes.drop_last()) {
            Err(e) => Err(e),
            Ok(n) => match outcomes.last() {
                Ok(bytes) => Ok(n + bytes),
                Err(e) => Err(e),
            },
        }
    }
}

pub open spec fn report_view(outcome: Result<usize, TransferError>) -> Result<
    nat,
    TransferErrorView,
> {
    match outcome {
        Ok(bytes) => Ok(bytes as nat),
        Err(e) => Err(e@),
    }
}

/// What the queue pairs of one NIC have reported of a batch so far.
pub struct NicTally {
    parts: usize,
    left: usize,
    bytes: u128,
    failure: Option<TransferError>,
}

#[verifier::ext_equal]
pub struct TallyView {
    /// How many queue pairs have not reported yet.
    pub left: nat,
    pub total: Result<nat, TransferErrorView>,
}

impl View for NicTally {
    type V = TallyView;

    closed spec fn view(&self) -> TallyView {
        TallyView {
            left: self.left as nat,
            total: match self.failure {
                Some(e) => Err(e@),
                None => Ok(self.bytes as nat),
            },
        }
    }
}

/// What comes of a report.
pub enum Tally {
    /// Others have not reported yet.
    Waiting(NicTally),
    /// It was the last: the bytes transferred on the NIC, or the first failure.
    Done(Result<u128, TransferError>),
}

impl NicTally {
    pub closed spec fn wf(&self) -> bool {
        &&& 0 < self.left <= self.parts
        &&& self.bytes <= (self.parts - self.left) * usize::MAX
    }

    /// A tally for `parts` queue pairs, none of which has reported.
    pub fn new(parts: usize) -> (r: Self)
        requires
            parts > 0,
        ensures
            r.wf(),
            r@ == (TallyView { left: parts as nat, total: Ok(0) }),
    {
        assert((parts - parts) * usize::MAX == 0) by (nonlinear_arith);
        NicTally { parts, left: parts, bytes: 0, failure: None }
    }

    /// Take the report of one queue pair.
    pub fn report(self, outcome: Result<usize, TransferError>) -> (r: Tally)
        requires
            self.wf(),
        ensures
            ({
                let total: Result<nat, TransferErrorView> = match self@.total {
                    Err(e) => Err(e),
                    Ok(n) => match report_view(outcome) {
                        Ok(bytes) => Ok(n + bytes),
                        Err(e) => Err(e),
                    },
                };
                match r {
                    Tally::Waiting(t) => self@.left > 1 && t.wf() && t@ == (TallyView {
                        left: (self@.left - 1) as nat,
                        total,
                    }),
                    Tally::Done(Ok(n)) => self@.left == 1 && total == Ok::<nat, TransferErrorView>(
                        n as nat,
                    ),
                    Tally::Done(Err(e)) => self@.left == 1 && total == Err::<
                        nat,
                        TransferErrorView,
                    >(e@),
                }
            }),
    {
        let parts = self.parts;
        let left: usize = self.left - 1;
        let ghost said = parts - self.left;
        let mut bytes: u128 = self.bytes;
        let mut failure = self.failure;
        assert((said + 1) * usize::MAX == said * usize::MAX + usize::MAX) by (nonlinear_arith);
        assert(said * usize::MAX + usize::MAX <= u128::MAX) by (nonlinear_arith)
            requires
                0 <= said <= 0xffff_ffff_ffff_fffe,
                usize::MAX <= 0xffff_ffff_ffff_ffff,
        ;
        match outcome {
            Ok(n) => {
                if failure.is_none() {
                    bytes = bytes + n as u128;
                }
            },
            Err(e) => {
                if failure.is_none() {
                    failure = Some(e);
                }
            },
        }
        if left > 0 {
            Tally::Waiting(NicTally { parts, left, bytes, failure })
        } else {
            match failure {
                Some(e) => Tally::Done(Err(e)),
                None => Tally::Done(Ok(bytes)),
            }
        }
    }
}

/// What is tallied is every byte, where nothing failed, and the first failure
/// elsewhere.
pub proof fn law_tally_is_the_sum_or_the_first_failure(
    outcomes: Seq<Result<nat, TransferErrorView>>,
    i: int,
)
    requires
        0 <= i < outcomes.len(),
        forall|j: int| 0 <= j < i ==> (#[trigger] outcomes[j]) is Ok,
    ensures
        outcomes[i] matches Err(e) ==> tallied(outcomes) == Err::<nat, TransferErrorView>(e),
        tallied(outcomes.take(i)) is Ok,
        outcomes[i] matches Ok(bytes) ==> tallied(outcomes.take(i + 1)) == Ok::<
            nat,
            TransferErrorView,
        >(tallied(outcomes.take(i))->Ok_0 + bytes),
    decreases outcomes.len(),
{
    let before = outcomes.drop_last();
    assert(outcomes.take(i + 1).drop_last() =~= outcomes.take(i));
    if i < before.len() {
        assert forall|j: int| 0 <= j < i implies (#[trigger] before[j]) is Ok by {
            assert(outcomes[j] is Ok);
        }
        law_tally_is_the_sum_or_the_first_failure(before, i);
        assert(before.take(i) =~= outcomes.take(i));
    } else {
        assert(outcomes.take(i) =~= before);
        lemma_tally_ok(before);
    }
}

proof fn lemma_tally_ok(outcomes: Seq<Result<nat, TransferErrorView>>)
    requires
        forall|j: int| 0 <= j < outcomes.len() ==> (#[trigger] outcomes[j]) is Ok,
    ensures
        tallied(outcomes) is Ok,
    decreases outcomes.len(),
{
    if outcomes.len() > 0 {
        assert(outcomes[outcomes.len() - 1] is Ok);
        assert forall|j: int| 0 <= j < outcomes.len() - 1 implies (
        #[trigger] outcomes.drop_last()[j]) is Ok by {
            assert(outcomes[j] is Ok);
        }
        lemma_tally_ok(outcomes.drop_last());
    }
}

// ---- laws ----

/// The transfers of a list of work.
pub open spec fn work_ops(work: Seq<WorkView>) -> Multiset<PlannedOp>
    decreases work.len(),
{
    if work.len() == 0 {
        Multiset::empty()
    } else {
        work_ops(work.drop_last()).add(work.last().ops.to_multiset())
    }
}

/// The first `upto` transfers, those that go to one of the first `b` queue
/// pairs.
spec fn paired_below(ops: Seq<PlannedOp>, rot: usize, n: nat, b: nat, upto: nat) -> Multiset<
    PlannedOp,
>
    decreases upto,
{
    if upto == 0 {
        Multiset::empty()
    } else {
        let before = paired_below(ops, rot, n, b, (upto - 1) as nat);
        if pair_of(rot, (upto - 1) as nat, n) < b {
            before.insert(ops[upto - 1])
        } else {
            before
        }
    }
}

/// The transfers of the first `b` queue pairs.
spec fn in_buckets(ops: Seq<PlannedOp>, rot: usize, n: nat, b: nat, upto: nat) -> Multiset<
    PlannedOp,
>
    decreases b,
{
    if b == 0 {
        Multiset::empty()
    } else {
        in_buckets(ops, rot, n, (b - 1) as nat, upto).add(
            bucket(ops, rot, n, b - 1, upto).to_multiset(),
        )
    }
}

proof fn lemma_empty_buckets(ops: Seq<PlannedOp>, rot: usize, n: nat, b: nat)
    ensures
        in_buckets(ops, rot, n, b, 0) =~= Multiset::empty(),
    decreases b,
{
    if b > 0 {
        lemma_empty_buckets(ops, rot, n, (b - 1) as nat);
        Seq::<PlannedOp>::empty().to_multiset_ensures();
        assert(bucket(ops, rot, n, b - 1, 0).to_multiset().len() == 0);
        assert(bucket(ops, rot, n, b - 1, 0).to_multiset() =~= Multiset::empty()) by {
            assert forall|x: PlannedOp| #[trigger]
                bucket(ops, rot, n, b - 1, 0).to_multiset().count(x) == 0 by {
                assert(!Seq::<PlannedOp>::empty().contains(x));
            }
        }
    }
}

proof fn lemma_bucket_step(ops: Seq<PlannedOp>, rot: usize, n: nat, b: nat, upto: nat)
    requires
        upto > 0,
        n > 0,
    ensures
        in_buckets(ops, rot, n, b, upto) =~= if pair_of(rot, (upto - 1) as nat, n) < b {
            in_buckets(ops, rot, n, b, (upto - 1) as nat).insert(ops[upto - 1])
        } else {
            in_buckets(ops, rot, n, b, (upto - 1) as nat)
        },
    decreases b,
{
    vstd::arithmetic::div_mod::lemma_mod_bound(
        rot.wrapping_add((upto - 1) as usize) as int,
        n as int,
    );
    if b > 0 {
        lemma_bucket_step(ops, rot, n, (b - 1) as nat, upto);
        bucket(ops, rot, n, b - 1, (upto - 1) as nat).to_multiset_ensures();
    }
}

proof fn lemma_buckets(ops: Seq<PlannedOp>, rot: usize, n: nat, b: nat, upto: nat)
    requires
        b <= n,
        n > 0,
        upto <= ops.len(),
    ensures
        in_buckets(ops, rot, n, b, upto) =~= paired_below(ops, rot, n, b, upto),
    decreases upto,
{
    if upto > 0 {
        lemma_buckets(ops, rot, n, b, (upto - 1) as nat);
        lemma_bucket_step(ops, rot, n, b, upto);
    } else {
        lemma_empty_buckets(ops, rot, n, b);
    }
}

/// Every transfer goes to one of the queue pairs.
proof fn lemma_all_paired(ops: Seq<PlannedOp>, rot: usize, n: nat, upto: nat)
    requires
        n > 0,
        upto <= ops.len(),
    ensures
        paired_below(ops, rot, n, n, upto) =~= ops.take(upto as int).to_multiset(),
    decreases upto,
{
    if upto > 0 {
        lemma_all_paired(ops, rot, n, (upto - 1) as nat);
        vstd::arithmetic::div_mod::lemma_mod_bound(
            rot.wrapping_add((upto - 1) as usize) as int,
            n as int,
        );
        let before = ops.take(upto - 1);
        before.to_multiset_ensures();
        assert(ops.take(upto as int) =~= before.push(ops[upto - 1]));
    } else {
        assert(ops.take(0) =~= Seq::empty());
        Seq::<PlannedOp>::empty().to_multiset_ensures();
        assert forall|x: PlannedOp| #[trigger] Seq::<PlannedOp>::empty().to_multiset().count(x)
            == 0 by {
            assert(!Seq::<PlannedOp>::empty().contains(x));
        }
    }
}

proof fn lemma_nic_work_ops(ops: Seq<PlannedOp>, rot: usize, n: nat, b: nat)
    ensures
        work_ops(nic_work(ops, rot, n, b)) =~= in_buckets(ops, rot, n, b, ops.len()),
    decreases b,
{
    if b > 0 {
        lemma_nic_work_ops(ops, rot, n, (b - 1) as nat);
        let before = nic_work(ops, rot, n, (b - 1) as nat);
        let now = nic_work(ops, rot, n, b);
        let mine = bucket(ops, rot, n, b - 1, ops.len());
        if mine.len() > 0 {
            assert(now.drop_last() =~= before);
        } else {
            mine.to_multiset_ensures();
            assert(mine.to_multiset() =~= Multiset::empty()) by {
                assert forall|x: PlannedOp| #[trigger] mine.to_multiset().count(x) == 0 by {
                    assert(!mine.contains(x));
                }
            }
        }
    }
}

/// Spreading loses no transfer and doubles none: a NIC's queue pairs carry
/// exactly what the NIC has.
pub proof fn law_spreading_keeps_every_transfer(ops: Seq<PlannedOp>, rot: usize, n: nat)
    requires
        n > 0,
    ensures
        work_ops(nic_work(ops, rot, n, n)) == ops.to_multiset(),
{
    lemma_nic_work_ops(ops, rot, n, n);
    lemma_buckets(ops, rot, n, n, ops.len());
    lemma_all_paired(ops, rot, n, ops.len());
    assert(ops.take(ops.len() as int) =~= ops);
}

/// Whether work is listed by NIC, each NIC once.
pub open spec fn one_per_nic(work: Seq<NicWorkView>) -> bool {
    forall|i: int, j: int|
        0 <= i < j < work.len() ==> (#[trigger] work[i]).nic < (#[trigger] work[j]).nic
}

/// The bytes of a batch, over all NICs.
pub open spec fn work_bytes(work: Seq<NicWorkView>) -> nat
    decreases work.len(),
{
    if work.len() == 0 {
        0
    } else {
        work_bytes(work.drop_last()) + work.last().bytes
    }
}

/// The bytes that a batch asks for.
pub open spec fn descs_bytes(descs: Seq<TransferDescView>) -> nat
    decreases descs.len(),
{
    if descs.len() == 0 {
        0
    } else {
        descs_bytes(descs.drop_last()) + descs.last().len as nat
    }
}

/// A batch comes back with one entry for every NIC that carries a transfer, and
/// no other: the bytes on that NIC, and its transfers, each on one of its queue
/// pairs.
pub proof fn law_one_entry_per_active_nic(
    per_nic: Seq<Seq<PlannedOp>>,
    pairs: Seq<nat>,
    rots: Seq<usize>,
    n: nat,
)
    requires
        n <= per_nic.len(),
        n <= usize::MAX,
        carried(per_nic, pairs),
    ensures
        one_per_nic(spread(per_nic, pairs, rots, n)),
        forall|i: int|
            0 <= i < n && (#[trigger] per_nic[i]).len() > 0 ==> exists|j: int|
                0 <= j < spread(per_nic, pairs, rots, n).len() && (#[trigger] spread(
                    per_nic,
                    pairs,
                    rots,
                    n,
                )[j]).nic == i,
        forall|j: int|
            0 <= j < spread(per_nic, pairs, rots, n).len() ==> ({
                let entry = #[trigger] spread(per_nic, pairs, rots, n)[j];
                &&& entry.nic < n
                &&& per_nic[entry.nic as int].len() > 0
                &&& entry.bytes == ops_bytes(per_nic[entry.nic as int])
                &&& work_ops(entry.parts) == per_nic[entry.nic as int].to_multiset()
            }),
    decreases n,
{
    if n > 0 {
        let before = spread(per_nic, pairs, rots, (n - 1) as nat);
        let now = spread(per_nic, pairs, rots, n);
        law_one_entry_per_active_nic(per_nic, pairs, rots, (n - 1) as nat);
        if per_nic[n - 1].len() > 0 {
            assert(pairs[n - 1] > 0);
            law_spreading_keeps_every_transfer(per_nic[n - 1], rots[n - 1], pairs[n - 1]);
        }
        assert forall|i: int| 0 <= i < n && (#[trigger] per_nic[i]).len() > 0 implies exists|j: int|
            0 <= j < now.len() && (#[trigger] now[j]).nic == i by {
            if i < n - 1 {
                let j = choose|j: int| 0 <= j < before.len() && (#[trigger] before[j]).nic == i;
                assert(now[j].nic == i);
            } else {
                assert(now[now.len() - 1].nic == i);
            }
        }
        assert forall|j: int| 0 <= j < now.len() implies ({
            let entry = #[trigger] now[j];
            &&& entry.nic < n
            &&& per_nic[entry.nic as int].len() > 0
            &&& entry.bytes == ops_bytes(per_nic[entry.nic as int])
            &&& work_ops(entry.parts) == per_nic[entry.nic as int].to_multiset()
        }) by {
            if j < before.len() {
                assert(now[j] == before[j]);
            }
        }
        assert forall|i: int, j: int| 0 <= i < j < now.len() implies (#[trigger] now[i]).nic < (
        #[trigger] now[j]).nic by {
            assert(now[i] == before[i]);
            if j < before.len() {
                assert(now[j] == before[j]);
            }
        }
    }
}

/// The bytes on all NICs.
spec fn nics_bytes(per_nic: Seq<Seq<PlannedOp>>) -> nat
    decreases per_nic.len(),
{
    if per_nic.len() == 0 {
        0
    } else {
        nics_bytes(per_nic.drop_last()) + ops_bytes(per_nic.last())
    }
}

proof fn lemma_spread_bytes(
    per_nic: Seq<Seq<PlannedOp>>,
    pairs: Seq<nat>,
    rots: Seq<usize>,
    n: nat,
)
    requires
        n <= per_nic.len(),
    ensures
        work_bytes(spread(per_nic, pairs, rots, n)) == nics_bytes(per_nic.take(n as int)),
    decreases n,
{
    if n > 0 {
        lemma_spread_bytes(per_nic, pairs, rots, (n - 1) as nat);
        assert(per_nic.take(n as int).drop_last() =~= per_nic.take(n - 1));
        let before = spread(per_nic, pairs, rots, (n - 1) as nat);
        let now = spread(per_nic, pairs, rots, n);
        if per_nic[n - 1].len() > 0 {
            assert(now.drop_last() =~= before);
        } else {
            assert(ops_bytes(per_nic[n - 1]) == 0);
        }
    } else {
        assert(per_nic.take(0) =~= Seq::<Seq<PlannedOp>>::empty());
    }
}

proof fn lemma_bytes_push(per_nic: Seq<Seq<PlannedOp>>, nic: int, op: PlannedOp)
    requires
        0 <= nic < per_nic.len(),
    ensures
        nics_bytes(per_nic.update(nic, per_nic[nic].push(op))) == nics_bytes(per_nic)
            + op.len as nat,
    decreases per_nic.len(),
{
    let after = per_nic.update(nic, per_nic[nic].push(op));
    if nic == per_nic.len() - 1 {
        assert(after.drop_last() =~= per_nic.drop_last());
        assert(per_nic[nic].push(op).drop_last() =~= per_nic[nic]);
    } else {
        lemma_bytes_push(per_nic.drop_last(), nic, op);
        assert(after.drop_last() =~= per_nic.drop_last().update(
            nic,
            per_nic.drop_last()[nic].push(op),
        ));
    }
}

proof fn lemma_bytes_none(nics: nat)
    ensures
        nics_bytes(Seq::new(nics, |i: int| Seq::<PlannedOp>::empty())) == 0,
    decreases nics,
{
    if nics > 0 {
        lemma_bytes_none((nics - 1) as nat);
        let all = Seq::new(nics, |i: int| Seq::<PlannedOp>::empty());
        assert(all.drop_last() =~= Seq::new(
            (nics - 1) as nat,
            |i: int| Seq::<PlannedOp>::empty(),
        ));
    }
}

proof fn lemma_resolved_bytes(
    turns: Turns,
    descs: Seq<TransferDescView>,
    found: Seq<Option<NumaNode>>,
    nics: nat,
    n: nat,
)
    requires
        turns.ok(nics),
        n <= descs.len(),
    ensures
        resolution(turns, descs, found, nics, n).error is None ==> nics_bytes(
            resolution(turns, descs, found, nics, n).per_nic,
        ) == descs_bytes(descs.take(n as int)),
    decreases n,
{
    if n == 0 {
        lemma_bytes_none(nics);
        assert(descs.take(0) =~= Seq::<TransferDescView>::empty());
    } else {
        lemma_resolved_bytes(turns, descs, found, nics, (n - 1) as nat);
        lemma_resolved(turns, descs, found, nics, (n - 1) as nat);
        assert(descs.take(n as int).drop_last() =~= descs.take(n - 1));
        let p = resolution(turns, descs, found, nics, (n - 1) as nat);
        let d = descs[n - 1];
        if p.error is None && found[n - 1] is Some {
            let numa = found[n - 1]->0;
            lemma_pick(p.turns, numa, nics);
            let nic = p.turns.pick(numa) as int;
            if nic < d.region.rkeys.len() {
                let op = PlannedOp {
                    local: d.local,
                    remote: d.remote,
                    len: d.len,
                    remote_rkey: d.region.rkeys[nic],
                };
                lemma_bytes_push(p.per_nic, nic, op);
            }
        }
    }
}

/// The bytes on all NICs are those that the batch asks for.
pub proof fn law_every_byte_is_on_a_nic(
    turns: Turns,
    descs: Seq<TransferDescView>,
    found: Seq<Option<NumaNode>>,
    nics: nat,
    pairs: Seq<nat>,
    rots: Seq<usize>,
)
    requires
        turns.ok(nics),
        resolution(turns, descs, found, nics, descs.len()).error is None,
    ensures
        work_bytes(
            spread(
                resolution(turns, descs, found, nics, descs.len()).per_nic,
                pairs,
                rots,
                nics,
            ),
        ) == descs_bytes(descs),
{
    let per_nic = resolution(turns, descs, found, nics, descs.len()).per_nic;
    lemma_resolved(turns, descs, found, nics, descs.len());
    lemma_resolved_bytes(turns, descs, found, nics, descs.len());
    lemma_spread_bytes(per_nic, pairs, rots, nics);
    assert(per_nic.take(nics as int) =~= per_nic);
    assert(descs.take(descs.len() as int) =~= descs);
}

/// The number of transfers on all NICs.
pub open spec fn ops_count(per_nic: Seq<Seq<PlannedOp>>) -> nat
    decreases per_nic.len(),
{
    if per_nic.len() == 0 {
        0
    } else {
        ops_count(per_nic.drop_last()) + per_nic.last().len()
    }
}

proof fn lemma_count_push(per_nic: Seq<Seq<PlannedOp>>, nic: int, op: PlannedOp)
    requires
        0 <= nic < per_nic.len(),
    ensures
        ops_count(per_nic.update(nic, per_nic[nic].push(op))) == ops_count(per_nic) + 1,
    decreases per_nic.len(),
{
    let after = per_nic.update(nic, per_nic[nic].push(op));
    if nic == per_nic.len() - 1 {
        assert(after.drop_last() =~= per_nic.drop_last());
    } else {
        lemma_count_push(per_nic.drop_last(), nic, op);
        assert(after.drop_last() =~= per_nic.drop_last().update(
            nic,
            per_nic.drop_last()[nic].push(op),
        ));
    }
}

proof fn lemma_count_none(nics: nat)
    ensures
        ops_count(Seq::new(nics, |i: int| Seq::<PlannedOp>::empty())) == 0,
    decreases nics,
{
    if nics > 0 {
        lemma_count_none((nics - 1) as nat);
        let all = Seq::new(nics, |i: int| Seq::<PlannedOp>::empty());
        assert(all.drop_last() =~= Seq::new(
            (nics - 1) as nat,
            |i: int| Seq::<PlannedOp>::empty(),
        ));
    }
}

pub proof fn lemma_resolved(
    turns: Turns,
    descs: Seq<TransferDescView>,
    found: Seq<Option<NumaNode>>,
    nics: nat,
    n: nat,
)
    requires
        turns.ok(nics),
    ensures
        resolution(turns, descs, found, nics, n).turns.ok(nics),
        resolution(turns, descs, found, nics, n).per_nic.len() == nics,
        resolution(turns, descs, found, nics, n).error is None ==> ops_count(
            resolution(turns, descs, found, nics, n).per_nic,
        ) == n,
    decreases n,
{
    if n == 0 {
        lemma_count_none(nics);
    } else {
        lemma_resolved(turns, descs, found, nics, (n - 1) as nat);
        let p = resolution(turns, descs, found, nics, (n - 1) as nat);
        let d = descs[n - 1];
        if p.error is None && found[n - 1] is Some {
            let numa = found[n - 1]->0;
            lemma_pick(p.turns, numa, nics);
            let nic = p.turns.pick(numa) as int;
            if nic < d.region.rkeys.len() {
                let op = PlannedOp {
                    local: d.local,
                    remote: d.remote,
                    len: d.len,
                    remote_rkey: d.region.rkeys[nic],
                };
                lemma_count_push(p.per_nic, nic, op);
            }
        }
    }
}

/// A batch that is not refused has every transfer on a NIC, and on one.
pub proof fn law_every_transfer_has_a_nic(
    turns: Turns,
    descs: Seq<TransferDescView>,
    found: Seq<Option<NumaNode>>,
    nics: nat,
)
    requires
        turns.ok(nics),
        resolution(turns, descs, found, nics, descs.len()).error is None,
    ensures
        ops_count(resolution(turns, descs, found, nics, descs.len()).per_nic) == descs.len(),
{
    lemma_resolved(turns, descs, found, nics, descs.len());
}

/// One transfer that is empty, or whose memory is not registered or not covered,
/// refuses the whole batch.
pub proof fn law_one_bad_transfer_refuses_the_batch(
    turns: Turns,
    descs: Seq<TransferDescView>,
    found: Seq<Option<NumaNode>>,
    nics: nat,
    i: int,
)
    requires
        0 <= i < descs.len(),
        descs[i].len == 0 || found[i] is None || !descs[i].region.covers(
            descs[i].remote,
            descs[i].len as nat,
        ),
    ensures
        resolution(turns, descs, found, nics, descs.len()).error is Some,
{
    let upto = (i + 1) as nat;
    assert(resolution(turns, descs, found, nics, upto).error is Some);
    lemma_resolution_error(turns, descs, found, nics, upto, descs.len());
}

/// A transfer goes out on a NIC of its memory's own NUMA node, wherever that
/// node has one, and so does the next.
pub proof fn law_transfers_stay_on_their_node(nodes: Seq<NumaNode>, t: Turns, numa: NumaNode)
    requires
        nodes.len() <= usize::MAX,
        t.has_own(numa),
        t.groups[numa.0].nics == on_node(nodes, numa.0, nodes.len()),
        t.groups[numa.0].nics.len() > 0,
    ensures
        t.pick(numa) < nodes.len(),
        nodes[t.pick(numa) as int] == numa,
        t.picked(numa).has_own(numa),
        t.picked(numa).groups[numa.0].nics == t.groups[numa.0].nics,
{
    lemma_on_node(nodes, numa.0, nodes.len());
    let g = t.groups[numa.0];
    vstd::arithmetic::div_mod::lemma_mod_bound(g.counter as int, g.nics.len() as int);
    assert(g.nics[g.counter as int % g.nics.len() as int] == t.pick(numa));
}

} // verus!
