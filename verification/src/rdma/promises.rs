//! What the transfer engine promises, on the requests and answers themselves.
use vstd::prelude::*;

use crate::numerals;
use crate::rdma::batch;
use crate::rdma::batch::{PlannedOp, Turns};
use crate::rdma::descriptor::{EndpointView, TransferDescView};
use crate::rdma::engine;
use crate::rdma::engine::EngineView;
use crate::rdma::nics;
use crate::rdma::numa::NumaNode;
use crate::text;

verus! {

// ---- NUMA nodes of devices ----

/// A device's file that holds a number names that node, zero included, with or
/// without a sign, leading zeros and white space around it; a negative number,
/// one that is too great, or no file names none.
pub proof fn law_device_files_name_their_node(
    pre: Seq<char>,
    k: nat,
    n: nat,
    post: Seq<char>,
)
    requires
        numerals::all_space(pre),
        numerals::all_space(post),
    ensures
        ({
            let node = if n <= i32::MAX {
                NumaNode(n as u32)
            } else {
                NumaNode(u32::MAX)
            };
            let number = numerals::numeral(k, n);
            &&& nics::file_node(Some(pre + number + post)) == node
            &&& nics::file_node(Some(pre + (seq!['+'] + number) + post)) == node
            &&& n > 0 ==> nics::file_node(Some(pre + (seq!['-'] + number) + post)) == NumaNode(
                u32::MAX,
            )
        }),
        nics::file_node(None) == NumaNode(u32::MAX),
{
    let number = numerals::numeral(k, n);
    numerals::lemma_numeral(k, n);
    numerals::law_signed_numbers_read_as_written(k, n);
    assert(text::is_digit(number[0]) && text::is_digit(number[number.len() - 1]));
    let plus = seq!['+'] + number;
    let minus = seq!['-'] + number;
    assert(plus.last() == number.last());
    assert(minus.last() == number.last());
    numerals::law_trimming_takes_the_ends(pre, number, post);
    numerals::law_trimming_takes_the_ends(pre, plus, post);
    numerals::law_trimming_takes_the_ends(pre, minus, post);
}

/// A node is named by its number alone: what a file that names one holds is the
/// number, between white space.
pub proof fn law_nodes_are_named_by_number(content: Seq<char>) -> (r: (
    Seq<char>,
    nat,
    Seq<char>,
))
    ensures
        ({
            let node = nics::file_node(Some(content));
            let number = numerals::numeral(r.1, node.0 as nat);
            node != NumaNode(u32::MAX) ==> {
                &&& numerals::all_space(r.0)
                &&& numerals::all_space(r.2)
                &&& node.0 <= i32::MAX
                &&& content == r.0 + number + r.2 || content == r.0 + (seq!['+'] + number) + r.2
                    || node.0 == 0 && content == r.0 + (seq!['-'] + number) + r.2
            }
        }),
{
    let t = text::trimmed(content);
    let (pre, post) = numerals::law_trimmed_text_is_tight(content);
    let k = numerals::law_only_numerals_are_signed_numbers(t);
    (pre, k, post)
}

// ---- handshakes ----

/// How many queue pairs the NICs before `n` have.
pub open spec fn pairs_before(local: Seq<Seq<EndpointView>>, n: nat) -> nat
    decreases n,
{
    if n == 0 {
        0
    } else {
        pairs_before(local, (n - 1) as nat) + local[n - 1].len()
    }
}

proof fn lemma_nic_pairings(nic: int, local: Seq<EndpointView>, remote: Seq<EndpointView>, m: nat)
    requires
        m <= local.len(),
        0 <= nic <= usize::MAX,
    ensures
        engine::nic_pairings(nic, local, remote, m).len() == m,
        forall|k: int|
            0 <= k < m ==> {
                let p = #[trigger] engine::nic_pairings(nic, local, remote, m)[k];
                p.nic == nic && p.qp_num == local[k].2 && p.remote == remote[k]
            },
    decreases m,
{
    if m > 0 {
        lemma_nic_pairings(nic, local, remote, (m - 1) as nat);
    }
}

proof fn lemma_before_grows(local: Seq<Seq<EndpointView>>, a: nat, b: nat)
    requires
        a < b <= local.len(),
    ensures
        pairs_before(local, a) + local[a as int].len() <= pairs_before(local, b),
    decreases b,
{
    if a + 1 < b {
        lemma_before_grows(local, a, (b - 1) as nat);
    }
}

/// Queue pairs are connected place by place: the `k`th of NIC `n` of this side
/// to the `k`th of NIC `n` of the other, every one of them once.
pub proof fn law_queue_pairs_are_connected_place_by_place(
    local: Seq<Seq<EndpointView>>,
    remote: Seq<Seq<EndpointView>>,
    n: nat,
    nic: int,
    k: int,
)
    requires
        n <= local.len(),
        n <= usize::MAX,
        0 <= nic < n,
        0 <= k < local[nic].len(),
    ensures
        engine::pairings(local, remote, n).len() == pairs_before(local, n),
        pairs_before(local, nic as nat) + k < pairs_before(local, n),
        ({
            let p = engine::pairings(local, remote, n)[pairs_before(local, nic as nat) + k];
            p.nic == nic && p.qp_num == local[nic][k].2 && p.remote == remote[nic][k]
        }),
    decreases n,
{
    lemma_pairings_len(local, remote, n);
    lemma_before_grows(local, nic as nat, n);
    let before = engine::pairings(local, remote, (n - 1) as nat);
    lemma_pairings_len(local, remote, (n - 1) as nat);
    lemma_nic_pairings(n - 1, local[n - 1], remote[n - 1], local[n - 1].len());
    if nic < n - 1 {
        law_queue_pairs_are_connected_place_by_place(local, remote, (n - 1) as nat, nic, k);
    }
}

proof fn lemma_pairings_len(
    local: Seq<Seq<EndpointView>>,
    remote: Seq<Seq<EndpointView>>,
    n: nat,
)
    requires
        n <= local.len(),
        n <= usize::MAX,
    ensures
        engine::pairings(local, remote, n).len() == pairs_before(local, n),
    decreases n,
{
    if n > 0 {
        lemma_pairings_len(local, remote, (n - 1) as nat);
        lemma_nic_pairings(n - 1, local[n - 1], remote[n - 1], local[n - 1].len());
    }
}

// ---- batches ----

/// Whether a transfer on a NIC is one that was asked for: the same bytes, with
/// the key that the peer's memory has on the NIC that is paired with this one.
pub open spec fn is_of(op: PlannedOp, d: TransferDescView, nic: int) -> bool {
    &&& op.local == d.local
    &&& op.remote == d.remote
    &&& op.len == d.len
    &&& 0 <= nic < d.region.rkeys.len()
    &&& op.remote_rkey == d.region.rkeys[nic]
}

/// Whether a NIC is one for memory on a node: of that node, where it has any.
pub open spec fn serves(nodes: Seq<NumaNode>, numa: NumaNode, nic: int) -> bool {
    &&& 0 <= nic < nodes.len()
    &&& numa.0 != u32::MAX && nodes.contains(numa) ==> nodes[nic] == numa
}

/// Whether turns are over the NICs of each node.
pub open spec fn turns_over(t: Turns, nodes: Seq<NumaNode>) -> bool {
    &&& nodes.len() > 0
    &&& forall|numa: NumaNode| #[trigger]
        t.has_own(numa) <==> numa.0 != u32::MAX && nodes.contains(numa)
    &&& forall|numa: NumaNode, i: int|
        t.has_own(numa) && 0 <= i < t.groups[numa.0].nics.len() ==> serves(
            nodes,
            numa,
            #[trigger] t.groups[numa.0].nics[i] as int,
        )
    &&& forall|numa: NumaNode, i: int|
        #[trigger] t.has_own(numa) && 0 <= i < nodes.len() && #[trigger] nodes[i] == numa
            ==> t.groups[numa.0].nics.contains(i as usize)
    &&& forall|numa: NumaNode| #[trigger]
        t.has_own(numa) ==> t.groups[numa.0].nics.len() > 0
            && t.groups[numa.0].nics.no_duplicates()
    &&& t.fallback.nics.len() == nodes.len()
    &&& forall|i: int| 0 <= i < nodes.len() ==> #[trigger] t.fallback.nics[i] == i
}

proof fn lemma_on_node_all(nodes: Seq<NumaNode>, node: u32, n: nat)
    requires
        n <= nodes.len(),
        nodes.len() <= usize::MAX,
    ensures
        forall|i: int|
            0 <= i < batch::on_node(nodes, node, n).len() ==> (#[trigger] batch::on_node(
                nodes,
                node,
                n,
            )[i]) < n && nodes[batch::on_node(nodes, node, n)[i] as int].0 == node,
        forall|i: int|
            0 <= i < n && (#[trigger] nodes[i]).0 == node ==> batch::on_node(nodes, node, n).contains(
                i as usize,
            ),
        batch::on_node(nodes, node, n).no_duplicates(),
    decreases n,
{
    if n > 0 {
        let before = batch::on_node(nodes, node, (n - 1) as nat);
        let now = batch::on_node(nodes, node, n);
        lemma_on_node_all(nodes, node, (n - 1) as nat);
        assert forall|i: int| 0 <= i < now.len() implies (#[trigger] now[i]) < n
            && nodes[now[i] as int].0 == node by {
            if i < before.len() {
                assert(now[i] == before[i]);
            }
        }
        assert forall|i: int| 0 <= i < n && (#[trigger] nodes[i]).0 == node implies now.contains(
            i as usize,
        ) by {
            if i < n - 1 {
                let c = before.index_of(i as usize);
                assert(now[c] == i);
            } else {
                assert(now[now.len() - 1] == i);
            }
        }
        assert forall|a: int, b: int| 0 <= a < now.len() && 0 <= b < now.len() && a != b implies now[a]
            != now[b] by {
            if a < before.len() {
                assert(before[a] == now[a] && before[a] < n - 1);
            }
            if b < before.len() {
                assert(before[b] == now[b] && before[b] < n - 1);
            }
        }
    }
}

/// New turns are over the NICs of each node, and a pick keeps them so: memory on
/// a node with NICs of its own goes out on one of these, and other memory on any.
pub proof fn law_picks_are_of_the_node(nodes: Seq<NumaNode>, t: Turns, numa: NumaNode)
    requires
        0 < nodes.len() <= usize::MAX,
    ensures
        turns_over(Turns::fresh(nodes), nodes),
        turns_over(t, nodes) ==> serves(nodes, numa, t.pick(numa) as int) && turns_over(
            t.picked(numa),
            nodes,
        ),
{
    let f = Turns::fresh(nodes);
    assert forall|x: NumaNode| #[trigger] f.has_own(x) <==> x.0 != u32::MAX && nodes.contains(
        x,
    ) by {
        lemma_on_node_all(nodes, x.0, nodes.len());
        let own = batch::on_node(nodes, x.0, nodes.len());
        if f.has_own(x) {
            assert(own[0] < nodes.len());
            assert(nodes[own[0] as int] == x);
        }
        if x.0 != u32::MAX && nodes.contains(x) {
            let i = nodes.index_of(x);
            assert(nodes[i].0 == x.0);
            assert(own.contains(i as usize));
        }
    }
    assert forall|x: NumaNode, i: int|
        f.has_own(x) && 0 <= i < f.groups[x.0].nics.len() implies serves(
        nodes,
        x,
        #[trigger] f.groups[x.0].nics[i] as int,
    ) by {
        lemma_on_node_all(nodes, x.0, nodes.len());
        let own = batch::on_node(nodes, x.0, nodes.len());
        assert(own[i] < nodes.len());
        assert(nodes[own[i] as int].0 == x.0);
    }
    assert forall|x: NumaNode, i: int|
        #[trigger] f.has_own(x) && 0 <= i < nodes.len() && #[trigger] nodes[i] == x implies f.groups[x.0].nics.contains(
    i as usize) by {
        lemma_on_node_all(nodes, x.0, nodes.len());
    }
    assert forall|x: NumaNode| #[trigger] f.has_own(x) implies f.groups[x.0].nics.len() > 0
        && f.groups[x.0].nics.no_duplicates() by {
        lemma_on_node_all(nodes, x.0, nodes.len());
    }
    if turns_over(t, nodes) {
        let u = t.picked(numa);
        if t.has_own(numa) {
            let g = t.groups[numa.0];
            vstd::arithmetic::div_mod::lemma_mod_bound(g.counter as int, g.nics.len() as int);
            assert(serves(
                nodes,
                numa,
                g.nics[g.counter as int % g.nics.len() as int] as int,
            ));
        } else {
            let g = t.fallback;
            vstd::arithmetic::div_mod::lemma_mod_bound(g.counter as int, g.nics.len() as int);
        }
        assert forall|x: NumaNode| #[trigger] u.has_own(x) <==> t.has_own(x) by {}
        assert forall|x: NumaNode| u.has_own(x) implies #[trigger] u.groups[x.0].nics
            == t.groups[x.0].nics by {
            assert(t.has_own(x));
        }
        assert forall|x: NumaNode, i: int|
            u.has_own(x) && 0 <= i < u.groups[x.0].nics.len() implies serves(
            nodes,
            x,
            #[trigger] u.groups[x.0].nics[i] as int,
        ) by {
            assert(t.has_own(x));
            assert(u.groups[x.0].nics == t.groups[x.0].nics);
            assert(serves(nodes, x, t.groups[x.0].nics[i] as int));
        }
        assert forall|x: NumaNode, i: int|
            #[trigger] u.has_own(x) && 0 <= i < nodes.len() && #[trigger] nodes[i]
                == x implies u.groups[x.0].nics.contains(i as usize) by {
            assert(t.has_own(x));
            assert(u.groups[x.0].nics == t.groups[x.0].nics);
        }
        assert forall|x: NumaNode| #[trigger] u.has_own(x) implies u.groups[x.0].nics.len() > 0
            && u.groups[x.0].nics.no_duplicates() by {
            assert(t.has_own(x));
            assert(u.groups[x.0].nics == t.groups[x.0].nics);
        }
    }
}

/// The turns after `j` picks for one node.
pub open spec fn picked_times(t: Turns, numa: NumaNode, j: nat) -> Turns
    decreases j,
{
    if j == 0 {
        t
    } else {
        picked_times(t, numa, (j - 1) as nat).picked(numa)
    }
}

/// How many NICs take turns for a node, and how far they have come.
pub open spec fn rounds(t: Turns, numa: NumaNode) -> (nat, nat) {
    if t.has_own(numa) {
        (t.groups[numa.0].nics.len(), t.groups[numa.0].counter as nat)
    } else {
        (t.fallback.nics.len(), t.fallback.counter as nat)
    }
}

proof fn lemma_picked_times(t: Turns, numa: NumaNode, j: nat)
    requires
        rounds(t, numa).1 + j <= usize::MAX,
    ensures
        ({
            let u = picked_times(t, numa, j);
            &&& u.has_own(numa) == t.has_own(numa)
            &&& t.has_own(numa) ==> u.groups[numa.0].nics == t.groups[numa.0].nics
                && u.groups[numa.0].counter == t.groups[numa.0].counter + j
            &&& !t.has_own(numa) ==> u.fallback.nics == t.fallback.nics && u.fallback.counter
                == t.fallback.counter + j
        }),
    decreases j,
{
    if j > 0 {
        lemma_picked_times(t, numa, (j - 1) as nat);
    }
}

/// NICs take turns: of as many picks in a row as there are NICs for a node, no
/// two give the same NIC.
pub proof fn law_nics_take_turns(nodes: Seq<NumaNode>, t: Turns, numa: NumaNode, a: nat, b: nat)
    requires
        turns_over(t, nodes),
        a < b < a + rounds(t, numa).0,
        rounds(t, numa).1 + b <= usize::MAX,
    ensures
        picked_times(t, numa, a).pick(numa) != picked_times(t, numa, b).pick(numa),
{
    lemma_picked_times(t, numa, a);
    lemma_picked_times(t, numa, b);
    let (n, c) = rounds(t, numa);
    let n = n as int;
    let x = ((c + a) as int) % n;
    let y = ((c + b) as int) % n;
    assert(x != y) by {
        lemma_apart((c + a) as int, (c + b) as int, n);
    }
    vstd::arithmetic::div_mod::lemma_mod_bound((c + a) as int, n);
    vstd::arithmetic::div_mod::lemma_mod_bound((c + b) as int, n);
    if t.has_own(numa) {
        let own = t.groups[numa.0].nics;
        assert(own[x] != own[y]);
    } else {
        assert(t.fallback.nics[x] == x);
        assert(t.fallback.nics[y] == y);
    }
}

/// Numbers less than `n` apart do not have the same remainder.
proof fn lemma_apart(x: int, y: int, n: int)
    requires
        0 <= x < y < x + n,
    ensures
        x % n != y % n,
{
    vstd::arithmetic::div_mod::lemma_fundamental_div_mod(x, n);
    vstd::arithmetic::div_mod::lemma_fundamental_div_mod(y, n);
    if x % n == y % n {
        let p = x / n;
        let q = y / n;
        assert(y - x == n * q - n * p);
        assert(n * q - n * p == n * (q - p)) by (nonlinear_arith);
        assert(q - p <= 0 || n * (q - p) >= n) by (nonlinear_arith)
            requires
                n > 0,
        ;
        assert(q - p > 0 || n * (q - p) <= 0) by (nonlinear_arith)
            requires
                n > 0,
        ;
    }
}

proof fn lemma_resolved_ops(
    nodes: Seq<NumaNode>,
    turns: Turns,
    descs: Seq<TransferDescView>,
    found: Seq<Option<NumaNode>>,
    n: nat,
)
    requires
        0 < nodes.len() <= usize::MAX,
        turns_over(turns, nodes),
        found.len() == descs.len(),
        n <= descs.len(),
    ensures
        ({
            let r = batch::resolution(turns, descs, found, nodes.len(), n);
            &&& turns_over(r.turns, nodes)
            &&& r.per_nic.len() == nodes.len()
            &&& r.error is None ==> forall|nic: int, x: int|
                0 <= nic < nodes.len() && 0 <= x < r.per_nic[nic].len() ==> exists|j: int|
                    0 <= j < n && is_of(#[trigger] r.per_nic[nic][x], #[trigger] descs[j], nic)
                        && found[j] is Some && serves(nodes, found[j]->0, nic)
        }),
    decreases n,
{
    if n > 0 {
        lemma_resolved_ops(nodes, turns, descs, found, (n - 1) as nat);
        let p = batch::resolution(turns, descs, found, nodes.len(), (n - 1) as nat);
        let r = batch::resolution(turns, descs, found, nodes.len(), n);
        let d = descs[n - 1];
        if p.error is None && found[n - 1] is Some {
            let numa = found[n - 1]->0;
            law_picks_are_of_the_node(nodes, p.turns, numa);
            let at = p.turns.pick(numa) as int;
            if r.error is None {
                assert forall|nic: int, x: int|
                    0 <= nic < nodes.len() && 0 <= x < r.per_nic[nic].len() implies exists|j: int|
                    0 <= j < n && is_of(#[trigger] r.per_nic[nic][x], #[trigger] descs[j], nic)
                        && found[j] is Some && serves(nodes, found[j]->0, nic) by {
                    if x < p.per_nic[nic].len() {
                        assert(r.per_nic[nic][x] == p.per_nic[nic][x]);
                        let j = choose|j: int|
                            0 <= j < n - 1 && is_of(
                                p.per_nic[nic][x],
                                #[trigger] descs[j],
                                nic,
                            ) && found[j] is Some && serves(nodes, found[j]->0, nic);
                        assert(is_of(r.per_nic[nic][x], descs[j], nic));
                    } else {
                        assert(nic == at);
                        assert(is_of(r.per_nic[nic][x], descs[n - 1], nic));
                    }
                }
            }
        }
    }
}

proof fn lemma_parts_from(ops: Seq<PlannedOp>, rot: usize, n: nat, b: nat, j: int, x: int)
    requires
        0 <= j < batch::nic_work(ops, rot, n, b).len(),
        0 <= x < batch::nic_work(ops, rot, n, b)[j].ops.len(),
    ensures
        ops.contains(batch::nic_work(ops, rot, n, b)[j].ops[x]),
    decreases b,
{
    let before = batch::nic_work(ops, rot, n, (b - 1) as nat);
    if j < before.len() {
        lemma_parts_from(ops, rot, n, (b - 1) as nat, j, x);
    } else {
        lemma_bucket_from(ops, rot, n, b - 1, ops.len(), x);
    }
}

proof fn lemma_bucket_from(ops: Seq<PlannedOp>, rot: usize, n: nat, b: int, upto: nat, x: int)
    requires
        upto <= ops.len(),
        0 <= x < batch::bucket(ops, rot, n, b, upto).len(),
    ensures
        ops.contains(batch::bucket(ops, rot, n, b, upto)[x]),
    decreases upto,
{
    if upto > 0 {
        let before = batch::bucket(ops, rot, n, b, (upto - 1) as nat);
        if x < before.len() {
            lemma_bucket_from(ops, rot, n, b, (upto - 1) as nat, x);
        } else {
            assert(ops[upto - 1] == batch::bucket(ops, rot, n, b, upto)[x]);
        }
    }
}

proof fn lemma_spread_entry(
    per_nic: Seq<Seq<PlannedOp>>,
    pairs: Seq<nat>,
    rots: Seq<usize>,
    n: nat,
    i: int,
)
    requires
        n <= per_nic.len(),
        n <= usize::MAX,
        0 <= i < batch::spread(per_nic, pairs, rots, n).len(),
    ensures
        ({
            let w = batch::spread(per_nic, pairs, rots, n)[i];
            &&& w.nic < n
            &&& w.parts == batch::nic_work(
                per_nic[w.nic as int],
                rots[w.nic as int],
                pairs[w.nic as int],
                pairs[w.nic as int],
            )
        }),
    decreases n,
{
    if n > 0 {
        let before = batch::spread(per_nic, pairs, rots, (n - 1) as nat);
        if i < before.len() {
            lemma_spread_entry(per_nic, pairs, rots, (n - 1) as nat, i);
        }
    }
}

/// Every transfer in the work of a NIC is one that the batch asks for: the same
/// local address, remote address and length, and the remote key of that very
/// NIC. The NIC is on the node of the registered memory, where that node has
/// any.
pub proof fn law_work_is_what_was_asked_for(
    nodes: Seq<NumaNode>,
    v: EngineView,
    k: Seq<u8>,
    addr: Seq<char>,
    descs: Seq<TransferDescView>,
    i: int,
    j: int,
    x: int,
) -> (d: int)
    requires
        nodes.len() == v.nics(),
        0 < nodes.len() <= usize::MAX,
        turns_over(v.turns, nodes),
        v.batch(k, addr, descs).1 is Ok,
        0 <= i < v.batch(k, addr, descs).1->Ok_0.len(),
        0 <= j < v.batch(k, addr, descs).1->Ok_0[i].parts.len(),
        0 <= x < v.batch(k, addr, descs).1->Ok_0[i].parts[j].ops.len(),
    ensures
        ({
            let w = v.batch(k, addr, descs).1->Ok_0[i];
            &&& 0 <= d < descs.len()
            &&& is_of(w.parts[j].ops[x], descs[d], w.nic as int)
            &&& descs[d].region.covers(descs[d].remote, descs[d].len as nat)
            &&& batch::found_entry(v.registered, descs[d].local, descs[d].len) matches Some(e)
                && serves(nodes, e.numa, w.nic as int)
        }),
        turns_over(v.batch(k, addr, descs).0.turns, nodes),
{
    let found = batch::found_nodes(v.registered, descs);
    let r = batch::resolution(v.turns, descs, found, v.nics(), descs.len());
    let conn = v.conns[k];
    let pairs = Seq::new(v.nics(), |i: int| conn.pairs(i));
    let w = v.batch(k, addr, descs).1->Ok_0[i];
    lemma_resolved_ops(nodes, v.turns, descs, found, descs.len());
    lemma_spread_entry(r.per_nic, pairs, conn.rots, v.nics(), i);
    let nic = w.nic as int;
    lemma_parts_from(r.per_nic[nic], conn.rots[nic], pairs[nic], pairs[nic], j, x);
    let op = w.parts[j].ops[x];
    let y = r.per_nic[nic].index_of(op);
    assert(r.per_nic[nic][y] == op);
    let d = choose|d: int|
        0 <= d < descs.len() && is_of(r.per_nic[nic][y], #[trigger] descs[d], nic) && found[d] is Some
            && serves(nodes, found[d]->0, nic);
    if !descs[d].region.covers(descs[d].remote, descs[d].len as nat) {
        batch::law_one_bad_transfer_refuses_the_batch(v.turns, descs, found, v.nics(), d);
    }
    d
}

proof fn lemma_asked_ops(
    nodes: Seq<NumaNode>,
    turns: Turns,
    descs: Seq<TransferDescView>,
    found: Seq<Option<NumaNode>>,
    n: nat,
    d: int,
) -> (r: (int, int))
    requires
        0 < nodes.len() <= usize::MAX,
        turns_over(turns, nodes),
        found.len() == descs.len(),
        n <= descs.len(),
        0 <= d < n,
        batch::resolution(turns, descs, found, nodes.len(), n).error is None,
    ensures
        ({
            let per_nic = batch::resolution(turns, descs, found, nodes.len(), n).per_nic;
            &&& per_nic.len() == nodes.len()
            &&& 0 <= r.0 < nodes.len()
            &&& 0 <= r.1 < per_nic[r.0].len()
            &&& is_of(per_nic[r.0][r.1], descs[d], r.0)
        }),
    decreases n,
{
    lemma_resolved_ops(nodes, turns, descs, found, (n - 1) as nat);
    let p = batch::resolution(turns, descs, found, nodes.len(), (n - 1) as nat);
    let numa = found[n - 1]->0;
    law_picks_are_of_the_node(nodes, p.turns, numa);
    let at = p.turns.pick(numa) as int;
    if d == n - 1 {
        (at, p.per_nic[at].len() as int)
    } else {
        lemma_asked_ops(nodes, turns, descs, found, (n - 1) as nat, d)
    }
}

proof fn lemma_part_with(ops: Seq<PlannedOp>, rot: usize, n: nat, b: nat, op: PlannedOp) -> (r: (
    int,
    int,
))
    requires
        batch::work_ops(batch::nic_work(ops, rot, n, b)).count(op) > 0,
    ensures
        0 <= r.0 < batch::nic_work(ops, rot, n, b).len(),
        0 <= r.1 < batch::nic_work(ops, rot, n, b)[r.0].ops.len(),
        batch::nic_work(ops, rot, n, b)[r.0].ops[r.1] == op,
    decreases b,
{
    broadcast use vstd::seq_lib::group_to_multiset_ensures;

    let now = batch::nic_work(ops, rot, n, b);
    if b == 0 {
        assert(now.len() == 0);
        (0, 0)
    } else {
        let before = batch::nic_work(ops, rot, n, (b - 1) as nat);
        let mine = batch::bucket(ops, rot, n, b - 1, ops.len());
        if mine.len() > 0 {
            assert(now.drop_last() =~= before);
            if mine.to_multiset().count(op) > 0 {
                assert(mine.contains(op));
                (before.len() as int, mine.index_of(op))
            } else {
                lemma_part_with(ops, rot, n, (b - 1) as nat, op)
            }
        } else {
            lemma_part_with(ops, rot, n, (b - 1) as nat, op)
        }
    }
}

/// Every transfer that a batch asks for is in the work of some NIC, where the
/// batch is not refused and its NICs have queue pairs to the peer.
pub proof fn law_what_was_asked_for_is_worked_on(
    nodes: Seq<NumaNode>,
    v: EngineView,
    k: Seq<u8>,
    addr: Seq<char>,
    descs: Seq<TransferDescView>,
    d: int,
) -> (r: (int, int, int))
    requires
        nodes.len() == v.nics(),
        0 < nodes.len() <= usize::MAX,
        turns_over(v.turns, nodes),
        v.carries(k, descs),
        v.batch(k, addr, descs).1 is Ok,
        0 <= d < descs.len(),
    ensures
        ({
            let work = v.batch(k, addr, descs).1->Ok_0;
            &&& 0 <= r.0 < work.len()
            &&& 0 <= r.1 < work[r.0].parts.len()
            &&& 0 <= r.2 < work[r.0].parts[r.1].ops.len()
            &&& is_of(work[r.0].parts[r.1].ops[r.2], descs[d], work[r.0].nic as int)
        }),
{
    broadcast use vstd::seq_lib::group_to_multiset_ensures;

    let found = batch::found_nodes(v.registered, descs);
    let resolved = batch::resolution(v.turns, descs, found, v.nics(), descs.len());
    let conn = v.conns[k];
    let pairs = Seq::new(v.nics(), |i: int| conn.pairs(i));
    let work = v.batch(k, addr, descs).1->Ok_0;
    let (nic, x) = lemma_asked_ops(nodes, v.turns, descs, found, descs.len(), d);
    batch::law_one_entry_per_active_nic(resolved.per_nic, pairs, conn.rots, v.nics());
    assert(resolved.per_nic[nic].len() > 0);
    let i = choose|i: int| 0 <= i < work.len() && (#[trigger] work[i]).nic == nic;
    lemma_spread_entry(resolved.per_nic, pairs, conn.rots, v.nics(), i);
    let op = resolved.per_nic[nic][x];
    assert(resolved.per_nic[nic].contains(op));
    assert(resolved.per_nic[nic].to_multiset().count(op) > 0);
    assert(batch::work_ops(work[i].parts).count(op) > 0);
    let (j, y) = lemma_part_with(
        resolved.per_nic[nic],
        conn.rots[nic],
        pairs[nic],
        pairs[nic],
        op,
    );
    (i, j, y)
}

// ---- queue pairs ----

/// How many transfers of the first `upto` go to a queue pair whose first is
/// number `first`, every `n`th.
pub open spec fn nth_share(upto: nat, first: nat, n: nat) -> nat {
    if upto <= first {
        0
    } else {
        (upto - first - 1) as nat / n + 1
    }
}

proof fn lemma_bucket_len(ops: Seq<PlannedOp>, rot: usize, n: nat, b: int, first: nat, upto: nat)
    requires
        0 <= b < n,
        upto <= ops.len(),
        rot + ops.len() <= usize::MAX,
        first < n,
        (rot + first) % n as int == b,
    ensures
        batch::bucket(ops, rot, n, b, upto).len() == nth_share(upto, first, n),
    decreases upto,
{
    if upto > 0 {
        lemma_bucket_len(ops, rot, n, b, first, (upto - 1) as nat);
        let i = upto - 1;
        let m = n as int;
        assert(batch::pair_of(rot, i as nat, n) == (rot + i) % m);
        let gap = i - first;
        if gap < 0 {
            assert((rot + i) % m != b) by {
                if (rot + i) % m == b {
                    vstd::arithmetic::div_mod::lemma_fundamental_div_mod(rot + i, m);
                    vstd::arithmetic::div_mod::lemma_fundamental_div_mod(rot + first, m);
                    let p = (rot + first) / m - (rot + i) / m;
                    assert(m * p == first - i) by (nonlinear_arith)
                        requires
                            p == (rot + first) / m - (rot + i) / m,
                            rot + i == m * ((rot + i) / m) + b,
                            rot + first == m * ((rot + first) / m) + b,
                    ;
                    assert(false) by (nonlinear_arith)
                        requires
                            m * p == first - i,
                            0 < first - i < m,
                    ;
                }
            }
        } else {
            vstd::arithmetic::div_mod::lemma_fundamental_div_mod(gap, m);
            vstd::arithmetic::div_mod::lemma_add_mod_noop(rot + first, gap, m);
            assert(rot + first + gap == rot + i);
            if gap % m == 0 {
                assert((b + 0) % m == b) by {
                    vstd::arithmetic::div_mod::lemma_small_mod(b as nat, n);
                }
                if gap > 0 {
                    let q = gap / m;
                    assert(gap == m * q);
                    assert((gap - 1) / m == q - 1) by (nonlinear_arith)
                        requires
                            gap == m * q,
                            m > 0,
                            gap > 0,
                    ;
                }
            } else {
                let q = gap / m;
                let r = gap % m;
                assert((rot + i) % m != b) by {
                    if (rot + i) % m == b {
                        assert((b + r) % m == b);
                        if b + r < m {
                            vstd::arithmetic::div_mod::lemma_small_mod((b + r) as nat, n);
                        } else {
                            vstd::arithmetic::div_mod::lemma_mod_add_multiples_vanish(b + r - m, m);
                            vstd::arithmetic::div_mod::lemma_small_mod((b + r - m) as nat, n);
                        }
                    }
                }
                assert((gap - 1) / m == q) by (nonlinear_arith)
                    requires
                        gap == m * q + r,
                        0 < r < m,
                        m > 0,
                ;
            }
        }
    }
}

proof fn lemma_first(rot: usize, n: nat, b: int) -> (first: nat)
    requires
        0 <= b < n,
    ensures
        first < n,
        (rot + first) % n as int == b,
{
    let m = n as int;
    let f = (b - rot) % m;
    vstd::arithmetic::div_mod::lemma_add_mod_noop_right(rot as int, b - rot, m);
    assert(rot + (b - rot) == b);
    vstd::arithmetic::div_mod::lemma_small_mod(b as nat, n);
    f as nat
}

proof fn lemma_share(upto: nat, first: nat, n: nat)
    requires
        first < n,
    ensures
        upto / n <= nth_share(upto, first, n) <= upto / n + 1,
{
    let m = n as int;
    let u = upto as int;
    let f = first as int;
    vstd::arithmetic::div_mod::lemma_fundamental_div_mod(u, m);
    let q = u / m;
    let r = u % m;
    if upto <= first {
        assert(q == 0) by (nonlinear_arith)
            requires
                u == m * q + r,
                0 <= r < m,
                0 <= u < m,
        ;
    } else {
        let g = u - f - 1;
        vstd::arithmetic::div_mod::lemma_fundamental_div_mod(g, m);
        let p = g / m;
        let s = g % m;
        assert(q - 1 <= p <= q) by (nonlinear_arith)
            requires
                u == m * q + r,
                g == m * p + s,
                0 <= r < m,
                0 <= s < m,
                g < u,
                g >= u - m,
        ;
    }
}

/// The queue pairs of a NIC share its transfers evenly: no two carry numbers of
/// them that differ by more than one.
pub proof fn law_pairs_share_evenly(
    ops: Seq<PlannedOp>,
    rot: usize,
    n: nat,
    b: int,
    c: int,
)
    requires
        0 <= b < n,
        0 <= c < n,
        rot + ops.len() <= usize::MAX,
    ensures
        batch::bucket(ops, rot, n, b, ops.len()).len() <= batch::bucket(
            ops,
            rot,
            n,
            c,
            ops.len(),
        ).len() + 1,
{
    let f = lemma_first(rot, n, b);
    let g = lemma_first(rot, n, c);
    lemma_bucket_len(ops, rot, n, b, f, ops.len());
    lemma_bucket_len(ops, rot, n, c, g, ops.len());
    lemma_share(ops.len(), f, n);
    lemma_share(ops.len(), g, n);
}

/// Transfers that follow each other on a NIC go to queue pairs that follow each
/// other, the first behind the last.
pub proof fn law_pairs_take_turns(ops: Seq<PlannedOp>, rot: usize, n: nat, i: nat)
    requires
        n > 0,
        i + 1 < ops.len(),
        rot + ops.len() <= usize::MAX,
    ensures
        ({
            let b = batch::pair_of(rot, i, n);
            let c = batch::pair_of(rot, i + 1, n);
            &&& c == if b + 1 == n {
                0
            } else {
                b + 1
            }
            &&& batch::bucket(ops, rot, n, b, i + 1).len() > 0
            &&& batch::bucket(ops, rot, n, b, i + 1).last() == ops[i as int]
            &&& batch::bucket(ops, rot, n, c, i + 2).last() == ops[i as int + 1]
        }),
{
    let m = n as int;
    let b = batch::pair_of(rot, i, n);
    assert(b == (rot + i) % m);
    assert(batch::pair_of(rot, i + 1, n) == (rot + i + 1) % m);
    lemma_one_on(rot + i, m);
}

proof fn lemma_one_on(a: int, m: int)
    requires
        a >= 0,
        m > 0,
    ensures
        0 <= a % m < m,
        (a + 1) % m == if a % m + 1 == m {
            0
        } else {
            a % m + 1
        },
{
    vstd::arithmetic::div_mod::lemma_fundamental_div_mod(a, m);
    let q = a / m;
    let r = a % m;
    if r + 1 == m {
        assert(a + 1 == m * (q + 1)) by (nonlinear_arith)
            requires
                a == m * q + r,
                r + 1 == m,
        ;
        assert(a + 1 == (q + 1) * m) by (nonlinear_arith)
            requires
                a + 1 == m * (q + 1),
        ;
        vstd::arithmetic::div_mod::lemma_fundamental_div_mod_converse(a + 1, m, q + 1, 0);
    } else {
        assert(a + 1 == q * m + (r + 1)) by (nonlinear_arith)
            requires
                a == m * q + r,
        ;
        vstd::arithmetic::div_mod::lemma_fundamental_div_mod_converse(a + 1, m, q, r + 1);
    }
}

/// A batch starts on every NIC one queue pair behind the batch before it.
pub proof fn law_batches_start_one_pair_on(
    v: EngineView,
    k: Seq<u8>,
    addr: Seq<char>,
    descs: Seq<TransferDescView>,
    nic: int,
    n: nat,
)
    requires
        v.conns.contains_key(k),
        descs.len() > 0,
        0 <= nic < v.conns[k].rots.len(),
        v.conns[k].rots[nic] < usize::MAX,
        n > 0,
    ensures
        ({
            let b = batch::pair_of(v.conns[k].rots[nic], 0, n);
            let c = batch::pair_of(v.batch(k, addr, descs).0.conns[k].rots[nic], 0, n);
            c == if b + 1 == n {
                0
            } else {
                b + 1
            }
        }),
{
    lemma_one_on(v.conns[k].rots[nic] as int, n as int);
}

} // verus!
