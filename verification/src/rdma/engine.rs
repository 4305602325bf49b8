//! The transfer engine: who is connected to whom, which queue pairs wait for a
//! handshake, and what a batch of transfers becomes. Opening devices, making
//! queue pairs and posting work is done outside, and reported here.
use vstd::prelude::*;
use vstd::string::*;

use crate::index::Index;
use crate::rdma::batch;
use crate::rdma::batch::{
    NicWork, NicWorkView, NumaRoundRobin, Registration, Registrations, Turns,
};
use crate::rdma::descriptor;
use crate::rdma::descriptor::{
    copy_handshakes, EndpointView, HandshakeMetadata, NicHandshake, RcEndpoint, RegionDescriptor,
    RegionDescriptorView, TransferDesc, TransferDescView,
};
use crate::rdma::numa::NumaNode;
use crate::rdma::transfer;
use crate::rdma::transfer::{TransferError, TransferErrorView};
use crate::text;
use crate::text::{chars_of, copied, push_decimal, trim};
use crate::types::Key;

verus! {

/// Connection status for a remote peer.
#[derive(Debug)]
pub enum ConnectionStatus {
    /// Already connected; batches can be sent directly.
    Existing,
    /// A handshake to this peer is already in progress.
    Connecting,
    /// Not connected. Exchange this local metadata with remote peer out of
    /// band, then call complete_handshake. On failure, call abort_handshake.
    Prepared(HandshakeMetadata),
}

/// What completing a handshake asks for.
#[derive(Debug)]
pub enum Completion {
    /// A concurrent handshake has won: there is nothing to do.
    Done,
    /// Connect each of these, then report the outcome.
    Connect(Vec<Pairing>),
}

/// A local queue pair and the remote one it is connected to.
#[derive(Clone, Copy, Debug)]
pub struct Pairing {
    pub nic: usize,
    pub qp_num: u32,
    pub remote: RcEndpoint,
}

#[verifier::ext_equal]
pub struct PairingView {
    pub nic: usize,
    pub qp_num: u32,
    pub remote: EndpointView,
}

impl View for Pairing {
    type V = PairingView;

    open spec fn view(&self) -> PairingView {
        PairingView { nic: self.nic, qp_num: self.qp_num, remote: self.remote@ }
    }
}

pub open spec fn pairing_views(s: Seq<Pairing>) -> Seq<PairingView> {
    Seq::new(s.len(), |i: int| s[i]@)
}

// ---- the model ----

/// An established connection: the local endpoints of each NIC, and where the
/// next batch starts on each.
#[verifier::ext_equal]
pub struct ConnView {
    pub local: Seq<Seq<EndpointView>>,
    pub rots: Seq<usize>,
}

impl ConnView {
    /// The number of queue pairs on a NIC.
    pub open spec fn pairs(self, nic: int) -> nat {
        if nic < self.local.len() {
            self.local[nic].len()
        } else {
            0
        }
    }

    /// The same, every NIC one further.
    pub open spec fn rotated(self) -> ConnView {
        ConnView {
            rots: Seq::new(self.rots.len(), |i: int| self.rots[i].wrapping_add(1)),
            ..self
        }
    }
}

#[verifier::ext_equal]
pub struct EngineView {
    pub names: Seq<Seq<char>>,
    pub qps: usize,
    pub turns: Turns,
    /// The seed of the next queue pair's first packet number.
    pub psn: u64,
    /// The queue pairs of each NIC that wait for their handshake.
    pub pending: Seq<Seq<u32>>,
    pub connecting: Set<Seq<u8>>,
    pub conns: Map<Seq<u8>, ConnView>,
    /// The registered memory.
    pub registered: Seq<Registration>,
}

pub open spec fn qpns(endpoints: Seq<EndpointView>) -> Seq<u32> {
    Seq::new(endpoints.len(), |i: int| endpoints[i].2)
}

/// A queue without the first that has a number.
pub open spec fn dropped(q: Seq<u32>, qpn: u32) -> Seq<u32>
    decreases q.len(),
{
    if q.len() == 0 {
        q
    } else if q[0] == qpn {
        q.skip(1)
    } else {
        seq![q[0]] + dropped(q.skip(1), qpn)
    }
}

/// A queue without the first `m` of some endpoints.
pub open spec fn without(q: Seq<u32>, endpoints: Seq<EndpointView>, m: nat) -> Seq<u32>
    decreases m,
{
    if m == 0 {
        q
    } else {
        dropped(without(q, endpoints, (m - 1) as nat), endpoints[m - 1].2)
    }
}

/// How many of some endpoints can be taken from a queue, one after the other.
pub open spec fn takeable(q: Seq<u32>, endpoints: Seq<EndpointView>, m: nat) -> nat
    decreases m,
{
    if m == 0 {
        0
    } else {
        let before = takeable(q, endpoints, (m - 1) as nat);
        if before == m - 1 && without(q, endpoints, (m - 1) as nat).contains(endpoints[m - 1].2) {
            m
        } else {
            before
        }
    }
}

/// Whether all endpoints of a NIC are waiting.
pub open spec fn all_wait(q: Seq<u32>, endpoints: Seq<EndpointView>) -> bool {
    takeable(q, endpoints, endpoints.len()) == endpoints.len()
}

/// The queues after endpoints were taken NIC by NIC, up to the first that does
/// not wait.
pub open spec fn taken(pending: Seq<Seq<u32>>, local: Seq<Seq<EndpointView>>, n: nat) -> (Seq<
    Seq<u32>,
>, bool)
    decreases n,
{
    if n == 0 {
        (pending, true)
    } else {
        let (before, ok) = taken(pending, local, (n - 1) as nat);
        if !ok {
            (before, false)
        } else {
            let q = before[n - 1];
            let eps = local[n - 1];
            (
                before.update(n - 1, without(q, eps, takeable(q, eps, eps.len()))),
                all_wait(q, eps),
            )
        }
    }
}

/// Each local queue pair of a NIC with the remote one at its place.
pub open spec fn nic_pairings(
    nic: int,
    local: Seq<EndpointView>,
    remote: Seq<EndpointView>,
    m: nat,
) -> Seq<PairingView>
    decreases m,
{
    if m == 0 {
        Seq::empty()
    } else {
        nic_pairings(nic, local, remote, (m - 1) as nat).push(
            PairingView { nic: nic as usize, qp_num: local[m - 1].2, remote: remote[m - 1] },
        )
    }
}

pub open spec fn pairings(
    local: Seq<Seq<EndpointView>>,
    remote: Seq<Seq<EndpointView>>,
    n: nat,
) -> Seq<PairingView>
    decreases n,
{
    if n == 0 {
        Seq::empty()
    } else {
        pairings(local, remote, (n - 1) as nat) + nic_pairings(
            n - 1,
            local[n - 1],
            remote[n - 1],
            local[n - 1].len(),
        )
    }
}

/// The first NIC, from `i` on, for which the peer has another number of queue
/// pairs.
pub open spec fn qps_refusal(qps: usize, remote: Seq<Seq<EndpointView>>, i: nat) -> Option<
    TransferErrorView,
>
    decreases remote.len() - i,
{
    if i >= remote.len() {
        None
    } else if remote[i as int].len() != qps {
        Some(
            TransferErrorView::Backend(
                "remote qps_per_peer mismatch on nic="@ + text::decimal(i) + ": local="@
                    + text::decimal(qps as nat) + ", remote="@ + text::decimal(
                    remote[i as int].len(),
                ),
            ),
        )
    } else {
        qps_refusal(qps, remote, i + 1)
    }
}

/// The number of queue pairs of a connection.
pub open spec fn pairs_of(local: Seq<Seq<EndpointView>>) -> nat
    decreases local.len(),
{
    if local.len() == 0 {
        0
    } else {
        pairs_of(local.drop_last()) + local.last().len()
    }
}

/// The number of queue pairs of all connections.
pub open spec fn total_pairs(conns: Map<Seq<u8>, ConnView>) -> nat
    decreases conns.dom().len(),
    when conns.dom().finite()
{
    if conns.dom().len() == 0 {
        0
    } else {
        let k = conns.dom().choose();
        pairs_of(conns[k].local) + total_pairs(conns.remove(k))
    }
}

/// It does not matter which connection is counted first.
pub proof fn lemma_total_pairs(conns: Map<Seq<u8>, ConnView>, k: Seq<u8>)
    requires
        conns.dom().finite(),
        conns.contains_key(k),
    ensures
        total_pairs(conns) == pairs_of(conns[k].local) + total_pairs(conns.remove(k)),
    decreases conns.dom().len(),
{
    let c = conns.dom().choose();
    assert(conns.dom().contains(k));
    if c != k {
        lemma_total_pairs(conns.remove(c), k);
        lemma_total_pairs(conns.remove(k), c);
        assert(conns.remove(c).remove(k) =~= conns.remove(k).remove(c));
    }
}

impl EngineView {
    pub open spec fn nics(self) -> nat {
        self.names.len()
    }

    pub open spec fn valid(self) -> bool {
        &&& self.qps > 0
        &&& self.turns.ok(self.nics())
        &&& self.pending.len() == self.nics()
        &&& batch::one_per_base(self.registered)
        &&& forall|k: Seq<u8>| #[trigger]
            self.conns.contains_key(k) ==> self.conns[k].rots.len() == self.nics()
                && self.conns[k].local.len() <= self.nics()
    }

    /// Whether local endpoints are of this engine: no more NICs, and no more
    /// queue pairs on one, than it has.
    pub open spec fn own(self, local: Seq<Seq<EndpointView>>) -> bool {
        &&& local.len() <= self.nics()
        &&& forall|i: int| 0 <= i < local.len() ==> (#[trigger] local[i]).len() <= self.qps
    }

    /// Whether a peer has as many NICs, and queue pairs on each, as this engine.
    pub open spec fn matches(self, remote: Seq<Seq<EndpointView>>) -> bool {
        remote.len() == self.nics() && qps_refusal(self.qps, remote, 0) is None
    }

    /// A handshake has begun.
    pub open spec fn begun(self, k: Seq<u8>) -> EngineView {
        EngineView { connecting: self.connecting.insert(k), ..self }
    }

    /// A handshake has ended.
    pub open spec fn ended(self, k: Seq<u8>) -> EngineView {
        EngineView { connecting: self.connecting.remove(k), ..self }
    }

    /// New queue pairs wait for their handshake.
    pub open spec fn waiting(self, local: Seq<Seq<EndpointView>>) -> EngineView {
        EngineView {
            pending: Seq::new(
                self.pending.len(),
                |i: int|
                    if i < local.len() {
                        self.pending[i] + qpns(local[i])
                    } else {
                        self.pending[i]
                    },
            ),
            ..self
        }
    }

    /// Queue pairs wait no longer.
    pub open spec fn released(self, local: Seq<Seq<EndpointView>>) -> EngineView {
        EngineView {
            pending: Seq::new(
                self.pending.len(),
                |i: int|
                    if i < local.len() {
                        without(self.pending[i], local[i], local[i].len())
                    } else {
                        self.pending[i]
                    },
            ),
            ..self
        }
    }

    /// A connection stands.
    pub open spec fn joined(self, k: Seq<u8>, local: Seq<Seq<EndpointView>>) -> EngineView {
        EngineView {
            conns: self.conns.insert(
                k,
                ConnView { local, rots: Seq::new(self.nics(), |i: int| 0usize) },
            ),
            ..self.ended(k)
        }
    }

    /// Memory is registered no more.
    pub open spec fn unregistered(self, base: u64) -> EngineView {
        EngineView { registered: batch::without_base(self.registered, base), ..self }
    }

    /// A connection is gone.
    pub open spec fn parted(self, k: Seq<u8>) -> EngineView {
        EngineView { conns: self.conns.remove(k), ..self }
    }

    /// Whether every NIC that carries a transfer of a batch has a queue pair to the
    /// peer, where the batch is not refused.
    pub open spec fn carries(
        self,
        k: Seq<u8>,
        descs: Seq<TransferDescView>,
    ) -> bool {
        let found = batch::found_nodes(self.registered, descs);
        let resolved = batch::resolution(self.turns, descs, found, self.nics(), descs.len());
        descs.len() > 0 && self.conns.contains_key(k) && resolved.error is None
            ==> batch::carried(
            resolved.per_nic,
            Seq::new(self.nics(), |i: int| self.conns[k].pairs(i)),
        )
    }

    /// A batch over a connection: the work, and the engine after it.
    pub open spec fn batch(
        self,
        k: Seq<u8>,
        addr: Seq<char>,
        descs: Seq<TransferDescView>,
    ) -> (EngineView, Result<Seq<NicWorkView>, TransferErrorView>) {
        if descs.len() == 0 {
            (self, Ok(Seq::empty()))
        } else if !self.conns.contains_key(k) {
            (self, Err(TransferErrorView::Backend("no connection for remote addr "@ + addr)))
        } else {
            let conn = self.conns[k];
            let found = batch::found_nodes(self.registered, descs);
            let resolved = batch::resolution(self.turns, descs, found, self.nics(), descs.len());
            (
                EngineView {
                    turns: resolved.turns,
                    conns: self.conns.insert(k, conn.rotated()),
                    ..self
                },
                match resolved.error {
                    Some(e) => Err(e),
                    None => Ok(
                        batch::spread(
                            resolved.per_nic,
                            Seq::new(self.nics(), |i: int| conn.pairs(i)),
                            conn.rots,
                            self.nics(),
                        ),
                    ),
                },
            )
        }
    }
}

// ---- queues ----

proof fn lemma_dropped_at(q: Seq<u32>, qpn: u32, i: int)
    requires
        0 <= i < q.len(),
        q[i] == qpn,
        forall|j: int| 0 <= j < i ==> q[j] != qpn,
    ensures
        dropped(q, qpn) == q.remove(i),
    decreases q.len(),
{
    if i == 0 {
        assert(q.skip(1) =~= q.remove(0));
    } else {
        let t = q.skip(1);
        assert forall|j: int| 0 <= j < i - 1 implies t[j] != qpn by {
            assert(q[j + 1] != qpn);
        }
        lemma_dropped_at(t, qpn, i - 1);
        assert(seq![q[0]] + t.remove(i - 1) =~= q.remove(i));
    }
}

proof fn lemma_dropped_absent(q: Seq<u32>, qpn: u32)
    requires
        !q.contains(qpn),
    ensures
        dropped(q, qpn) == q,
    decreases q.len(),
{
    if q.len() > 0 {
        let t = q.skip(1);
        assert(q[0] != qpn);
        assert forall|j: int| 0 <= j < t.len() implies t[j] != qpn by {
            assert(q[j + 1] != qpn);
        }
        lemma_dropped_absent(t, qpn);
        assert(seq![q[0]] + t =~= q);
    }
}

/// Take the first that has a number out of a queue.
fn remove_pending_by_qpn(q: &mut Vec<u32>, qpn: u32) -> (r: bool)
    ensures
        r == old(q)@.contains(qpn),
        final(q)@ == dropped(old(q)@, qpn),
{
    let n = q.len();
    for i in 0..n
        invariant
            n == q@.len(),
            q@ == old(q)@,
            forall|j: int| 0 <= j < i ==> q@[j] != qpn,
    {
        if q[i] == qpn {
            proof {
                lemma_dropped_at(q@, qpn, i as int);
            }
            q.remove(i);
            return true;
        }
    }
    proof {
        lemma_dropped_absent(q@, qpn);
    }
    false
}

/// Take endpoints out of a queue, those that are not there passed over.
fn drop_endpoints(q: &mut Vec<u32>, nic: &NicHandshake)
    ensures
        final(q)@ == without(old(q)@, nic@, nic@.len()),
{
    for m in 0..nic.endpoints.len()
        invariant
            q@ == without(old(q)@, nic@, m as nat),
    {
        assert(nic@[m as int] == nic.endpoints@[m as int]@);
        remove_pending_by_qpn(q, nic.endpoints[m].qp_num);
    }
}

proof fn lemma_takeable_stops(q: Seq<u32>, endpoints: Seq<EndpointView>, m: nat, n: nat)
    requires
        m <= n,
        takeable(q, endpoints, m) < m,
    ensures
        takeable(q, endpoints, n) == takeable(q, endpoints, m),
    decreases n,
{
    if m < n {
        lemma_takeable_stops(q, endpoints, m, (n - 1) as nat);
    }
}

/// Take endpoints out of a queue, up to the first that is not there.
fn take_endpoints(q: &mut Vec<u32>, nic: &NicHandshake) -> (r: bool)
    ensures
        r == all_wait(old(q)@, nic@),
        final(q)@ == without(old(q)@, nic@, takeable(old(q)@, nic@, nic@.len())),
{
    for m in 0..nic.endpoints.len()
        invariant
            q@ == without(old(q)@, nic@, m as nat),
            takeable(old(q)@, nic@, m as nat) == m,
    {
        assert(nic@[m as int] == nic.endpoints@[m as int]@);
        let ghost before = q@;
        if !remove_pending_by_qpn(q, nic.endpoints[m].qp_num) {
            proof {
                lemma_dropped_absent(before, nic.endpoints@[m as int].qp_num);
                lemma_takeable_stops(old(q)@, nic@, (m + 1) as nat, nic@.len());
            }
            return false;
        }
    }
    true
}

proof fn lemma_taken_stops(
    pending: Seq<Seq<u32>>,
    local: Seq<Seq<EndpointView>>,
    m: nat,
    n: nat,
)
    requires
        m <= n,
        !taken(pending, local, m).1,
    ensures
        taken(pending, local, n) == taken(pending, local, m),
    decreases n,
{
    if m < n {
        lemma_taken_stops(pending, local, m, (n - 1) as nat);
    }
}

proof fn lemma_pairs_take(local: Seq<Seq<EndpointView>>, n: int)
    requires
        0 <= n < local.len(),
    ensures
        pairs_of(local.take(n + 1)) == pairs_of(local.take(n)) + local[n].len(),
        pairs_of(local.take(n + 1)) <= pairs_of(local),
    decreases local.len() - n,
{
    assert(local.take(n + 1).drop_last() =~= local.take(n));
    if n + 1 < local.len() {
        lemma_pairs_take(local, n + 1);
    } else {
        assert(local.take(n + 1) =~= local);
    }
}

/// Each local queue pair with the remote one at its place.
fn pair_up(local: &HandshakeMetadata, remote: &HandshakeMetadata) -> (r: Vec<Pairing>)
    requires
        local@.len() <= remote@.len(),
        forall|i: int| 0 <= i < local@.len() ==> (#[trigger] local@[i]).len() <= remote@[i].len(),
    ensures
        pairing_views(r@) == pairings(local@, remote@, local@.len()),
{
    let mut out: Vec<Pairing> = Vec::new();
    assert(pairing_views(out@) =~= Seq::empty());
    for nic in 0..local.nics.len()
        invariant
            local@.len() <= remote@.len(),
            forall|i: int|
                0 <= i < local@.len() ==> (#[trigger] local@[i]).len() <= remote@[i].len(),
            pairing_views(out@) == pairings(local@, remote@, nic as nat),
    {
        let ours = &local.nics[nic];
        let theirs = &remote.nics[nic];
        assert(local@[nic as int] == ours@);
        assert(remote@[nic as int] == theirs@);
        let ghost before = pairing_views(out@);
        assert(before =~= before + nic_pairings(nic as int, ours@, theirs@, 0));
        for m in 0..ours.endpoints.len()
            invariant
                ours@.len() <= theirs@.len(),
                pairing_views(out@) == before + nic_pairings(
                    nic as int,
                    ours@,
                    theirs@,
                    m as nat,
                ),
        {
            assert(ours@[m as int] == ours.endpoints@[m as int]@);
            assert(theirs@[m as int] == theirs.endpoints@[m as int]@);
            let ghost sofar = pairing_views(out@);
            let p = Pairing {
                nic,
                qp_num: ours.endpoints[m].qp_num,
                remote: theirs.endpoints[m],
            };
            out.push(p);
            assert(pairing_views(out@) =~= sofar.push(p@));
            assert(pairing_views(out@) =~= before + nic_pairings(
                nic as int,
                ours@,
                theirs@,
                (m + 1) as nat,
            ));
        }
    }
    out
}

// ---- the engine ----

struct Conn {
    local: Vec<NicHandshake>,
    rots: Vec<usize>,
}

impl View for Conn {
    type V = ConnView;

    closed spec fn view(&self) -> ConnView {
        ConnView { local: descriptor::handshake_views(self.local@), rots: self.rots@ }
    }
}

/// Connections to peers over the NICs of this machine.
pub struct TransferEngine {
    nic_names: Vec<String>,
    qps_per_peer: usize,
    numa_rr: NumaRoundRobin,
    psn_counter: u64,
    pending: Vec<Vec<u32>>,
    connecting: Index<()>,
    conns: Index<Conn>,
    registered: Registrations,
}

pub open spec fn name_views(names: Seq<String>) -> Seq<Seq<char>> {
    Seq::new(names.len(), |i: int| names[i]@)
}

spec fn queue_views(pending: Seq<Vec<u32>>) -> Seq<Seq<u32>> {
    Seq::new(pending.len(), |i: int| pending[i]@)
}

spec fn conn_views(conns: Map<Seq<u8>, Conn>) -> Map<Seq<u8>, ConnView> {
    conns.map_values(|c: Conn| c@)
}

impl View for TransferEngine {
    type V = EngineView;

    closed spec fn view(&self) -> EngineView {
        EngineView {
            names: name_views(self.nic_names@),
            qps: self.qps_per_peer,
            turns: self.numa_rr@,
            psn: self.psn_counter,
            pending: queue_views(self.pending@),
            connecting: self.connecting@.dom(),
            conns: conn_views(self.conns@),
            registered: self.registered@,
        }
    }
}

pub open spec fn addr_key(addr: Seq<char>) -> Seq<u8> {
    vstd::utf8::encode_utf8(addr)
}

pub open spec fn opened_views(opened: Seq<Result<NumaNode, TransferError>>) -> Seq<
    Result<NumaNode, TransferErrorView>,
> {
    Seq::new(opened.len(), |i: int| transfer::transfer_view(opened[i]))
}

/// The first NIC, from `i` on, that has no name or could not be opened.
pub open spec fn open_refusal(
    names: Seq<Seq<char>>,
    opened: Seq<Result<NumaNode, TransferErrorView>>,
    i: nat,
) -> Option<TransferErrorView>
    decreases names.len() - i,
{
    if i >= names.len() {
        None
    } else if text::trimmed(names[i as int]).len() == 0 {
        Some(TransferErrorView::InvalidArgument("nic_name is empty"@))
    } else {
        match opened[i as int] {
            Err(e) => Some(e),
            Ok(_) => open_refusal(names, opened, i + 1),
        }
    }
}

/// Whether it is known of every NIC up to the first refusal, from `i` on, how
/// its opening went.
pub open spec fn known_opened(
    names: Seq<Seq<char>>,
    opened: Seq<Result<NumaNode, TransferErrorView>>,
    i: nat,
) -> bool
    decreases names.len() - i,
{
    i >= names.len() || text::trimmed(names[i as int]).len() == 0 || (i < opened.len() && (
    opened[i as int] is Err || known_opened(names, opened, i + 1)))
}

/// Why an engine cannot be made.
pub open spec fn new_refusal(
    names: Seq<Seq<char>>,
    qps: usize,
    opened: Seq<Result<NumaNode, TransferErrorView>>,
) -> Option<TransferErrorView> {
    if names.len() == 0 {
        Some(TransferErrorView::InvalidArgument("nic_names is empty"@))
    } else if qps == 0 {
        Some(TransferErrorView::InvalidArgument("qps_per_peer must be > 0"@))
    } else {
        open_refusal(names, opened, 0)
    }
}

impl TransferEngine {
    pub closed spec fn valid(&self) -> bool {
        &&& self@.valid()
        &&& self.connecting.wf()
        &&& self.conns.wf()
    }

    /// What every valid engine keeps.
    pub proof fn lemma_valid(&self)
        requires
            self.valid(),
        ensures
            self@.valid(),
            self@.conns.dom().finite(),
            self@.nics() <= usize::MAX,
    {
        self.conns.lemma_keys();
        assert(self.nic_names.len() == self@.nics());
        assert(self@.conns.dom() =~= self.conns@.dom());
    }

    /// An engine over NICs, given how the opening of each went (up to the first
    /// that failed).
    pub fn new(
        nic_names: Vec<String>,
        qps_per_peer: usize,
        opened: Vec<Result<NumaNode, TransferError>>,
    ) -> (r: Result<Self, TransferError>)
        requires
            qps_per_peer == 0 || known_opened(name_views(nic_names@), opened_views(opened@), 0),
        ensures
            match new_refusal(name_views(nic_names@), qps_per_peer, opened_views(opened@)) {
                Some(e) => r matches Err(x) && x@ == e,
                None => r matches Ok(engine) && engine.valid() && engine@ == (EngineView {
                    names: name_views(nic_names@),
                    qps: qps_per_peer,
                    turns: Turns::fresh(
                        Seq::new(nic_names@.len(), |i: int| opened@[i]->Ok_0),
                    ),
                    psn: 1,
                    pending: Seq::new(nic_names@.len(), |i: int| Seq::empty()),
                    connecting: Set::empty(),
                    conns: Map::empty(),
                    registered: Seq::empty(),
                }),
            },
    {
        if nic_names.len() == 0 {
            return Err(TransferError::InvalidArgument("nic_names is empty"));
        }
        if qps_per_peer == 0 {
            return Err(TransferError::InvalidArgument("qps_per_peer must be > 0"));
        }
        let ghost names = name_views(nic_names@);
        let ghost views = opened_views(opened@);
        let ghost opened0 = opened@;
        let mut left = opened;
        let mut nodes: Vec<NumaNode> = Vec::new();
        let mut pending: Vec<Vec<u32>> = Vec::new();
        for i in 0..nic_names.len()
            invariant
                names == name_views(nic_names@),
                views == opened_views(opened0),
                opened0 == opened@,
                left@ == opened0,
                qps_per_peer > 0,
                known_opened(names, views, i as nat),
                open_refusal(names, views, 0) == open_refusal(names, views, i as nat),
                nodes@.len() == i,
                forall|j: int| 0 <= j < i ==> #[trigger] nodes@[j] == opened0[j]->Ok_0,
                pending@.len() == i,
                forall|j: int| 0 <= j < i ==> (#[trigger] pending@[j])@.len() == 0,
        {
            assert(names[i as int] == nic_names@[i as int]@);
            let name = chars_of(nic_names[i].as_str());
            if trim(name.as_slice()).len() == 0 {
                return Err(TransferError::InvalidArgument("nic_name is empty"));
            }
            assert(views[i as int] == transfer::transfer_view(opened0[i as int]));
            match &left[i] {
                Ok(node) => {
                    nodes.push(*node);
                    pending.push(Vec::new());
                },
                Err(_) => {
                    if let Err(e) = left.remove(i) {
                        return Err(e);
                    }
                },
            }
        }
        let numa_rr = NumaRoundRobin::from_nodes(&nodes);
        let r = TransferEngine {
            nic_names,
            qps_per_peer,
            numa_rr,
            psn_counter: 1,
            pending,
            connecting: Index::new(),
            conns: Index::new(),
            registered: Registrations::new(),
        };
        proof {
            assert(nodes@ =~= Seq::new(nic_names@.len(), |i: int| opened0[i]->Ok_0));
            assert forall|j: int| 0 <= j < r.pending@.len() implies #[trigger] r@.pending[j]
                == Seq::<u32>::empty() by {
                assert(r.pending@[j]@.len() == 0);
                assert(r@.pending[j] =~= Seq::<u32>::empty());
            }
            assert(r@.pending =~= Seq::new(nic_names@.len(), |i: int| Seq::empty()));
            assert(r@.connecting =~= Set::empty());
            assert(r@.conns =~= Map::empty());
            assert(r@.registered =~= Seq::empty());
        }
        Ok(r)
    }

    /// Number of NICs this engine drives (= `rkeys.len()` of its descriptors).
    pub fn num_nics(&self) -> (r: usize)
        ensures
            r == self@.nics(),
    {
        self.nic_names.len()
    }

    pub fn qps_per_peer(&self) -> (r: usize)
        ensures
            r == self@.qps,
    {
        self.qps_per_peer
    }

    /// Check if already connected to the remote peer, or a handshake is in
    /// progress. If neither, one has begun: queue pairs are to be made, and
    /// reported by `prepared`.
    pub fn get_or_prepare(&mut self, remote_addr: &str) -> (r: Option<ConnectionStatus>)
        requires
            old(self).valid(),
        ensures
            final(self).valid(),
            ({
                let k = addr_key(remote_addr@);
                if old(self)@.conns.contains_key(k) {
                    r matches Some(ConnectionStatus::Existing) && final(self)@ == old(self)@
                } else if old(self)@.connecting.contains(k) {
                    r matches Some(ConnectionStatus::Connecting) && final(self)@ == old(self)@
                } else {
                    r is None && final(self)@ == old(self)@.begun(k)
                }
            }),
    {
        let key = Key::from(remote_addr);
        if self.conns.find(&key).is_some() {
            return Some(ConnectionStatus::Existing);
        }
        if self.connecting.find(&key).is_some() {
            return Some(ConnectionStatus::Connecting);
        }
        self.connecting.insert(key, ());
        assert(self@ =~= old(self)@.begun(addr_key(remote_addr@)));
        None
    }

    /// The seed for the next queue pair's first packet number.
    pub fn next_psn(&mut self) -> (r: u64)
        requires
            old(self).valid(),
        ensures
            final(self).valid(),
            r == old(self)@.psn,
            final(self)@ == (EngineView { psn: old(self)@.psn.wrapping_add(1), ..old(self)@ }),
    {
        let psn: u64 = self.psn_counter;
        self.psn_counter = psn.wrapping_add(1);
        psn
    }

    /// The error for a queue pair that could not be made.
    pub fn creation_failed(&self, nic: usize, qp_idx: usize, error: &str) -> (r: TransferError)
        requires
            nic < self@.nics(),
        ensures
            r@ == TransferErrorView::Backend(
                "QP creation failed on nic="@ + self@.names[nic as int] + " qp_idx="@
                    + text::decimal(qp_idx as nat) + ": "@ + error@,
            ),
    {
        let mut m = String::new();
        m.append("QP creation failed on nic=");
        m.append(self.nic_names[nic].as_str());
        m.append(" qp_idx=");
        push_decimal(&mut m, qp_idx as u64);
        m.append(": ");
        m.append(error);
        assert(m@ =~= "QP creation failed on nic="@ + self@.names[nic as int] + " qp_idx="@
            + text::decimal(qp_idx as nat) + ": "@ + error@);
        TransferError::Backend(m)
    }

    /// Take the queue pairs that were made for a handshake, or note that it has
    /// failed.
    pub fn prepared(
        &mut self,
        remote_addr: &str,
        created: Result<Vec<NicHandshake>, TransferError>,
    ) -> (r: Result<ConnectionStatus, TransferError>)
        requires
            old(self).valid(),
            created matches Ok(nics) ==> nics@.len() == old(self)@.nics(),
        ensures
            final(self).valid(),
            match created {
                Ok(nics) => {
                    &&& r matches Ok(ConnectionStatus::Prepared(meta))
                        && meta@ == descriptor::handshake_views(nics@)
                    &&& final(self)@ == old(self)@.waiting(descriptor::handshake_views(nics@))
                },
                Err(e) => {
                    &&& r matches Err(x) && x@ == e@
                    &&& final(self)@ == old(self)@.ended(addr_key(remote_addr@))
                },
            },
    {
        match created {
            Ok(nics) => {
                let ghost v0 = self@;
                let ghost want = v0.waiting(descriptor::handshake_views(nics@));
                for i in 0..nics.len()
                    invariant
                        nics@.len() == v0.nics(),
                        v0.valid(),
                        want == v0.waiting(descriptor::handshake_views(nics@)),
                        self@ == (EngineView { pending: self@.pending, ..v0 }),
                        self.valid(),
                        self@.pending.len() == v0.pending.len(),
                        forall|j: int|
                            0 <= j < self@.pending.len() ==> #[trigger] self@.pending[j] == if j
                                < i {
                                want.pending[j]
                            } else {
                                v0.pending[j]
                            },
                {
                    let nic = &nics[i];
                    let ghost before = self@.pending;
                    let mut q: Vec<u32> = Vec::new();
                    assert(self@.pending[i as int] == self.pending@[i as int]@);
                    core::mem::swap(&mut self.pending[i], &mut q);
                    let ghost q0 = q@;
                    for m in 0..nic.endpoints.len()
                        invariant
                            q@ == q0 + qpns(nic@).take(m as int),
                    {
                        assert(nic@[m as int] == nic.endpoints@[m as int]@);
                        q.push(nic.endpoints[m].qp_num);
                        assert(q@ =~= q0 + qpns(nic@).take(m + 1));
                    }
                    assert(qpns(nic@).take(nic@.len() as int) =~= qpns(nic@));
                    self.pending.set(i, q);
                    assert(self@.pending =~= before.update(i as int, q0 + qpns(nic@)));
                    assert(descriptor::handshake_views(nics@)[i as int] == nic@);
                }
                assert(self@.pending =~= want.pending);
                assert(self@ =~= want);
                Ok(ConnectionStatus::Prepared(HandshakeMetadata { nics }))
            },
            Err(e) => {
                self.end(remote_addr);
                Err(e)
            },
        }
    }

    fn end(&mut self, remote_addr: &str)
        requires
            old(self).valid(),
        ensures
            final(self).valid(),
            final(self)@ == old(self)@.ended(addr_key(remote_addr@)),
    {
        let key = Key::from(remote_addr);
        if let Some(i) = self.connecting.find(&key) {
            self.connecting.remove_at(i);
        }
        assert(self@ =~= old(self)@.ended(addr_key(remote_addr@)));
    }

    /// Drop pending queue pairs, those that do not wait passed over.
    fn release(&mut self, local: &Vec<NicHandshake>)
        requires
            old(self).valid(),
            local@.len() <= old(self)@.nics(),
        ensures
            final(self).valid(),
            final(self)@ == old(self)@.released(descriptor::handshake_views(local@)),
    {
        let ghost v0 = self@;
        let ghost views = descriptor::handshake_views(local@);
        let ghost want = v0.released(views);
        for i in 0..local.len()
            invariant
                v0.valid(),
                local@.len() <= v0.nics(),
                views == descriptor::handshake_views(local@),
                want == v0.released(views),
                self@ == (EngineView { pending: self@.pending, ..v0 }),
                self.valid(),
                self@.pending.len() == v0.pending.len(),
                forall|j: int|
                    0 <= j < self@.pending.len() ==> #[trigger] self@.pending[j] == if j < i {
                        want.pending[j]
                    } else {
                        v0.pending[j]
                    },
        {
            let ghost before = self@.pending;
            assert(before[i as int] == self.pending@[i as int]@);
            assert(views[i as int] == local@[i as int]@);
            drop_endpoints(&mut self.pending[i], &local[i]);
            assert(self@.pending =~= before.update(i as int, want.pending[i as int]));
        }
        assert(self@.pending =~= want.pending);
        assert(self@ =~= want);
    }

    /// Take pending queue pairs, up to the first that does not wait.
    fn take(&mut self, local: &Vec<NicHandshake>) -> (r: bool)
        requires
            old(self).valid(),
            local@.len() <= old(self)@.nics(),
        ensures
            final(self).valid(),
            ({
                let t = taken(
                    old(self)@.pending,
                    descriptor::handshake_views(local@),
                    local@.len(),
                );
                &&& final(self)@ == (EngineView { pending: t.0, ..old(self)@ })
                &&& r == t.1
            }),
    {
        let ghost v0 = self@;
        let ghost views = descriptor::handshake_views(local@);
        for i in 0..local.len()
            invariant
                v0 == old(self)@,
                v0.valid(),
                local@.len() <= v0.nics(),
                views == descriptor::handshake_views(local@),
                self@ == (EngineView { pending: self@.pending, ..v0 }),
                self.valid(),
                taken(v0.pending, views, i as nat) == (self@.pending, true),
                self@.pending.len() == v0.pending.len(),
        {
            let ghost before = self@.pending;
            assert(before[i as int] == self.pending@[i as int]@);
            assert(views[i as int] == local@[i as int]@);
            let ok = take_endpoints(&mut self.pending[i], &local[i]);
            assert(self@.pending =~= taken(v0.pending, views, (i + 1) as nat).0);
            if !ok {
                proof {
                    lemma_taken_stops(v0.pending, views, (i + 1) as nat, local@.len());
                }
                return false;
            }
        }
        true
    }

    /// Whether a peer has as many NICs, and queue pairs on each, as this engine: a
    /// handshake with another is refused.
    pub fn accepts(&self, remote_meta: &HandshakeMetadata) -> (r: bool)
        requires
            self.valid(),
        ensures
            r == self@.matches(remote_meta@),
    {
        self.check_peer(remote_meta).is_ok()
    }

    /// What is wrong with the metadata of a peer.
    fn check_peer(&self, remote_meta: &HandshakeMetadata) -> (r: Result<(), TransferError>)
        requires
            self.valid(),
        ensures
            r is Ok <==> self@.matches(remote_meta@),
            r is Ok ==> forall|i: int|
                0 <= i < remote_meta@.len() ==> (#[trigger] remote_meta@[i]).len() == self@.qps,
            remote_meta@.len() != self@.nics() ==> (r matches Err(x) && x@
                == TransferErrorView::InvalidArgument(
                "remote NIC count mismatch in handshake"@,
            )),
            remote_meta@.len() == self@.nics() && qps_refusal(self@.qps, remote_meta@, 0) is Some
                ==> (r matches Err(x) && x@ == qps_refusal(self@.qps, remote_meta@, 0)->0),
    {
        if remote_meta.nics.len() != self.nic_names.len() {
            return Err(TransferError::InvalidArgument("remote NIC count mismatch in handshake"));
        }
        for i in 0..remote_meta.nics.len()
            invariant
                self.valid(),
                qps_refusal(self@.qps, remote_meta@, 0) == qps_refusal(
                    self@.qps,
                    remote_meta@,
                    i as nat,
                ),
                remote_meta@.len() == self@.nics(),
                forall|j: int| 0 <= j < i ==> (#[trigger] remote_meta@[j]).len() == self@.qps,
        {
            let theirs: usize = remote_meta.nics[i].endpoints.len();
            assert(remote_meta@[i as int].len() == theirs);
            if theirs != self.qps_per_peer {
                let mut m = String::new();
                m.append("remote qps_per_peer mismatch on nic=");
                push_decimal(&mut m, i as u64);
                m.append(": local=");
                push_decimal(&mut m, self.qps_per_peer as u64);
                m.append(", remote=");
                push_decimal(&mut m, theirs as u64);
                assert(m@ =~= "remote qps_per_peer mismatch on nic="@ + text::decimal(i as nat)
                    + ": local="@ + text::decimal(self@.qps as nat) + ", remote="@ + text::decimal(
                    theirs as nat,
                ));
                return Err(TransferError::Backend(m));
            }
        }
        Ok(())
    }

    /// Complete a connection after exchanging handshake metadata with the peer:
    /// the pending queue pairs are found by number (handshakes with other peers
    /// may have reordered the queue) and paired, in order, with the peer's. What
    /// comes of connecting them is reported by `connected`.
    pub fn complete_handshake(
        &mut self,
        remote_addr: &str,
        local_meta: &HandshakeMetadata,
        remote_meta: &HandshakeMetadata,
    ) -> (r: Result<Completion, TransferError>)
        requires
            old(self).valid(),
            old(self)@.matches(remote_meta@) ==> local_meta@.len() <= old(self)@.nics(),
            old(self)@.matches(remote_meta@) && !old(self)@.conns.contains_key(
                addr_key(remote_addr@),
            ) && taken(old(self)@.pending, local_meta@, local_meta@.len()).1 ==> old(self)@.own(
                local_meta@,
            ),
        ensures
            final(self).valid(),
            ({
                let k = addr_key(remote_addr@);
                let v = old(self)@;
                let t = taken(v.pending, local_meta@, local_meta@.len());
                if remote_meta@.len() != v.nics() {
                    &&& final(self)@ == v
                    &&& r matches Err(x) && x@ == TransferErrorView::InvalidArgument(
                        "remote NIC count mismatch in handshake"@,
                    )
                } else if qps_refusal(v.qps, remote_meta@, 0) is Some {
                    &&& final(self)@ == v
                    &&& r matches Err(x) && x@ == qps_refusal(v.qps, remote_meta@, 0)->0
                } else if v.conns.contains_key(k) {
                    &&& final(self)@ == v.released(local_meta@).ended(k)
                    &&& r matches Ok(Completion::Done)
                } else if !t.1 {
                    &&& final(self)@ == (EngineView { pending: t.0, ..v })
                    &&& r matches Err(x) && x@ == TransferErrorView::Backend(
                        "no pending session to complete"@,
                    )
                } else {
                    &&& final(self)@ == (EngineView { pending: t.0, ..v })
                    &&& r matches Ok(Completion::Connect(todo)) && pairing_views(todo@) == pairings(
                        local_meta@,
                        remote_meta@,
                        local_meta@.len(),
                    )
                }
            }),
    {
        match self.check_peer(remote_meta) {
            Err(e) => return Err(e),
            Ok(_) => {},
        }
        let key = Key::from(remote_addr);
        if self.conns.find(&key).is_some() {
            self.release(&local_meta.nics);
            self.end(remote_addr);
            return Ok(Completion::Done);
        }
        if !self.take(&local_meta.nics) {
            return Err(TransferError::Backend(copied("no pending session to complete")));
        }
        Ok(Completion::Connect(pair_up(local_meta, remote_meta)))
    }

    /// Take the outcome of connecting the queue pairs of a handshake.
    pub fn connected(
        &mut self,
        remote_addr: &str,
        local_meta: &HandshakeMetadata,
        outcome: Result<(), TransferError>,
    ) -> (r: Result<(), TransferError>)
        requires
            old(self).valid(),
            outcome is Ok ==> old(self)@.own(local_meta@),
        ensures
            final(self).valid(),
            match outcome {
                Ok(_) => r is Ok && final(self)@ == old(self)@.joined(
                    addr_key(remote_addr@),
                    local_meta@,
                ),
                Err(e) => (r matches Err(x) && x@ == e@) && final(self)@ == old(self)@,
            },
    {
        if let Err(e) = outcome {
            return Err(e);
        }
        let n = self.nic_names.len();
        let mut rots: Vec<usize> = Vec::new();
        for i in 0..n
            invariant
                rots@ == Seq::new(i as nat, |j: int| 0usize),
        {
            rots.push(0);
            assert(rots@ =~= Seq::new((i + 1) as nat, |j: int| 0usize));
        }
        self.end(remote_addr);
        self.invalidate_connection(remote_addr);
        let conn = Conn { local: copy_handshakes(&local_meta.nics), rots };
        let ghost added = conn@;
        let ghost conns1 = self@.conns;
        assert(self.conns@.dom() =~= conns1.dom());
        assert(!conns1.contains_key(addr_key(remote_addr@)));
        self.conns.insert(Key::from(remote_addr), conn);
        assert(self@.conns =~= conns1.insert(addr_key(remote_addr@), added));
        assert(self@.conns =~= old(self)@.conns.insert(addr_key(remote_addr@), added));
        assert(self@ =~= old(self)@.joined(addr_key(remote_addr@), local_meta@));
        Ok(())
    }

    /// Whether a queue pair of a NIC waits for its handshake.
    pub fn is_pending(&self, nic: usize, qp_num: u32) -> (r: bool)
        requires
            self.valid(),
        ensures
            r == (nic < self@.pending.len() && self@.pending[nic as int].contains(qp_num)),
    {
        if nic >= self.pending.len() {
            return false;
        }
        let q = &self.pending[nic];
        assert(self@.pending[nic as int] == q@);
        for i in 0..q.len()
            invariant
                nic < self@.pending.len(),
                self@.pending[nic as int] == q@,
                forall|j: int| 0 <= j < i ==> q@[j] != qp_num,
        {
            if q[i] == qp_num {
                assert(q@[i as int] == qp_num);
                return true;
            }
        }
        false
    }

    /// Drop pending queue pairs created for a handshake that failed.
    pub fn abort_handshake(&mut self, remote_addr: &str, local_meta: &HandshakeMetadata)
        requires
            old(self).valid(),
            local_meta@.len() <= old(self)@.nics(),
        ensures
            final(self).valid(),
            final(self)@ == old(self)@.ended(addr_key(remote_addr@)).released(local_meta@),
    {
        self.end(remote_addr);
        self.release(&local_meta.nics);
    }

    /// Return cached local handshake metadata for an established connection.
    pub fn local_meta_for(&self, remote_addr: &str) -> (r: Option<HandshakeMetadata>)
        requires
            self.valid(),
        ensures
            ({
                let k = addr_key(remote_addr@);
                match r {
                    Some(meta) => self@.conns.contains_key(k) && meta@ == self@.conns[k].local,
                    None => !self@.conns.contains_key(k),
                }
            }),
    {
        match self.conns.find(&Key::from(remote_addr)) {
            Some(i) => {
                let conn = self.conns.at(i);
                Some(HandshakeMetadata { nics: copy_handshakes(&conn.local) })
            },
            None => None,
        }
    }

    /// Remove cached connection state on transfer failure. Returns whether there
    /// was any.
    pub fn invalidate_connection(&mut self, remote_addr: &str) -> (r: bool)
        requires
            old(self).valid(),
        ensures
            final(self).valid(),
            r == old(self)@.conns.contains_key(addr_key(remote_addr@)),
            final(self)@ == old(self)@.parted(addr_key(remote_addr@)),
    {
        match self.conns.find(&Key::from(remote_addr)) {
            Some(i) => {
                self.conns.remove_at(i);
                assert(self@.conns =~= old(self)@.conns.remove(addr_key(remote_addr@)));
                assert(self@ =~= old(self)@.parted(addr_key(remote_addr@)));
                true
            },
            None => {
                assert(self@ =~= old(self)@.parted(addr_key(remote_addr@)));
                false
            },
        }
    }

    /// Number of active RC queue pairs across all NICs.
    pub fn num_qps(&self) -> (r: usize)
        requires
            self.valid(),
            total_pairs(self@.conns) <= usize::MAX,
        ensures
            r == total_pairs(self@.conns),
    {
        match self.count_qps() {
            Some(n) => n,
            None => {
                assert(false);
                0
            },
        }
    }

    /// Number of active RC queue pairs across all NICs; `None` where it does not
    /// fit its type.
    pub fn count_qps(&self) -> (r: Option<usize>)
        requires
            self.valid(),
        ensures
            match r {
                Some(n) => n == total_pairs(self@.conns),
                None => total_pairs(self@.conns) > usize::MAX,
            },
    {
        let mut sum: usize = 0;
        let ghost mut left = self@.conns;
        proof {
            self.conns.lemma_keys();
            assert(left.dom() =~= self.conns@.dom());
        }
        let n = self.conns.len();
        for i in 0..n
            invariant
                n == self.conns.keys().len(),
                self.valid(),
                sum + total_pairs(left) == total_pairs(self@.conns),
                left.dom().finite(),
                forall|k: Seq<u8>| #[trigger]
                    left.contains_key(k) ==> self@.conns.contains_key(k) && left[k]
                        == self@.conns[k],
                forall|j: int|
                    i <= j < self.conns.keys().len() ==> left.contains_key(
                        #[trigger] self.conns.keys()[j],
                    ),
                forall|k: Seq<u8>| #[trigger]
                    left.contains_key(k) ==> exists|j: int|
                        i <= j < n && #[trigger] self.conns.keys()[j] == k,
        {
            let ghost k = self.conns.keys()[i as int];
            let conn = self.conns.at(i);
            proof {
                self.conns.lemma_keys();
                lemma_total_pairs(left, k);
                assert(left[k] == conn@);
            }
            let ghost base = sum;
            for nic in 0..conn.local.len()
                invariant
                    base + pairs_of(conn@.local) <= total_pairs(self@.conns),
                    sum == base + pairs_of(conn@.local.take(nic as int)),
            {
                assert(conn@.local[nic as int] == conn.local@[nic as int]@);
                proof {
                    lemma_pairs_take(conn@.local, nic as int);
                }
                sum = match sum.checked_add(conn.local[nic].endpoints.len()) {
                    Some(n) => n,
                    None => return None,
                };
            }
            assert(conn@.local.take(conn@.local.len() as int) =~= conn@.local);
            proof {
                left = left.remove(k);
            }
        }
        assert(left.dom() =~= Set::empty());
        Some(sum)
    }

    /// Take in memory that was registered on every NIC, given the key that each NIC
    /// gave it or why it did not (up to the first that did not). Its NUMA node
    /// decides which NICs carry transfers that touch it.
    pub fn register_with(
        &mut self,
        addr: u64,
        len: usize,
        numa: NumaNode,
        kind: &str,
        keys: &Vec<Result<u32, String>>,
    ) -> (r: Result<RegionDescriptor, TransferError>)
        requires
            old(self).valid(),
            keys@.len() <= old(self)@.nics(),
            len == 0 || keys@.len() == old(self)@.nics() || exists|i: int|
                0 <= i < keys@.len() && (#[trigger] keys@[i]) is Err,
        ensures
            final(self).valid(),
            ({
                let v = old(self)@;
                match register_refusal(v, addr, len, kind@, keys@) {
                    Some(e) => (r matches Err(x) && x@ == e) && final(self)@ == v,
                    None => {
                        &&& final(self)@ == (EngineView {
                            registered: v.registered.push(
                                Registration { base: addr, len, numa },
                            ),
                            ..v
                        })
                        &&& r matches Ok(d) && d@ == (RegionDescriptorView {
                            addr,
                            len: len as u64,
                            rkeys: Seq::new(v.nics(), |i: int| keys@[i]->Ok_0),
                        })
                    },
                }
            }),
    {
        if len == 0 {
            return Err(TransferError::InvalidArgument("len must be non-zero"));
        }
        let mut rkeys: Vec<u32> = Vec::new();
        for i in 0..keys.len()
            invariant
                self@ == old(self)@,
                self.valid(),
                keys@.len() <= self@.nics(),
                len != 0,
                first_refused(keys@, 0) == first_refused(keys@, i as nat),
                rkeys@ == Seq::new(i as nat, |j: int| keys@[j]->Ok_0),
                forall|j: int| 0 <= j < i ==> (#[trigger] keys@[j]) is Ok,
        {
            match &keys[i] {
                Ok(key) => {
                    rkeys.push(*key);
                    assert(rkeys@ =~= Seq::new((i + 1) as nat, |j: int| keys@[j]->Ok_0));
                },
                Err(e) => {
                    let mut m = String::new();
                    m.append(kind);
                    m.append(" MR registration failed on nic=");
                    m.append(self.nic_names[i].as_str());
                    m.append(": ");
                    m.append(e.as_str());
                    assert(m@ =~= kind@ + " MR registration failed on nic="@ + self@.names[i as int]
                        + ": "@ + e@);
                    return Err(TransferError::Backend(m));
                },
            }
        }
        match self.registered.insert(Registration { base: addr, len, numa }) {
            Err(e) => Err(e),
            Ok(_) => Ok(RegionDescriptor { addr, len: len as u64, rkeys }),
        }
    }

    /// The registration that holds a range, if one does.
    pub fn find_entry(&self, ptr: u64, len: usize) -> (r: Option<Registration>)
        ensures
            r == batch::found_entry(self@.registered, ptr, len),
    {
        self.registered.find_entry(ptr, len)
    }

    /// Drop a registration by its base address. Peers still holding the descriptor
    /// will fail with a remote access error.
    pub fn unregister(&mut self, addr: u64) -> (r: Result<(), TransferError>)
        requires
            old(self).valid(),
        ensures
            final(self).valid(),
            final(self)@ == old(self)@.unregistered(addr),
            match r {
                Ok(_) => batch::has_base(old(self)@.registered, addr),
                Err(e) => !batch::has_base(old(self)@.registered, addr) && e@ == (
                TransferErrorView::MemoryNotRegistered { ptr: addr }),
            },
    {
        let ghost v = self@;
        let removed = self.registered.remove(addr);
        assert(self@ =~= v.unregistered(addr));
        assert(self@.valid()) by {
            assert forall|k: Seq<u8>| #[trigger]
                self@.conns.contains_key(k) implies self@.conns[k].rots.len() == self@.nics()
                && self@.conns[k].local.len() <= self@.nics() by {
                assert(v.conns.contains_key(k));
            }
        }
        if removed {
            Ok(())
        } else {
            Err(TransferError::MemoryNotRegistered { ptr: addr })
        }
    }

    /// Work out a batch of RDMA READ or WRITE operations, like
    /// `batch_transfer_async`; `None` where a NIC that a transfer would go out on
    /// has no queue pair to the peer.
    pub fn batch_if_carried(
        &mut self,
        remote_addr: &str,
        descs: &[TransferDesc<'_>],
    ) -> (r: Result<Option<Vec<NicWork>>, TransferError>)
        requires
            old(self).valid(),
        ensures
            final(self).valid(),
            ({
                let k = addr_key(remote_addr@);
                let views = batch::desc_views(descs@);
                let (after, want) = old(self)@.batch(k, remote_addr@, views);
                &&& final(self)@ == after
                &&& match want {
                    Ok(work) => r matches Ok(got) && match got {
                        Some(w) => old(self)@.carries(k, views)
                            && batch::nic_work_views(w@) == work,
                        None => !old(self)@.carries(k, views),
                    },
                    Err(e) => r matches Err(x) && x@ == e,
                }
            }),
    {
        if descs.len() == 0 {
            let none: Vec<NicWork> = Vec::new();
            assert(batch::nic_work_views(none@) =~= Seq::empty());
            return Ok(Some(none));
        }
        let ghost v0 = self@;
        let ghost k = addr_key(remote_addr@);
        let at = match self.conns.find(&Key::from(remote_addr)) {
            Some(i) => i,
            None => {
                let mut m = String::new();
                m.append("no connection for remote addr ");
                m.append(remote_addr);
                assert(m@ =~= "no connection for remote addr "@ + remote_addr@);
                return Err(TransferError::Backend(m));
            },
        };
        let nics = self.nic_names.len();
        let ghost conn0 = v0.conns[k];
        assert(conn0 == self.conns@[k]@);
        let mut rots: Vec<usize> = Vec::new();
        let mut pairs: Vec<usize> = Vec::new();
        let conn: &mut Conn = self.conns.at_mut(at);
        for i in 0..nics
            invariant
                conn0.rots.len() == nics,
                conn@.local == conn0.local,
                conn@.rots.len() == nics,
                forall|j: int|
                    0 <= j < nics ==> #[trigger] conn@.rots[j] == if j < i {
                        conn0.rots[j].wrapping_add(1)
                    } else {
                        conn0.rots[j]
                    },
                rots@ == conn0.rots.take(i as int),
                pairs@.len() == i,
                forall|j: int| 0 <= j < i ==> #[trigger] pairs@[j] == conn0.pairs(j),
        {
            let rot: usize = conn.rots[i];
            conn.rots.set(i, rot.wrapping_add(1));
            rots.push(rot);
            assert(rots@ =~= conn0.rots.take(i + 1));
            let count: usize = if i < conn.local.len() {
                assert(conn@.local[i as int] == conn.local@[i as int]@);
                conn.local[i].endpoints.len()
            } else {
                0
            };
            pairs.push(count);
        }
        assert(conn@ =~= conn0.rotated());
        assert(rots@ =~= conn0.rots);
        assert(self@.conns =~= v0.conns.insert(k, conn0.rotated()));
        let found = self.registered.find_nodes(descs);
        let per_nic = match crate::rdma::batch::resolve(
            &mut self.numa_rr,
            descs,
            found.as_slice(),
            nics,
        ) {
            Ok(v) => v,
            Err(e) => return Err(e),
        };
        let ghost all = batch::op_views(per_nic@);
        let ghost counts = Seq::new(pairs@.len(), |i: int| pairs@[i] as nat);
        assert(counts =~= Seq::new(v0.nics(), |i: int| conn0.pairs(i)));
        for i in 0..nics
            invariant
                nics == per_nic@.len(),
                pairs@.len() == nics,
                all == batch::op_views(per_nic@),
                counts == Seq::new(pairs@.len(), |i: int| pairs@[i] as nat),
                forall|j: int| 0 <= j < i && (#[trigger] all[j]).len() > 0 ==> counts[j] > 0,
                self.valid(),
                self@ == v0.batch(k, remote_addr@, batch::desc_views(descs@)).0,
                counts == Seq::new(v0.nics(), |i: int| v0.conns[k].pairs(i)),
                v0 == old(self)@,
                k == addr_key(remote_addr@),
                descs@.len() > 0,
                v0.conns.contains_key(k),
                ({
                    let want = batch::resolution(
                        v0.turns,
                        batch::desc_views(descs@),
                        found@,
                        v0.nics(),
                        descs@.len(),
                    );
                    want.error is None && want.per_nic == all
                }),
                found@ == batch::found_nodes(v0.registered, batch::desc_views(descs@)),
        {
            assert(all[i as int] == per_nic@[i as int]@);
            assert(counts[i as int] == pairs@[i as int]);
            if per_nic[i].len() > 0 && pairs[i] == 0 {
                assert(!batch::carried(all, counts));
                return Ok(None);
            }
        }
        assert(batch::carried(all, counts));
        Ok(Some(crate::rdma::batch::spread_work(&per_nic, &pairs, &rots)))
    }

    /// Submit a batch of RDMA operations against a connected peer: one entry per
    /// active NIC, with the bytes that go over it and what each of its queue pairs
    /// is to carry.
    ///
    /// Each op goes out on a NIC local to its registered memory's NUMA node
    /// (round-robin within the node). The work of a connection is spread over
    /// the queue pairs of `local_meta_for`.
    pub fn batch_transfer_async(
        &mut self,
        remote_addr: &str,
        descs: &[TransferDesc<'_>],
    ) -> (r: Result<Vec<NicWork>, TransferError>)
        requires
            old(self).valid(),
            old(self)@.carries(addr_key(remote_addr@), batch::desc_views(descs@)),
        ensures
            final(self).valid(),
            ({
                let (after, want) = old(self)@.batch(
                    addr_key(remote_addr@),
                    remote_addr@,
                    batch::desc_views(descs@),
                );
                &&& final(self)@ == after
                &&& match want {
                    Ok(work) => r matches Ok(w) && batch::nic_work_views(w@) == work,
                    Err(e) => r matches Err(x) && x@ == e,
                }
            }),
            r matches Ok(w) ==> batch::one_per_nic(batch::nic_work_views(w@))
                && batch::work_bytes(batch::nic_work_views(w@)) == batch::descs_bytes(
                batch::desc_views(descs@),
            ),
    {
        let ghost v0 = self@;
        let ghost k = addr_key(remote_addr@);
        let ghost views = batch::desc_views(descs@);
        assert(self.nic_names@.len() == self.nic_names.len());
        match self.batch_if_carried(remote_addr, descs) {
            Err(e) => Err(e),
            Ok(Some(work)) => {
                proof {
                    law_batch_counts_every_byte(v0, k, remote_addr@, views);
                }
                Ok(work)
            },
            Ok(None) => {
                assert(false);
                Ok(Vec::new())
            },
        }
    }
}

/// Why memory is not taken in: it is empty, a NIC refused it, or its base
/// address is registered.
pub open spec fn register_refusal(
    v: EngineView,
    addr: u64,
    len: usize,
    kind: Seq<char>,
    keys: Seq<Result<u32, String>>,
) -> Option<TransferErrorView> {
    if len == 0 {
        Some(TransferErrorView::InvalidArgument("len must be non-zero"@))
    } else {
        match first_refused(keys, 0) {
            Some(i) => Some(
                TransferErrorView::Backend(
                    kind + " MR registration failed on nic="@ + v.names[i as int] + ": "@
                        + keys[i as int]->Err_0@,
                ),
            ),
            None => if batch::has_base(v.registered, addr) {
                Some(batch::already_registered())
            } else {
                None
            },
        }
    }
}

/// The first NIC, from `i` on, that refused memory.
pub open spec fn first_refused(keys: Seq<Result<u32, String>>, i: nat) -> Option<nat>
    decreases keys.len() - i,
{
    if i >= keys.len() {
        None
    } else if keys[i as int] is Err {
        Some(i)
    } else {
        first_refused(keys, i + 1)
    }
}

spec fn stands(v: EngineView, k: Seq<u8>, conn: ConnView) -> bool {
    v.conns.contains_key(k) && v.conns[k] == conn
}

// ---- laws ----

/// Whether queue pairs are new: on each NIC their numbers differ from each other
/// and from those that wait.
pub open spec fn fresh_pairs(v: EngineView, local: Seq<Seq<EndpointView>>) -> bool {
    &&& local.len() == v.nics()
    &&& forall|i: int|
        0 <= i < local.len() ==> #[trigger] qpns(local[i]).no_duplicates() && qpns(
            local[i],
        ).to_set().disjoint(v.pending[i].to_set())
}

proof fn lemma_dropped_tail(q: Seq<u32>, s: Seq<u32>)
    requires
        s.len() > 0,
        !q.contains(s[0]),
    ensures
        dropped(q + s, s[0]) == q + s.skip(1),
        (q + s).contains(s[0]),
{
    let both = q + s;
    assert(both[q.len() as int] == s[0]);
    assert forall|j: int| 0 <= j < q.len() implies both[j] != s[0] by {
        assert(q.contains(q[j]));
    }
    lemma_dropped_at(both, s[0], q.len() as int);
    assert(both.remove(q.len() as int) =~= q + s.skip(1));
}

proof fn lemma_take_back(q: Seq<u32>, endpoints: Seq<EndpointView>, m: nat)
    requires
        m <= endpoints.len(),
        qpns(endpoints).no_duplicates(),
        qpns(endpoints).to_set().disjoint(q.to_set()),
    ensures
        without(q + qpns(endpoints), endpoints, m) == q + qpns(endpoints).skip(m as int),
        takeable(q + qpns(endpoints), endpoints, m) == m,
    decreases m,
{
    let s = qpns(endpoints);
    if m == 0 {
        assert(s.skip(0) =~= s);
    } else {
        lemma_take_back(q, endpoints, (m - 1) as nat);
        let t = s.skip(m - 1);
        assert(t[0] == endpoints[m - 1].2);
        assert(!q.contains(t[0])) by {
            assert(s.contains(s[m - 1]));
            assert(s.to_set().contains(s[m - 1]));
            if q.contains(t[0]) {
                assert(q.to_set().contains(t[0]));
            }
        }
        lemma_dropped_tail(q, t);
        assert(t.skip(1) =~= s.skip(m as int));
    }
}

/// An aborted handshake leaves nothing behind: the engine is as it was before
/// the handshake began.
pub proof fn law_abort_undoes_prepare(v: EngineView, k: Seq<u8>, local: Seq<Seq<EndpointView>>)
    requires
        v.valid(),
        !v.connecting.contains(k),
        fresh_pairs(v, local),
    ensures
        v.begun(k).waiting(local).ended(k).released(local) == v,
{
    let w = v.begun(k).waiting(local).ended(k);
    let r = w.released(local);
    assert(r.connecting =~= v.connecting);
    assert forall|i: int| 0 <= i < v.pending.len() implies #[trigger] r.pending[i] == v.pending[i] by {
        assert(i < local.len());
        assert(qpns(local[i]).no_duplicates());
        lemma_take_back(v.pending[i], local[i], local[i].len());
        assert(v.pending[i] + qpns(local[i]).skip(local[i].len() as int) =~= v.pending[i]);
        assert(w.pending[i] == v.pending[i] + qpns(local[i]));
    }
    assert(r.pending =~= v.pending);
    assert(r =~= v);
}

proof fn lemma_taken_waiting(v: EngineView, local: Seq<Seq<EndpointView>>, n: nat)
    requires
        v.valid(),
        fresh_pairs(v, local),
        n <= local.len(),
    ensures
        ({
            let t = taken(v.waiting(local).pending, local, n);
            &&& t.1
            &&& t.0.len() == v.pending.len()
            &&& forall|i: int|
                0 <= i < t.0.len() ==> #[trigger] t.0[i] == if i < n {
                    v.pending[i]
                } else {
                    v.waiting(local).pending[i]
                }
        }),
    decreases n,
{
    if n > 0 {
        lemma_taken_waiting(v, local, (n - 1) as nat);
        let i = n - 1;
        assert(i < local.len());
        assert(qpns(local[i]).no_duplicates());
        lemma_take_back(v.pending[i], local[i], local[i].len());
        assert(v.pending[i] + qpns(local[i]).skip(local[i].len() as int) =~= v.pending[i]);
        let before = taken(v.waiting(local).pending, local, (n - 1) as nat).0;
        assert(before[i] == v.pending[i] + qpns(local[i]));
    }
}

/// A handshake that was prepared can be completed: its queue pairs are found
/// whatever else waits, and only they leave.
pub proof fn law_prepared_handshakes_complete(
    v: EngineView,
    k: Seq<u8>,
    local: Seq<Seq<EndpointView>>,
)
    requires
        v.valid(),
        fresh_pairs(v, local),
    ensures
        taken(v.begun(k).waiting(local).pending, local, local.len()) == (v.pending, true),
{
    assert(v.begun(k).waiting(local).pending =~= v.waiting(local).pending);
    lemma_taken_waiting(v, local, local.len());
    assert(taken(v.waiting(local).pending, local, local.len()).0 =~= v.pending);
}

/// A connection is found until it is invalidated, others are not touched by it,
/// and its peer can be prepared again after that.
pub proof fn law_connections_stand_until_invalidated(
    v: EngineView,
    k: Seq<u8>,
    other: Seq<u8>,
    local: Seq<Seq<EndpointView>>,
)
    requires
        v.valid(),
        other != k,
    ensures
        v.joined(k, local).conns.contains_key(k),
        v.joined(k, local).conns[k].local == local,
        !v.joined(k, local).connecting.contains(k),
        !v.joined(k, local).parted(k).conns.contains_key(k),
        v.joined(k, local).conns.contains_key(other) == v.conns.contains_key(other),
        v.joined(k, local).parted(k).conns.contains_key(other) == v.conns.contains_key(other),
        v.conns.contains_key(other) ==> v.joined(k, local).parted(k).conns[other]
            == v.conns[other],
{
}

/// A batch touches no other connection and no handshake, and its own connection
/// stays.
pub proof fn law_batches_touch_their_connection_alone(
    v: EngineView,
    k: Seq<u8>,
    addr: Seq<char>,
    descs: Seq<TransferDescView>,
    found: Seq<Option<NumaNode>>,
    other: Seq<u8>,
)
    requires
        v.valid(),
        other != k,
    ensures
        ({
            let (after, r) = v.batch(k, addr, descs);
            &&& after.pending == v.pending
            &&& after.connecting == v.connecting
            &&& after.conns.contains_key(other) == v.conns.contains_key(other)
            &&& v.conns.contains_key(other) ==> after.conns[other] == v.conns[other]
            &&& after.conns.contains_key(k) == v.conns.contains_key(k)
            &&& v.conns.contains_key(k) ==> after.conns[k].local == v.conns[k].local
        }),
{
}

/// A batch that is not refused comes back with one entry for every NIC that
/// carries a transfer, and their bytes add up to those of the batch.
pub proof fn law_batch_counts_every_byte(
    v: EngineView,
    k: Seq<u8>,
    addr: Seq<char>,
    descs: Seq<TransferDescView>,
)
    requires
        v.turns.ok(v.nics()),
        v.nics() <= usize::MAX,
        v.carries(k, descs),
    ensures
        v.batch(k, addr, descs).1 matches Ok(work) ==> batch::one_per_nic(work)
            && batch::work_bytes(work) == batch::descs_bytes(descs),
{
    if descs.len() > 0 && v.conns.contains_key(k) {
        let found = batch::found_nodes(v.registered, descs);
        let resolved = batch::resolution(v.turns, descs, found, v.nics(), descs.len());
        let pairs = Seq::new(v.nics(), |i: int| v.conns[k].pairs(i));
        let rots = v.conns[k].rots;
        batch::lemma_resolved(v.turns, descs, found, v.nics(), descs.len());
        if resolved.error is None {
            batch::law_one_entry_per_active_nic(resolved.per_nic, pairs, rots, v.nics());
            batch::law_every_byte_is_on_a_nic(v.turns, descs, found, v.nics(), pairs, rots);
        }
    }
}

/// Memory that was registered once is refused when its registration is gone: a
/// batch that touches it is refused as a whole, with its address where it is the
/// first thing wrong.
pub proof fn law_unregistered_memory_is_refused(
    v: EngineView,
    base: u64,
    k: Seq<u8>,
    addr: Seq<char>,
    descs: Seq<TransferDescView>,
    i: int,
)
    requires
        v.conns.contains_key(k),
        0 <= i < descs.len(),
        forall|j: int|
            0 <= j < v.registered.len() && (#[trigger] v.registered[j]).covers(
                descs[i].local,
                descs[i].len,
            ) ==> v.registered[j].base == base,
    ensures
        v.unregistered(base).batch(k, addr, descs).1 is Err,
        i == 0 && descs[0].len > 0 ==> v.unregistered(base).batch(k, addr, descs).1 == Err::<
            Seq<NicWorkView>,
            TransferErrorView,
        >(TransferErrorView::MemoryNotRegistered { ptr: descs[0].local }),
{
    let u = v.unregistered(base);
    let found = batch::found_nodes(u.registered, descs);
    batch::law_removed_range_is_found_no_more(
        v.registered,
        base,
        descs[i].local,
        descs[i].len,
    );
    assert(found[i] is None);
    batch::law_one_bad_transfer_refuses_the_batch(u.turns, descs, found, u.nics(), i);
    if i == 0 && descs[0].len > 0 {
        batch::lemma_resolution_error(u.turns, descs, found, u.nics(), 1, descs.len());
        assert(batch::resolution(u.turns, descs, found, u.nics(), 0).error is None);
    }
}

} // verus!
