//! What travels between peers: descriptors of registered memory and handshake
//! metadata, and their wire form.
use bincode::error::DecodeError;
use vstd::prelude::*;

use crate::rdma::transfer::{TransferError, TransferErrorView};

verus! {

/// RDMA operation type.
#[derive(Clone, Copy, Debug, PartialEq, Eq, Structural)]
pub enum TransferOp {
    Read,
    Write,
}

#[verifier::external_type_specification]
#[verifier::external_body]
pub struct ExDecodeError(DecodeError);

// ---- region descriptors ----

/// What registering memory produces: the address range plus one rkey per
/// NIC of the registering engine (indexed like that engine's NIC list).
///
/// This is the only thing a peer needs to address the memory. It is
/// serializable so the owner can publish it out of band (in pegastore it
/// rides in replica metadata) and it is independent of any connection:
/// memory can be registered before, after, or without a handshake.
#[derive(Debug, PartialEq, Eq)]
pub struct RegionDescriptor {
    pub addr: u64,
    pub len: u64,
    pub rkeys: Vec<u32>,
}

pub struct RegionDescriptorView {
    pub addr: u64,
    pub len: u64,
    pub rkeys: Seq<u32>,
}

impl View for RegionDescriptor {
    type V = RegionDescriptorView;

    open spec fn view(&self) -> RegionDescriptorView {
        RegionDescriptorView { addr: self.addr, len: self.len, rkeys: self.rkeys@ }
    }
}

impl Clone for RegionDescriptor {
    fn clone(&self) -> (r: Self)
        ensures
            r@ == self@,
    {
        RegionDescriptor {
            addr: self.addr,
            len: self.len,
            rkeys: vstd::slice::slice_to_vec(self.rkeys.as_slice()),
        }
    }
}

impl RegionDescriptorView {
    /// Whether `[ptr, ptr + len)` lies inside the region.
    pub open spec fn covers(self, ptr: u64, len: nat) -> bool {
        &&& ptr + len <= u64::MAX
        &&& self.addr <= ptr
        &&& ptr + len <= self.addr + self.len || self.addr + self.len > u64::MAX
    }
}

/// The wire form of a region descriptor.
pub uninterp spec fn region_wire(addr: u64, len: u64, rkeys: Seq<u32>) -> Seq<u8>;

/// What bytes say as a region descriptor, and how many of them say it; `None`
/// where they say nothing.
pub uninterp spec fn region_parsed(bytes: Seq<u8>) -> Option<(u64, u64, Seq<u32>, nat)>;

/// `bincode::serde::encode_to_vec`, in the standard configuration, writes the
/// two numbers and the list one after the other, as it writes a struct of these
/// three fields. The bytes are a function of the values, and
/// `bincode::serde::decode_from_slice` reads the values back from all of them.
#[verifier::external_body]
fn encode_region(addr: u64, len: u64, rkeys: &Vec<u32>) -> (r: Vec<u8>)
    ensures
        r@ == region_wire(addr, len, rkeys@),
        region_parsed(r@) == Some((addr, len, rkeys@, r@.len())),
{
    bincode::serde::encode_to_vec((addr, len, rkeys), bincode::config::standard()).expect(
        "region descriptor serialization should not fail",
    )
}

/// `bincode::serde::decode_from_slice`, in the standard configuration, reads two
/// numbers and a list from the front of the bytes, and says how many bytes it
/// has read, at most all. Its result is a function of the bytes. What it makes
/// of bytes that were not written by `encode_to_vec` is not stated.
#[verifier::external_body]
fn decode_region(bytes: &[u8]) -> (r: Result<
    ((u64, u64, Vec<u32>), usize),
    DecodeError,
>)
    ensures
        match r {
            Ok((v, n)) => n <= bytes@.len() && region_parsed(bytes@) == Some(
                (v.0, v.1, v.2@, n as nat),
            ),
            Err(_) => region_parsed(bytes@) is None,
        },
{
    bincode::serde::decode_from_slice(bytes, bincode::config::standard())
}

/// The descriptor that was read, or the refusal: everything must have been
/// read.
pub open spec fn region_read(parsed: Option<(u64, u64, Seq<u32>, nat)>, total: nat) -> Result<
    RegionDescriptorView,
    TransferErrorView,
> {
    match parsed {
        None => Err(TransferErrorView::InvalidArgument("invalid region descriptor"@)),
        Some((addr, len, rkeys, consumed)) => if consumed != total {
            Err(TransferErrorView::InvalidArgument("trailing bytes in region descriptor"@))
        } else {
            Ok(RegionDescriptorView { addr, len, rkeys })
        },
    }
}

pub open spec fn region_result(r: Result<RegionDescriptor, TransferError>) -> Result<
    RegionDescriptorView,
    TransferErrorView,
> {
    match r {
        Ok(d) => Ok(d@),
        Err(e) => Err(e@),
    }
}

impl RegionDescriptor {
    /// True when `[ptr, ptr + len)` lies inside this region.
    pub fn contains(&self, ptr: u64, len: usize) -> (r: bool)
        ensures
            r == self@.covers(ptr, len as nat),
    {
        let end = match ptr.checked_add(len as u64) {
            Some(end) => end,
            None => return false,
        };
        ptr >= self.addr && end <= self.addr.saturating_add(self.len)
    }

    pub fn to_bytes(&self) -> (r: Vec<u8>)
        ensures
            r@ == region_wire(self@.addr, self@.len, self@.rkeys),
            region_parsed(r@) == Some((self@.addr, self@.len, self@.rkeys, r@.len())),
    {
        encode_region(self.addr, self.len, &self.rkeys)
    }

    /// The descriptor that was read from bytes, given what was read and how many
    /// bytes there were.
    pub fn from_parsed(parsed: Option<((u64, u64, Vec<u32>), usize)>, total: usize) -> (r: Result<
        Self,
        TransferError,
    >)
        ensures
            region_result(r) == region_read(
                match parsed {
                    Some((v, n)) => Some((v.0, v.1, v.2@, n as nat)),
                    None => None,
                },
                total as nat,
            ),
    {
        match parsed {
            None => Err(TransferError::InvalidArgument("invalid region descriptor")),
            Some(((addr, len, rkeys), consumed)) => if consumed != total {
                Err(TransferError::InvalidArgument("trailing bytes in region descriptor"))
            } else {
                Ok(RegionDescriptor { addr, len, rkeys })
            },
        }
    }

    pub fn from_bytes(bytes: &[u8]) -> (r: Result<Self, TransferError>)
        ensures
            region_result(r) == region_read(region_parsed(bytes@), bytes@.len()),
    {
        let parsed = match decode_region(bytes) {
            Ok(p) => Some(p),
            Err(_) => None,
        };
        RegionDescriptor::from_parsed(parsed, bytes.len())
    }
}

/// A region lies inside itself, and what lies inside a part lies inside the
/// whole.
pub proof fn law_covering_is_monotone(d: RegionDescriptorView, ptr: u64, len: nat, inner: u64, n: nat)
    requires
        d.covers(ptr, len),
        ptr <= inner,
        inner + n <= ptr + len,
    ensures
        d.covers(inner, n),
        d.addr + d.len <= u64::MAX ==> d.covers(d.addr, d.len as nat),
{
}

/// A single RDMA transfer: `len` bytes between local address `local` and
/// remote address `remote`, the latter addressed through `region` (the
/// remote owner's [`RegionDescriptor`]).
#[derive(Clone, Copy, Debug)]
pub struct TransferDesc<'a> {
    pub local: u64,
    pub remote: u64,
    pub len: usize,
    pub region: &'a RegionDescriptor,
}

pub struct TransferDescView {
    pub local: u64,
    pub remote: u64,
    pub len: usize,
    pub region: RegionDescriptorView,
}

impl<'a> View for TransferDesc<'a> {
    type V = TransferDescView;

    open spec fn view(&self) -> TransferDescView {
        TransferDescView {
            local: self.local,
            remote: self.remote,
            len: self.len,
            region: self.region@,
        }
    }
}

// ---- handshake metadata ----

/// RC queue pair endpoint info exchanged during handshake.
#[derive(Clone, Copy, Debug, PartialEq, Eq)]
pub struct RcEndpoint {
    pub gid: [u8; 16],
    pub lid: u16,
    pub qp_num: u32,
    pub psn: u32,
}

/// An endpoint as a plain value: gid, lid, queue pair number, first packet
/// number.
pub type EndpointView = (Seq<u8>, u16, u32, u32);

impl View for RcEndpoint {
    type V = EndpointView;

    open spec fn view(&self) -> EndpointView {
        (self.gid@, self.lid, self.qp_num, self.psn)
    }
}

/// Per-NIC handshake data: N endpoints (one per QP).
///
/// The same NIC pair maintains N RC QPs so the caller can spread load across
/// them. Both peers must agree on N (set via `qps_per_peer` at backend init).
#[derive(Debug)]
pub struct NicHandshake {
    pub endpoints: Vec<RcEndpoint>,
}

pub open spec fn endpoint_views(endpoints: Seq<RcEndpoint>) -> Seq<EndpointView> {
    Seq::new(endpoints.len(), |i: int| endpoints[i]@)
}

impl View for NicHandshake {
    type V = Seq<EndpointView>;

    open spec fn view(&self) -> Seq<EndpointView> {
        endpoint_views(self.endpoints@)
    }
}

impl Clone for NicHandshake {
    fn clone(&self) -> (r: Self)
        ensures
            r@ == self@,
    {
        NicHandshake { endpoints: vstd::slice::slice_to_vec(self.endpoints.as_slice()) }
    }
}

pub open spec fn handshake_views(nics: Seq<NicHandshake>) -> Seq<Seq<EndpointView>> {
    Seq::new(nics.len(), |i: int| nics[i]@)
}

/// A copy of a list of handshakes.
pub fn copy_handshakes(nics: &Vec<NicHandshake>) -> (r: Vec<NicHandshake>)
    ensures
        handshake_views(r@) == handshake_views(nics@),
{
    let mut out: Vec<NicHandshake> = Vec::new();
    for i in 0..nics.len()
        invariant
            handshake_views(out@) == handshake_views(nics@).take(i as int),
    {
        let ghost before = handshake_views(out@);
        out.push(nics[i].clone());
        assert(handshake_views(out@) =~= before.push(nics@[i as int]@));
        assert(handshake_views(out@) =~= handshake_views(nics@).take(i + 1));
    }
    assert(handshake_views(out@) =~= handshake_views(nics@));
    out
}

/// Opaque handshake metadata exchanged between peers out of band.
///
/// Contains one [`NicHandshake`] per NIC. NICs are 1:1 mapped by index
/// between two machines (mlx5_0 to mlx5_0, etc.). Memory is *not* part of the
/// handshake; see [`RegionDescriptor`].
#[derive(Debug)]
pub struct HandshakeMetadata {
    pub nics: Vec<NicHandshake>,
}

impl View for HandshakeMetadata {
    type V = Seq<Seq<EndpointView>>;

    open spec fn view(&self) -> Seq<Seq<EndpointView>> {
        handshake_views(self.nics@)
    }
}

impl Clone for HandshakeMetadata {
    fn clone(&self) -> (r: Self)
        ensures
            r@ == self@,
    {
        HandshakeMetadata { nics: copy_handshakes(&self.nics) }
    }
}

/// An endpoint as it is written.
pub type WireEndpoint = ([u8; 16], u16, u32, u32);

pub open spec fn wire_nic(endpoints: Seq<WireEndpoint>) -> Seq<EndpointView> {
    Seq::new(
        endpoints.len(),
        |i: int| (endpoints[i].0@, endpoints[i].1, endpoints[i].2, endpoints[i].3),
    )
}

pub open spec fn wire_nics(nics: Seq<Vec<WireEndpoint>>) -> Seq<Seq<EndpointView>> {
    Seq::new(nics.len(), |i: int| wire_nic(nics[i]@))
}

/// The wire form of handshake metadata.
pub uninterp spec fn handshake_wire(nics: Seq<Seq<EndpointView>>) -> Seq<u8>;

/// What bytes say as handshake metadata, and how many of them say it; `None`
/// where they say nothing.
pub uninterp spec fn handshake_parsed(bytes: Seq<u8>) -> Option<(Seq<Seq<EndpointView>>, nat)>;

/// `bincode::serde::encode_to_vec`, in the standard configuration, writes a list
/// of lists of endpoints as it writes a struct that has it as its only field,
/// each endpoint field after field. The bytes are a function of the values, and
/// `bincode::serde::decode_from_slice` reads the values back from all of them.
#[verifier::external_body]
fn encode_handshake(nics: &Vec<Vec<WireEndpoint>>) -> (r: Vec<u8>)
    ensures
        r@ == handshake_wire(wire_nics(nics@)),
        handshake_parsed(r@) == Some((wire_nics(nics@), r@.len())),
{
    bincode::serde::encode_to_vec(nics, bincode::config::standard()).expect(
        "handshake metadata serialization should not fail",
    )
}

/// `bincode::serde::decode_from_slice`, in the standard configuration, reads a
/// list of lists of endpoints from the front of the bytes, and says how many
/// bytes it has read, at most all. Its result is a function of the bytes. What it
/// makes of bytes that were not written by `encode_to_vec` is not stated.
#[verifier::external_body]
fn decode_handshake(bytes: &[u8]) -> (r: Result<
    (Vec<Vec<WireEndpoint>>, usize),
    DecodeError,
>)
    ensures
        match r {
            Ok((v, n)) => n <= bytes@.len() && handshake_parsed(bytes@) == Some(
                (wire_nics(v@), n as nat),
            ),
            Err(_) => handshake_parsed(bytes@) is None,
        },
{
    bincode::serde::decode_from_slice(bytes, bincode::config::standard())
}

/// The metadata that was read, or the refusal: everything must have been read.
pub open spec fn handshake_read(
    parsed: Option<(Seq<Seq<EndpointView>>, nat)>,
    total: nat,
) -> Result<Seq<Seq<EndpointView>>, TransferErrorView> {
    match parsed {
        None => Err(TransferErrorView::InvalidArgument("invalid handshake metadata"@)),
        Some((nics, consumed)) => if consumed != total {
            Err(TransferErrorView::InvalidArgument("trailing bytes in handshake metadata"@))
        } else {
            Ok(nics)
        },
    }
}

pub open spec fn handshake_result(r: Result<HandshakeMetadata, TransferError>) -> Result<
    Seq<Seq<EndpointView>>,
    TransferErrorView,
> {
    match r {
        Ok(m) => Ok(m@),
        Err(e) => Err(e@),
    }
}

impl HandshakeMetadata {
    pub fn to_bytes(&self) -> (r: Vec<u8>)
        ensures
            r@ == handshake_wire(self@),
            handshake_parsed(r@) == Some((self@, r@.len())),
    {
        let mut wire: Vec<Vec<WireEndpoint>> = Vec::new();
        for i in 0..self.nics.len()
            invariant
                wire_nics(wire@) == self@.take(i as int),
        {
            let ghost before = wire_nics(wire@);
            let endpoints = &self.nics[i].endpoints;
            let ghost want = self@[i as int];
            assert(want == endpoint_views(endpoints@));
            let mut row: Vec<WireEndpoint> = Vec::new();
            for j in 0..endpoints.len()
                invariant
                    want == endpoint_views(endpoints@),
                    wire_nic(row@) == want.take(j as int),
            {
                let ghost row0 = wire_nic(row@);
                let e = endpoints[j];
                row.push((e.gid, e.lid, e.qp_num, e.psn));
                assert(wire_nic(row@) =~= row0.push(e@));
                assert(wire_nic(row@) =~= want.take(j + 1));
            }
            assert(wire_nic(row@) =~= want);
            wire.push(row);
            assert(wire_nics(wire@) =~= before.push(want));
            assert(wire_nics(wire@) =~= self@.take(i + 1));
        }
        assert(wire_nics(wire@) =~= self@);
        encode_handshake(&wire)
    }

    /// The metadata that was read from bytes, given what was read and how many
    /// bytes there were.
    pub fn from_parsed(parsed: Option<(Vec<Vec<WireEndpoint>>, usize)>, total: usize) -> (r: Result<
        Self,
        TransferError,
    >)
        ensures
            handshake_result(r) == handshake_read(
                match parsed {
                    Some((v, n)) => Some((wire_nics(v@), n as nat)),
                    None => None,
                },
                total as nat,
            ),
    {
        let (wire, consumed) = match parsed {
            None => return Err(TransferError::InvalidArgument("invalid handshake metadata")),
            Some(p) => p,
        };
        if consumed != total {
            return Err(TransferError::InvalidArgument("trailing bytes in handshake metadata"));
        }
        let ghost all = wire_nics(wire@);
        let mut nics: Vec<NicHandshake> = Vec::new();
        for i in 0..wire.len()
            invariant
                all == wire_nics(wire@),
                handshake_views(nics@) == all.take(i as int),
        {
            let ghost before = handshake_views(nics@);
            let row = &wire[i];
            let ghost want = all[i as int];
            assert(want == wire_nic(row@));
            let mut endpoints: Vec<RcEndpoint> = Vec::new();
            for j in 0..row.len()
                invariant
                    want == wire_nic(row@),
                    endpoint_views(endpoints@) == want.take(j as int),
            {
                let ghost before = endpoint_views(endpoints@);
                let (gid, lid, qp_num, psn) = row[j];
                endpoints.push(RcEndpoint { gid, lid, qp_num, psn });
                assert(endpoint_views(endpoints@) =~= before.push(want[j as int]));
                assert(endpoint_views(endpoints@) =~= want.take(j + 1));
            }
            assert(endpoint_views(endpoints@) =~= want);
            nics.push(NicHandshake { endpoints });
            assert(handshake_views(nics@) =~= before.push(want));
            assert(handshake_views(nics@) =~= all.take(i + 1));
        }
        assert(handshake_views(nics@) =~= all);
        Ok(HandshakeMetadata { nics })
    }

    pub fn from_bytes(bytes: &[u8]) -> (r: Result<Self, TransferError>)
        ensures
            handshake_result(r) == handshake_read(handshake_parsed(bytes@), bytes@.len()),
    {
        let parsed = match decode_handshake(bytes) {
            Ok(p) => Some(p),
            Err(_) => None,
        };
        HandshakeMetadata::from_parsed(parsed, bytes.len())
    }
}

/// Bytes that were written read as what was written: where bytes say a whole
/// descriptor, or whole metadata, reading them gives it.
pub proof fn law_whole_wire_forms_are_read(
    bytes: Seq<u8>,
    d: RegionDescriptorView,
    nics: Seq<Seq<EndpointView>>,
)
    ensures
        region_parsed(bytes) == Some((d.addr, d.len, d.rkeys, bytes.len())) ==> region_read(
            region_parsed(bytes),
            bytes.len(),
        ) == Ok::<RegionDescriptorView, TransferErrorView>(d),
        handshake_parsed(bytes) == Some((nics, bytes.len())) ==> handshake_read(
            handshake_parsed(bytes),
            bytes.len(),
        ) == Ok::<Seq<Seq<EndpointView>>, TransferErrorView>(nics),
{
}

} // verus!
