//! Which port and which GID a NIC is driven through.
use vstd::prelude::*;

use crate::rdma::transfer;
use crate::rdma::transfer::{TransferError, TransferErrorView};
use crate::text;
use crate::text::{copied, push_decimal};

verus! {

#[derive(Clone, Copy, Debug, PartialEq, Eq, Structural)]
pub enum LinkLayer {
    Unspecified,
    InfiniBand,
    Ethernet,
}

#[derive(Clone, Copy, Debug, PartialEq, Eq, Structural)]
pub enum GidType {
    InfiniBand,
    RoceV1,
    RoceV2,
}

#[derive(Clone, Copy, Debug, PartialEq, Eq, Structural)]
pub enum Mtu {
    Mtu256,
    Mtu512,
    Mtu1024,
    Mtu2048,
    Mtu4096,
}

/// What was read of a port.
#[derive(Clone, Copy, Debug, PartialEq, Eq, Structural)]
pub struct PortAttr {
    pub active: bool,
    pub link_layer: LinkLayer,
    pub lid: u16,
    pub mtu: Mtu,
}

/// One entry of a device's GID table.
#[derive(Clone, Copy, Debug, PartialEq, Eq)]
pub struct GidEntry {
    pub port_num: u32,
    pub gid_index: u32,
    pub gid_type: GidType,
    pub gid: [u8; 16],
}

/// Whether a GID is all zero.
pub open spec fn zero_gid(gid: Seq<u8>) -> bool {
    forall|i: int| 0 <= i < gid.len() ==> gid[i] == 0
}

/// Whether a GID is a unicast link-local one: it starts with `fe80::/10`.
pub open spec fn local_gid(gid: Seq<u8>) -> bool {
    gid[0] == 0xfe && 0x80 <= gid[1] < 0xc0
}

impl GidEntry {
    pub fn is_zero(&self) -> (r: bool)
        ensures
            r == zero_gid(self.gid@),
    {
        for i in 0..16
            invariant
                forall|j: int| 0 <= j < i ==> self.gid@[j] == 0,
        {
            if self.gid[i] != 0 {
                assert(self.gid@[i as int] != 0);
                return false;
            }
        }
        true
    }

    pub fn is_unicast_link_local(&self) -> (r: bool)
        ensures
            r == local_gid(self.gid@),
    {
        let b: u8 = self.gid[1];
        assert((b & 0xc0 == 0x80) == (0x80 <= b && b < 0xc0)) by (bit_vector);
        self.gid[0] == 0xfe && b & 0xc0 == 0x80
    }

    /// Whether the entry is one of a port, and not empty.
    pub open spec fn of_port(self, port: u8) -> bool {
        self.port_num == port && !zero_gid(self.gid@)
    }

    /// Whether the entry is one that a port is driven through at the `rank`th
    /// choice: a routable RoCEv2 one, an InfiniBand one, any that is not
    /// link-local.
    pub open spec fn suits(self, port: u8, rank: int) -> bool {
        &&& self.of_port(port)
        &&& if rank == 0 {
            self.gid_type == GidType::RoceV2 && !local_gid(self.gid@)
        } else if rank == 1 {
            self.gid_type == GidType::InfiniBand
        } else {
            !local_gid(self.gid@)
        }
    }
}

/// Whether entry `i` is the first that suits at a rank.
pub open spec fn first_suiting(entries: Seq<GidEntry>, port: u8, rank: int, i: int) -> bool {
    &&& 0 <= i < entries.len()
    &&& entries[i].suits(port, rank)
    &&& forall|j: int| 0 <= j < i ==> !(#[trigger] entries[j]).suits(port, rank)
}

pub open spec fn none_suits(entries: Seq<GidEntry>, port: u8, rank: int) -> bool {
    forall|j: int| 0 <= j < entries.len() ==> !(#[trigger] entries[j]).suits(port, rank)
}

/// Whether entry `i` is the best: the first at the best rank that any suits.
/// RoCEv1 cannot be routed across L3; only RoCEv2 works cross-machine.
pub open spec fn is_best(entries: Seq<GidEntry>, port: u8, i: int) -> bool {
    ||| first_suiting(entries, port, 0, i)
    ||| none_suits(entries, port, 0) && first_suiting(entries, port, 1, i)
    ||| none_suits(entries, port, 0) && none_suits(entries, port, 1) && first_suiting(
        entries,
        port,
        2,
        i,
    )
}

/// Whether no entry can be used.
pub open spec fn none_best(entries: Seq<GidEntry>, port: u8) -> bool {
    none_suits(entries, port, 0) && none_suits(entries, port, 1) && none_suits(entries, port, 2)
}

fn find(entries: &Vec<GidEntry>, port: u8, rank: u8) -> (r: Option<usize>)
    requires
        rank <= 2,
    ensures
        match r {
            Some(i) => first_suiting(entries@, port, rank as int, i as int),
            None => none_suits(entries@, port, rank as int),
        },
{
    for i in 0..entries.len()
        invariant
            rank <= 2,
            forall|j: int| 0 <= j < i ==> !(#[trigger] entries@[j]).suits(port, rank as int),
    {
        let e = &entries[i];
        if e.port_num == port as u32 && !e.is_zero() {
            let suits = if rank == 0 {
                e.gid_type == GidType::RoceV2 && !e.is_unicast_link_local()
            } else if rank == 1 {
                e.gid_type == GidType::InfiniBand
            } else {
                !e.is_unicast_link_local()
            };
            if suits {
                return Some(i);
            }
        }
    }
    None
}

/// The best entry for a port: RoCEv2, not link-local > InfiniBand > any that is
/// not link-local.
pub fn pick_gid(entries: &Vec<GidEntry>, port: u8) -> (r: Option<usize>)
    ensures
        match r {
            Some(i) => is_best(entries@, port, i as int),
            None => none_best(entries@, port),
        },
{
    if let Some(i) = find(entries, port, 0) {
        return Some(i);
    }
    if let Some(i) = find(entries, port, 1) {
        return Some(i);
    }
    find(entries, port, 2)
}

/// What a NIC is driven through. Without a picked GID, the one at index 0 of
/// the port is to be asked for.
#[derive(Clone, Copy, Debug)]
pub struct PortChoice {
    pub port_num: u8,
    pub link_layer: LinkLayer,
    pub lid: u16,
    pub mtu: Mtu,
    /// The entry of the GID table.
    pub entry: Option<usize>,
}

/// What one port decides: nothing where it is not active, a refusal, or its
/// LID.
pub open spec fn port_verdict(nic: Seq<char>, port: nat, attr: PortAttr) -> Option<
    Result<u16, TransferErrorView>,
> {
    if !attr.active {
        None
    } else {
        match attr.link_layer {
            LinkLayer::InfiniBand => if attr.lid == 0 {
                Some(
                    Err(
                        TransferErrorView::Backend(
                            "invalid zero LID for InfiniBand nic="@ + nic + ", port="@ + text::decimal(
                                port,
                            ),
                        ),
                    ),
                )
            } else {
                Some(Ok(attr.lid))
            },
            LinkLayer::Ethernet => Some(Ok(0)),
            LinkLayer::Unspecified => Some(
                Err(
                    TransferErrorView::Backend(
                        "unsupported link layer on nic="@ + nic + ", port="@ + text::decimal(port)
                            + ": Unspecified"@,
                    ),
                ),
            ),
        }
    }
}

pub open spec fn attr_view(r: Result<PortAttr, String>) -> Result<PortAttr, Seq<char>> {
    match r {
        Ok(a) => Ok(a),
        Err(e) => Err(e@),
    }
}

pub open spec fn attr_views(ports: Seq<Result<PortAttr, String>>) -> Seq<
    Result<PortAttr, Seq<char>>,
> {
    Seq::new(ports.len(), |i: int| attr_view(ports[i]))
}

/// The port that decides, from the one at `from` on, and what it decides: the
/// first that is active or cannot be read.
pub open spec fn deciding_port(
    nic: Seq<char>,
    ports: Seq<Result<PortAttr, Seq<char>>>,
    from: nat,
) -> Result<(nat, u16), TransferErrorView>
    decreases ports.len() - from,
{
    if from >= ports.len() {
        Err(TransferErrorView::Backend("no active port found on selected NIC"@))
    } else {
        match ports[from as int] {
            Err(e) => Err(TransferErrorView::Backend(e)),
            Ok(attr) => match port_verdict(nic, from + 1, attr) {
                None => deciding_port(nic, ports, from + 1),
                Some(Ok(lid)) => Ok((from, lid)),
                Some(Err(e)) => Err(e),
            },
        }
    }
}

/// Whether a choice is the right one.
pub open spec fn is_choice(
    nic: Seq<char>,
    ports: Seq<Result<PortAttr, Seq<char>>>,
    entries: Seq<GidEntry>,
    r: Result<PortChoice, TransferErrorView>,
) -> bool {
    match deciding_port(nic, ports, 0) {
        Err(e) => r == Err::<PortChoice, TransferErrorView>(e),
        Ok((i, lid)) => r matches Ok(c) && c.port_num == i + 1 && c.lid == lid && ports[i as int]
            is Ok && c.link_layer == ports[i as int]->Ok_0.link_layer && c.mtu
            == ports[i as int]->Ok_0.mtu && match c.entry {
            Some(e) => is_best(entries, c.port_num, e as int),
            None => none_best(entries, c.port_num),
        },
    }
}

/// Choose the port and the GID that a NIC is driven through, from what was read
/// of its ports (numbered from 1) and its GID table.
pub fn choose_port_and_gid(
    nic: &str,
    ports: &Vec<Result<PortAttr, String>>,
    entries: &Vec<GidEntry>,
) -> (r: Result<PortChoice, TransferError>)
    requires
        ports@.len() <= u8::MAX,
    ensures
        is_choice(nic@, attr_views(ports@), entries@, transfer::transfer_view(r)),
{
    let ghost views = attr_views(ports@);
    for i in 0..ports.len()
        invariant
            views == attr_views(ports@),
            ports@.len() <= u8::MAX,
            deciding_port(nic@, views, 0) == deciding_port(nic@, views, i as nat),
    {
        assert(views[i as int] == attr_view(ports@[i as int]));
        let port_num: u8 = (i + 1) as u8;
        let attr = match &ports[i] {
            Ok(attr) => *attr,
            Err(e) => return Err(TransferError::Backend(copied(e.as_str()))),
        };
        if attr.active {
            let lid: u16 = match attr.link_layer {
                LinkLayer::InfiniBand => {
                    if attr.lid == 0 {
                        let mut m = String::new();
                        m.append("invalid zero LID for InfiniBand nic=");
                        m.append(nic);
                        m.append(", port=");
                        push_decimal(&mut m, port_num as u64);
                        assert(m@ =~= "invalid zero LID for InfiniBand nic="@ + nic@ + ", port="@
                            + text::decimal(port_num as nat));
                        return Err(TransferError::Backend(m));
                    }
                    attr.lid
                },
                LinkLayer::Ethernet => 0,
                LinkLayer::Unspecified => {
                    let mut m = String::new();
                    m.append("unsupported link layer on nic=");
                    m.append(nic);
                    m.append(", port=");
                    push_decimal(&mut m, port_num as u64);
                    m.append(": Unspecified");
                    assert(m@ =~= "unsupported link layer on nic="@ + nic@ + ", port="@
                        + text::decimal(port_num as nat) + ": Unspecified"@);
                    return Err(TransferError::Backend(m));
                },
            };
            let entry = pick_gid(entries, port_num);
            return Ok(
                PortChoice { port_num, link_layer: attr.link_layer, lid, mtu: attr.mtu, entry },
            );
        }
    }
    Err(TransferError::Backend(copied("no active port found on selected NIC")))
}

/// The GID index and the GID of a choice: those of its entry, or index 0 with
/// what was answered for it.
pub fn chosen_gid(
    choice: &PortChoice,
    entries: &Vec<GidEntry>,
    fallback: Result<[u8; 16], String>,
) -> (r: Result<(u8, [u8; 16]), TransferError>)
    requires
        choice.entry is Some ==> choice.entry->0 < entries@.len(),
    ensures
        match choice.entry {
            Some(i) => r matches Ok(g) && g.0 == entries@[i as int].gid_index % 0x100 && g.1
                == entries@[i as int].gid,
            None => match fallback {
                Ok(gid) => r matches Ok(g) && g.0 == 0 && g.1 == gid,
                Err(e) => r matches Err(x) && x@ == TransferErrorView::Backend(e@),
            },
        },
{
    match choice.entry {
        Some(i) => Ok(((entries[i].gid_index % 0x100) as u8, entries[i].gid)),
        None => match fallback {
            Ok(gid) => Ok((0, gid)),
            Err(e) => Err(TransferError::Backend(e)),
        },
    }
}

/// A routable RoCEv2 GID is always preferred: where a port has one, what is
/// chosen is one.
pub proof fn law_routable_gid_is_preferred(entries: Seq<GidEntry>, port: u8, i: int, k: int)
    requires
        is_best(entries, port, i),
        0 <= k < entries.len(),
        entries[k].suits(port, 0),
    ensures
        entries[i].gid_type == GidType::RoceV2,
        !local_gid(entries[i].gid@),
        i <= k,
{
    assert(!none_suits(entries, port, 0));
}

/// There is one best entry.
pub proof fn law_best_gid_is_unique(entries: Seq<GidEntry>, port: u8, i: int, j: int)
    requires
        is_best(entries, port, i),
        is_best(entries, port, j),
    ensures
        i == j,
{
}

} // verus!
