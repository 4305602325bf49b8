//! RDMA NIC topology: which NICs and GPUs share a NUMA node, from what was read
//! of the system.
//!
//! This is the foundation for RDMA NIC selection: given a GPU, pick the NIC(s)
//! on the same NUMA node for lowest-latency RDMA transfers.
use std::collections::HashMap;

use vstd::prelude::*;

use crate::rdma::numa;
use crate::rdma::numa::NumaNode;
use crate::sorted;
use crate::sorted::insert_sorted;
use crate::text;
use crate::text::{
    chars_of, copied, parse_signed, parse_unsigned, push_chars, spells, split, split_once,
    string_of, strip_prefix, trim, trim_start, word,
};
use crate::topology;
use crate::topology::normalize_domain;

verus! {

broadcast use vstd::std_specs::hash::group_hash_axioms;

/// GPU device information.
#[derive(Debug)]
pub struct GpuInfo {
    /// CUDA device ID (e.g. 0)
    pub device_id: u32,
    /// PCI address, e.g. "0000:19:00.0"
    pub pci_addr: String,
    /// NUMA node this GPU is attached to
    pub numa_node: NumaNode,
}

pub struct GpuInfoView {
    pub device_id: u32,
    pub pci_addr: Seq<char>,
    pub numa_node: NumaNode,
}

impl View for GpuInfo {
    type V = GpuInfoView;

    open spec fn view(&self) -> GpuInfoView {
        GpuInfoView {
            device_id: self.device_id,
            pci_addr: self.pci_addr@,
            numa_node: self.numa_node,
        }
    }
}

impl Clone for GpuInfo {
    fn clone(&self) -> (r: Self)
        ensures
            r@ == self@,
    {
        GpuInfo {
            device_id: self.device_id,
            pci_addr: copied(self.pci_addr.as_str()),
            numa_node: self.numa_node,
        }
    }
}

/// Single RDMA NIC information.
#[derive(Debug)]
pub struct RdmaNicInfo {
    /// Device name, e.g. "mlx5_0"
    pub name: String,
    /// PCI address, e.g. "0000:19:00.0"
    pub pci_addr: String,
    /// NUMA node this NIC is attached to
    pub numa_node: NumaNode,
}

pub struct RdmaNicInfoView {
    pub name: Seq<char>,
    pub pci_addr: Seq<char>,
    pub numa_node: NumaNode,
}

impl View for RdmaNicInfo {
    type V = RdmaNicInfoView;

    open spec fn view(&self) -> RdmaNicInfoView {
        RdmaNicInfoView {
            name: self.name@,
            pci_addr: self.pci_addr@,
            numa_node: self.numa_node,
        }
    }
}

impl Clone for RdmaNicInfo {
    fn clone(&self) -> (r: Self)
        ensures
            r@ == self@,
    {
        RdmaNicInfo {
            name: copied(self.name.as_str()),
            pci_addr: copied(self.pci_addr.as_str()),
            numa_node: self.numa_node,
        }
    }
}

pub open spec fn gpu_views(gpus: Seq<GpuInfo>) -> Seq<GpuInfoView> {
    Seq::new(gpus.len(), |i: int| gpus[i]@)
}

pub open spec fn nic_views(nics: Seq<RdmaNicInfo>) -> Seq<RdmaNicInfoView> {
    Seq::new(nics.len(), |i: int| nics[i]@)
}

// ---- sorting ----

/// Where a GPU belongs: behind those whose number is not greater.
pub open spec fn gpu_place(gpus: Seq<GpuInfoView>, id: u32) -> int
    decreases gpus.len(),
{
    if gpus.len() == 0 || gpus.last().device_id <= id {
        gpus.len() as int
    } else {
        gpu_place(gpus.drop_last(), id)
    }
}

/// The first `n` GPUs by number, equal ones in the order given.
pub open spec fn gpus_by_id(gpus: Seq<GpuInfoView>, n: nat) -> Seq<GpuInfoView>
    decreases n,
{
    if n == 0 {
        Seq::empty()
    } else {
        let before = gpus_by_id(gpus, (n - 1) as nat);
        before.insert(gpu_place(before, gpus[n - 1].device_id), gpus[n - 1])
    }
}

/// Whether a name does not come behind another one, character by character.
pub open spec fn name_le(a: Seq<char>, b: Seq<char>) -> bool
    decreases a.len(),
{
    if a.len() == 0 {
        true
    } else if b.len() == 0 {
        false
    } else if a[0] == b[0] {
        name_le(a.skip(1), b.skip(1))
    } else {
        a[0] < b[0]
    }
}

/// Where a NIC belongs: behind those whose name does not come behind its own.
pub open spec fn nic_place(nics: Seq<RdmaNicInfoView>, name: Seq<char>) -> int
    decreases nics.len(),
{
    if nics.len() == 0 || name_le(nics.last().name, name) {
        nics.len() as int
    } else {
        nic_place(nics.drop_last(), name)
    }
}

/// The first `n` NICs by name, equal ones in the order given.
pub open spec fn nics_by_name(nics: Seq<RdmaNicInfoView>, n: nat) -> Seq<RdmaNicInfoView>
    decreases n,
{
    if n == 0 {
        Seq::empty()
    } else {
        let before = nics_by_name(nics, (n - 1) as nat);
        before.insert(nic_place(before, nics[n - 1].name), nics[n - 1])
    }
}

/// Whether a name does not come behind another one.
fn not_behind(a: &[char], b: &[char]) -> (r: bool)
    ensures
        r == name_le(a@, b@),
{
    let mut i: usize = 0;
    assert(a@.skip(0) =~= a@);
    assert(b@.skip(0) =~= b@);
    while i < a.len() && i < b.len() && a[i] == b[i]
        invariant
            i <= a@.len(),
            i <= b@.len(),
            name_le(a@, b@) == name_le(a@.skip(i as int), b@.skip(i as int)),
        decreases a@.len() - i,
    {
        assert(a@.skip(i as int).skip(1) =~= a@.skip(i + 1));
        assert(b@.skip(i as int).skip(1) =~= b@.skip(i + 1));
        i = i + 1;
    }
    if i == a.len() {
        true
    } else if i == b.len() {
        false
    } else {
        a[i] < b[i]
    }
}

/// Put a GPU where it belongs.
fn insert_gpu(v: &mut Vec<GpuInfo>, gpu: GpuInfo)
    ensures
        gpu_views(final(v)@) == gpu_views(old(v)@).insert(
            gpu_place(gpu_views(old(v)@), gpu@.device_id),
            gpu@,
        ),
{
    let ghost all = gpu_views(v@);
    let mut i: usize = v.len();
    assert(all.take(all.len() as int) =~= all);
    while i > 0 && v[i - 1].device_id > gpu.device_id
        invariant
            i <= v@.len(),
            all == gpu_views(v@),
            gpu_place(all, gpu@.device_id) == gpu_place(all.take(i as int), gpu@.device_id),
        decreases i,
    {
        assert(all.take(i as int).drop_last() =~= all.take(i - 1));
        assert(all[i - 1] == v@[i - 1]@);
        i = i - 1;
    }
    proof {
        if i > 0 {
            assert(all.take(i as int).last() == v@[i - 1]@);
        }
    }
    let ghost view = gpu@;
    v.insert(i, gpu);
    assert(gpu_views(v@) =~= all.insert(i as int, view));
}

/// Put a NIC where it belongs.
fn insert_nic(v: &mut Vec<RdmaNicInfo>, nic: RdmaNicInfo)
    ensures
        nic_views(final(v)@) == nic_views(old(v)@).insert(
            nic_place(nic_views(old(v)@), nic@.name),
            nic@,
        ),
{
    let ghost all = nic_views(v@);
    let name = chars_of(nic.name.as_str());
    let mut i: usize = v.len();
    let mut more = i > 0;
    assert(all.take(all.len() as int) =~= all);
    while more
        invariant
            i <= v@.len(),
            more ==> i > 0,
            name@ == nic@.name,
            all == nic_views(v@),
            nic_place(all, nic@.name) == nic_place(all.take(i as int), nic@.name),
            !more ==> i == nic_place(all.take(i as int), nic@.name),
        decreases
            i + if more {
                1int
            } else {
                0int
            },
    {
        assert(all.take(i as int).drop_last() =~= all.take(i - 1));
        assert(all.take(i as int).last() == v@[i - 1]@);
        let other = chars_of(v[i - 1].name.as_str());
        if not_behind(other.as_slice(), name.as_slice()) {
            more = false;
        } else {
            i = i - 1;
            more = i > 0;
        }
    }
    let ghost view = nic@;
    v.insert(i, nic);
    assert(nic_views(v@) =~= all.insert(i as int, view));
}

// ---- addresses ----

/// A text in lower case.
pub uninterp spec fn lowercase(s: Seq<char>) -> Seq<char>;

/// Whether a text is all ASCII.
pub open spec fn is_ascii(s: Seq<char>) -> bool {
    forall|i: int| 0 <= i < s.len() ==> (#[trigger] s[i]) as u32 <= 0x7f
}

/// A text with the letters `A` to `Z` in lower case.
pub open spec fn ascii_lower(s: Seq<char>) -> Seq<char> {
    Seq::new(
        s.len(),
        |i: int|
            if 'A' <= s[i] <= 'Z' {
                (s[i] as u32 + 32) as char
            } else {
                s[i]
            },
    )
}

/// `str::to_lowercase` is a function of the text: its result is what
/// `lowercase` stands for. Of a text that is all ASCII it changes the letters
/// `A` to `Z` alone. What it makes of any other text is not stated.
#[verifier::external_body]
fn to_lowercase(s: &str) -> (r: String)
    ensures
        r@ == lowercase(s@),
        is_ascii(s@) ==> r@ == ascii_lower(s@),
{
    s.to_lowercase()
}

/// A lower-case address in sysfs form: a domain of four bytes at most, and one
/// of zeros where there is none.
pub open spec fn sysfs_addr(addr: Seq<char>) -> Seq<char> {
    let colons = text::split_by(addr, ':').len() - 1;
    if colons == 2 {
        topology::short_domain(addr)
    } else if colons == 1 {
        "0000:"@ + addr
    } else {
        addr
    }
}

/// A lower-case address in sysfs form.
pub fn normalize_lowercase(addr: &str) -> (r: String)
    ensures
        r@ == sysfs_addr(addr@),
{
    let chars = chars_of(addr);
    let n = split(chars.as_slice(), ':').len();
    if n == 3 {
        // Has domain: DDDD:BB:DD.F or DDDDDDDD:BB:DD.F
        normalize_domain(addr)
    } else if n == 2 {
        // No domain: BB:DD.F to 0000:BB:DD.F
        let mut out = String::new();
        out.append("0000:");
        push_chars(&mut out, chars.as_slice());
        assert(out@ =~= sysfs_addr(addr@));
        out
    } else {
        string_of(chars.as_slice())
    }
}

/// Normalize PCI address to sysfs 4-digit domain format.
///
/// nvidia-smi may return `00000000:19:00.0` (8-digit domain) or uppercase hex.
/// sysfs uses `0000:19:00.0` (4-digit, lowercase).
pub fn normalize_pci_addr(addr: &str) -> (r: String)
    ensures
        r@ == sysfs_addr(lowercase(text::trimmed(addr@))),
        is_ascii(text::trimmed(addr@)) ==> r@ == sysfs_addr(ascii_lower(text::trimmed(addr@))),
{
    let t = string_of(trim(chars_of(addr).as_slice()).as_slice());
    let lower = to_lowercase(t.as_str());
    normalize_lowercase(lower.as_str())
}

/// The node that a device's file names: unknown where it is negative, no number
/// or not there.
pub open spec fn file_node(content: Option<Seq<char>>) -> NumaNode {
    match content {
        Some(s) => match text::signed(text::trimmed(s)) {
            Some(v) => if v >= 0 {
                NumaNode(v as u32)
            } else {
                NumaNode(u32::MAX)
            },
            None => NumaNode(u32::MAX),
        },
        None => NumaNode(u32::MAX),
    }
}

/// Read the NUMA node of a PCI device from the content of its file.
pub fn read_numa_node(content: &Option<String>) -> (r: NumaNode)
    ensures
        r == file_node(topology::text_view(*content)),
{
    match content {
        Some(s) => {
            let t = trim(chars_of(s.as_str()).as_slice());
            match parse_signed(t.as_slice()) {
                Some(v) => if v >= 0 {
                    NumaNode(v as u32)
                } else {
                    NumaNode::unknown()
                },
                None => NumaNode::unknown(),
            }
        },
        None => NumaNode::unknown(),
    }
}

/// Resolve the NUMA node for an RDMA NIC, from the PCI address that its device
/// link names and the content of that device's file.
pub fn nic_numa_node(pci_addr: &Option<String>, content: &Option<String>) -> (r: NumaNode)
    ensures
        r == match topology::text_view(*pci_addr) {
            Some(addr) => if addr.len() == 0 {
                NumaNode(u32::MAX)
            } else {
                file_node(topology::text_view(*content))
            },
            None => NumaNode(u32::MAX),
        },
{
    match pci_addr {
        Some(addr) => if chars_of(addr.as_str()).len() == 0 {
            NumaNode::unknown()
        } else {
            read_numa_node(content)
        },
        None => NumaNode::unknown(),
    }
}

// ---- GPUs ----

/// What one line of the tool's output names: a device number and an address.
pub open spec fn smi_line(line: Seq<char>) -> Option<(u32, Seq<char>)> {
    match text::parted(line, ',') {
        None => None,
        Some((index, addr)) => match text::unsigned(text::trimmed(index), u32::MAX as nat) {
            None => None,
            Some(id) => Some((id as u32, sysfs_addr(lowercase(text::trimmed(addr))))),
        },
    }
}

/// What the first `n` lines name; the others are passed over.
pub open spec fn smi_lines(lines: Seq<Seq<char>>, n: nat) -> Seq<(u32, Seq<char>)>
    decreases n,
{
    if n == 0 {
        Seq::empty()
    } else {
        let before = smi_lines(lines, (n - 1) as nat);
        match smi_line(lines[n - 1]) {
            Some(g) => before.push(g),
            None => before,
        }
    }
}

pub open spec fn listed_views(list: Seq<(u32, String)>) -> Seq<(u32, Seq<char>)> {
    Seq::new(list.len(), |i: int| (list[i].0, list[i].1@))
}

/// The GPUs that the tool's output lists: number and PCI address of each.
pub fn parse_gpu_list(stdout: &str) -> (r: Vec<(u32, String)>)
    ensures
        listed_views(r@) == smi_lines(
            text::split_by(stdout@, '\n'),
            text::split_by(stdout@, '\n').len(),
        ),
{
    let lines = split(chars_of(stdout).as_slice(), '\n');
    let ghost views = text::char_views(lines@);
    let mut out: Vec<(u32, String)> = Vec::new();
    assert(listed_views(out@) =~= Seq::empty());
    for i in 0..lines.len()
        invariant
            views == text::char_views(lines@),
            listed_views(out@) == smi_lines(views, i as nat),
    {
        assert(views[i as int] == lines@[i as int]@);
        let ghost before = listed_views(out@);
        if let Some((index, addr)) = split_once(lines[i].as_slice(), ',') {
            let t = trim(index.as_slice());
            if let Some(id) = parse_unsigned(t.as_slice(), u32::MAX as u64) {
                let text = string_of(addr.as_slice());
                let pci_addr = normalize_pci_addr(text.as_str());
                let ghost view = pci_addr@;
                out.push((id as u32, pci_addr));
                assert(listed_views(out@) =~= before.push((id as u32, view)));
            }
        }
    }
    out
}

/// The GPUs of a list with the nodes that their files name, in the order given.
pub open spec fn listed_gpus(
    list: Seq<(u32, Seq<char>)>,
    files: Seq<Option<Seq<char>>>,
) -> Seq<GpuInfoView> {
    Seq::new(
        list.len(),
        |i: int|
            GpuInfoView {
                device_id: list[i].0,
                pci_addr: list[i].1,
                numa_node: file_node(files[i]),
            },
    )
}

pub open spec fn file_views(files: Seq<Option<String>>) -> Seq<Option<Seq<char>>> {
    Seq::new(files.len(), |i: int| topology::text_view(files[i]))
}

/// All GPUs with PCI address and NUMA affinity, by number: those of the tool's
/// list, with the content of each one's file.
pub fn detect_gpus(list: &Vec<(u32, String)>, files: &Vec<Option<String>>) -> (r: Vec<GpuInfo>)
    requires
        files@.len() == list@.len(),
    ensures
        gpu_views(r@) == gpus_by_id(
            listed_gpus(listed_views(list@), file_views(files@)),
            list@.len(),
        ),
{
    let ghost all = listed_gpus(listed_views(list@), file_views(files@));
    let mut out: Vec<GpuInfo> = Vec::new();
    assert(gpu_views(out@) =~= Seq::empty());
    for i in 0..list.len()
        invariant
            files@.len() == list@.len(),
            all == listed_gpus(listed_views(list@), file_views(files@)),
            gpu_views(out@) == gpus_by_id(all, i as nat),
    {
        let gpu = GpuInfo {
            device_id: list[i].0,
            pci_addr: copied(list[i].1.as_str()),
            numa_node: read_numa_node(&files[i]),
        };
        assert(gpu@ == all[i as int]);
        insert_gpu(&mut out, gpu);
    }
    out
}

// ---- NICs ----

/// What was read of one device directory: its name, the states of its ports,
/// the PCI address that its link names, and the content of that device's file.
/// What could not be read is absent.
pub struct NicDir {
    pub name: Option<String>,
    pub port_states: Option<Vec<Option<String>>>,
    pub pci_addr: Option<String>,
    pub numa: Option<String>,
}

pub struct NicDirView {
    pub name: Option<Seq<char>>,
    pub port_states: Option<Seq<Option<Seq<char>>>>,
    pub pci_addr: Option<Seq<char>>,
    pub numa: Option<Seq<char>>,
}

impl View for NicDir {
    type V = NicDirView;

    open spec fn view(&self) -> NicDirView {
        NicDirView {
            name: topology::text_view(self.name),
            port_states: match self.port_states {
                Some(states) => Some(file_views(states@)),
                None => None,
            },
            pci_addr: topology::text_view(self.pci_addr),
            numa: topology::text_view(self.numa),
        }
    }
}

/// Whether a port's state reads `4: ACTIVE`.
pub open spec fn is_active(state: Option<Seq<char>>) -> bool {
    state matches Some(s) && text::stripped(text::trimmed_start(s), "4:"@) is Some
}

/// Whether any port of a device is active.
pub open spec fn any_active(states: Option<Seq<Option<Seq<char>>>>) -> bool {
    match states {
        Some(s) => some_active(s),
        None => false,
    }
}

pub open spec fn some_active(states: Seq<Option<Seq<char>>>) -> bool {
    exists|i: int| 0 <= i < states.len() && #[trigger] is_active(states[i])
}

/// True if any port's state under the device reads `4: ACTIVE`.
pub fn nic_has_active_port(states: &Option<Vec<Option<String>>>) -> (r: bool)
    ensures
        r == any_active(
            match states {
                Some(s) => Some(file_views(s@)),
                None => None,
            },
        ),
{
    match states {
        None => false,
        Some(list) => {
            let ghost views = file_views(list@);
            for i in 0..list.len()
                invariant
                    views == file_views(list@),
                    *states == Some(*list),
                    forall|j: int| 0 <= j < i ==> !#[trigger] is_active(views[j]),
            {
                assert(views[i as int] == topology::text_view(list@[i as int]));
                if let Some(s) = &list[i] {
                    let t = trim_start(chars_of(s.as_str()).as_slice());
                    if strip_prefix(t.as_slice(), "4:").is_some() {
                        assert(is_active(views[i as int]));
                        assert(some_active(views));
                        return true;
                    }
                }
            }
            false
        },
    }
}

/// The NIC of a device directory: none without a name, an active port or an
/// address.
pub open spec fn dir_nic(dir: NicDirView) -> Option<RdmaNicInfoView> {
    if dir.name is None || !any_active(dir.port_states) || dir.pci_addr is None
        || dir.pci_addr->0.len() == 0 {
        None
    } else {
        Some(
            RdmaNicInfoView {
                name: dir.name->0,
                pci_addr: dir.pci_addr->0,
                numa_node: file_node(dir.numa),
            },
        )
    }
}

/// The NICs of the first `n` device directories.
pub open spec fn dir_nics(dirs: Seq<NicDirView>, n: nat) -> Seq<RdmaNicInfoView>
    decreases n,
{
    if n == 0 {
        Seq::empty()
    } else {
        let before = dir_nics(dirs, (n - 1) as nat);
        match dir_nic(dirs[n - 1]) {
            Some(nic) => before.push(nic),
            None => before,
        }
    }
}

pub open spec fn nic_dir_views(dirs: Seq<NicDir>) -> Seq<NicDirView> {
    Seq::new(dirs.len(), |i: int| dirs[i]@)
}

proof fn lemma_by_name_prefix(a: Seq<RdmaNicInfoView>, b: Seq<RdmaNicInfoView>, n: nat)
    requires
        n <= a.len(),
        n <= b.len(),
        forall|i: int| 0 <= i < n ==> a[i] == b[i],
    ensures
        nics_by_name(a, n) == nics_by_name(b, n),
    decreases n,
{
    if n > 0 {
        lemma_by_name_prefix(a, b, (n - 1) as nat);
    }
}

/// Enumerate all RDMA NICs, by name, from what was read of their directories.
/// Only NICs with a port that is actually up can carry traffic. On RoCE hosts
/// the live device is often the bond (mlx5_bond_0) while its slaves and unused
/// IB ports report DOWN.
pub fn enumerate_rdma_nics(dirs: &Vec<NicDir>) -> (r: Vec<RdmaNicInfo>)
    ensures
        nic_views(r@) == nics_by_name(
            dir_nics(nic_dir_views(dirs@), dirs@.len()),
            dir_nics(nic_dir_views(dirs@), dirs@.len()).len(),
        ),
{
    let ghost views = nic_dir_views(dirs@);
    let mut out: Vec<RdmaNicInfo> = Vec::new();
    assert(nic_views(out@) =~= Seq::empty());
    for i in 0..dirs.len()
        invariant
            views == nic_dir_views(dirs@),
            nic_views(out@) == nics_by_name(
                dir_nics(views, i as nat),
                dir_nics(views, i as nat).len(),
            ),
    {
        let dir = &dirs[i];
        assert(views[i as int] == dir@);
        let ghost before = dir_nics(views, i as nat);
        if let Some(name) = &dir.name {
            if nic_has_active_port(&dir.port_states) {
                if let Some(addr) = &dir.pci_addr {
                    if chars_of(addr.as_str()).len() > 0 {
                        let nic = RdmaNicInfo {
                            name: copied(name.as_str()),
                            pci_addr: copied(addr.as_str()),
                            numa_node: read_numa_node(&dir.numa),
                        };
                        proof {
                            let after = before.push(nic@);
                            assert(after == dir_nics(views, (i + 1) as nat));
                            lemma_by_name_prefix(before, after, before.len());
                        }
                        insert_nic(&mut out, nic);
                    }
                }
            }
        }
    }
    out
}

// ---- the system ----

/// NUMA-grouped topology: GPUs, NICs, and CPUs that share a NUMA node.
#[derive(Debug)]
pub struct NumaGroup {
    pub node: NumaNode,
    pub gpus: Vec<GpuInfo>,
    pub nics: Vec<RdmaNicInfo>,
    pub cpus: Vec<usize>,
}

#[verifier::ext_equal]
pub struct NumaGroupView {
    pub node: NumaNode,
    pub gpus: Seq<GpuInfoView>,
    pub nics: Seq<RdmaNicInfoView>,
    pub cpus: Seq<usize>,
}

impl View for NumaGroup {
    type V = NumaGroupView;

    open spec fn view(&self) -> NumaGroupView {
        NumaGroupView {
            node: self.node,
            gpus: gpu_views(self.gpus@),
            nics: nic_views(self.nics@),
            cpus: self.cpus@,
        }
    }
}

/// The first `n` GPUs, those on a node.
pub open spec fn gpus_on(gpus: Seq<GpuInfoView>, node: NumaNode, n: nat) -> Seq<GpuInfoView>
    decreases n,
{
    if n == 0 {
        Seq::empty()
    } else {
        let before = gpus_on(gpus, node, (n - 1) as nat);
        if gpus[n - 1].numa_node == node {
            before.push(gpus[n - 1])
        } else {
            before
        }
    }
}

/// The first `n` NICs, those on a node.
pub open spec fn nics_on(nics: Seq<RdmaNicInfoView>, node: NumaNode, n: nat) -> Seq<RdmaNicInfoView>
    decreases n,
{
    if n == 0 {
        Seq::empty()
    } else {
        let before = nics_on(nics, node, (n - 1) as nat);
        if nics[n - 1].numa_node == node {
            before.push(nics[n - 1])
        } else {
            before
        }
    }
}

/// What shares a node.
pub open spec fn group_of(
    gpus: Seq<GpuInfoView>,
    nics: Seq<RdmaNicInfoView>,
    cpus: Map<u32, Seq<usize>>,
    node: u32,
) -> NumaGroupView {
    let g = gpus_on(gpus, NumaNode(node), gpus.len());
    let n = nics_on(nics, NumaNode(node), nics.len());
    NumaGroupView {
        node: NumaNode(node),
        gpus: gpus_by_id(g, g.len()),
        nics: nics_by_name(n, n.len()),
        cpus: if cpus.contains_key(node) {
            cpus[node]
        } else {
            Seq::empty()
        },
    }
}

/// The nodes that anything is known of: those of GPUs and NICs that are on one,
/// and those that have CPUs.
pub open spec fn known_nodes(
    gpus: Seq<GpuInfoView>,
    nics: Seq<RdmaNicInfoView>,
    cpus: Map<u32, Seq<usize>>,
) -> Set<u32> {
    Set::new(
        |n: u32|
            {
                ||| cpus.contains_key(n)
                ||| n != u32::MAX && gpu_among(gpus, n, gpus.len() as int)
                ||| n != u32::MAX && nic_among(nics, n, nics.len() as int)
            },
    )
}

pub open spec fn node_cpu_views(m: Map<u32, Vec<usize>>) -> Map<u32, Seq<usize>> {
    m.map_values(|v: Vec<usize>| v@)
}

/// Whether groups are those of the known nodes, ascending.
pub open spec fn grouped(
    groups: Seq<NumaGroupView>,
    gpus: Seq<GpuInfoView>,
    nics: Seq<RdmaNicInfoView>,
    cpus: Map<u32, Seq<usize>>,
) -> bool {
    &&& forall|i: int, j: int|
        0 <= i < j < groups.len() ==> (#[trigger] groups[i]).node.0 < (#[trigger] groups[j]).node.0
    &&& forall|i: int|
        0 <= i < groups.len() ==> (#[trigger] groups[i]) == group_of(
            gpus,
            nics,
            cpus,
            groups[i].node.0,
        )
    &&& forall|n: u32| #[trigger]
        has_group(groups, n) <==> known_nodes(gpus, nics, cpus).contains(n)
}

pub open spec fn has_group(groups: Seq<NumaGroupView>, node: u32) -> bool {
    exists|i: int| 0 <= i < groups.len() && (#[trigger] groups[i]).node == NumaNode(node)
}

spec fn is_group(
    group: NumaGroupView,
    gpus: Seq<GpuInfoView>,
    nics: Seq<RdmaNicInfoView>,
    cpus: Map<u32, Seq<usize>>,
    id: u64,
) -> bool {
    id <= u32::MAX && group == group_of(gpus, nics, cpus, id as u32)
}

/// Complete system topology: GPUs + NICs + CPUs grouped by NUMA node.
pub struct SystemTopology {
    groups: Vec<NumaGroup>,
}

pub open spec fn group_views(groups: Seq<NumaGroup>) -> Seq<NumaGroupView> {
    Seq::new(groups.len(), |i: int| groups[i]@)
}

impl View for SystemTopology {
    type V = Seq<NumaGroupView>;

    closed spec fn view(&self) -> Seq<NumaGroupView> {
        group_views(self.groups@)
    }
}

pub open spec fn has_gpu(group: NumaGroupView, device_id: u32) -> bool {
    exists|i: int| 0 <= i < group.gpus.len() && (#[trigger] group.gpus[i]).device_id == device_id
}

/// The NICs of the first of the groups from `from` on that has the GPU.
pub open spec fn nics_beside(groups: Seq<NumaGroupView>, device_id: u32, from: nat) -> Seq<
    RdmaNicInfoView,
>
    decreases groups.len() - from,
{
    if from >= groups.len() {
        Seq::empty()
    } else if has_gpu(groups[from as int], device_id) {
        groups[from as int].nics
    } else {
        nics_beside(groups, device_id, from + 1)
    }
}

proof fn lemma_by_id_prefix(a: Seq<GpuInfoView>, b: Seq<GpuInfoView>, n: nat)
    requires
        n <= a.len(),
        n <= b.len(),
        forall|i: int| 0 <= i < n ==> a[i] == b[i],
    ensures
        gpus_by_id(a, n) == gpus_by_id(b, n),
    decreases n,
{
    if n > 0 {
        lemma_by_id_prefix(a, b, (n - 1) as nat);
    }
}

/// What shares a node.
fn build_group(
    gpus: &Vec<GpuInfo>,
    nics: &Vec<RdmaNicInfo>,
    cpus: &HashMap<u32, Vec<usize>>,
    node: u32,
) -> (r: NumaGroup)
    ensures
        r@ == group_of(gpu_views(gpus@), nic_views(nics@), node_cpu_views(cpus@), node),
{
    let ghost gv = gpu_views(gpus@);
    let ghost nv = nic_views(nics@);
    let mut group_gpus: Vec<GpuInfo> = Vec::new();
    assert(gpu_views(group_gpus@) =~= Seq::empty());
    for i in 0..gpus.len()
        invariant
            gv == gpu_views(gpus@),
            gpu_views(group_gpus@) == gpus_by_id(
                gpus_on(gv, NumaNode(node), i as nat),
                gpus_on(gv, NumaNode(node), i as nat).len(),
            ),
    {
        assert(gv[i as int] == gpus@[i as int]@);
        if gpus[i].numa_node.0 == node {
            proof {
                let before = gpus_on(gv, NumaNode(node), i as nat);
                let after = gpus_on(gv, NumaNode(node), (i + 1) as nat);
                assert(after == before.push(gv[i as int]));
                lemma_by_id_prefix(before, after, before.len());
            }
            insert_gpu(&mut group_gpus, gpus[i].clone());
        }
    }
    let mut group_nics: Vec<RdmaNicInfo> = Vec::new();
    assert(nic_views(group_nics@) =~= Seq::empty());
    for i in 0..nics.len()
        invariant
            nv == nic_views(nics@),
            nic_views(group_nics@) == nics_by_name(
                nics_on(nv, NumaNode(node), i as nat),
                nics_on(nv, NumaNode(node), i as nat).len(),
            ),
    {
        assert(nv[i as int] == nics@[i as int]@);
        if nics[i].numa_node.0 == node {
            proof {
                let before = nics_on(nv, NumaNode(node), i as nat);
                let after = nics_on(nv, NumaNode(node), (i + 1) as nat);
                assert(after == before.push(nv[i as int]));
                lemma_by_name_prefix(before, after, before.len());
            }
            insert_nic(&mut group_nics, nics[i].clone());
        }
    }
    let group_cpus: Vec<usize> = match cpus.get(&node) {
        Some(c) => vstd::slice::slice_to_vec(c.as_slice()),
        None => Vec::new(),
    };
    assert(group_cpus@ =~= group_of(gv, nv, node_cpu_views(cpus@), node).cpus);
    NumaGroup { node: NumaNode(node), gpus: group_gpus, nics: group_nics, cpus: group_cpus }
}

impl SystemTopology {
    /// Put together what was found: every known NUMA node with what shares it.
    pub fn detect(
        gpus: &Vec<GpuInfo>,
        nics: &Vec<RdmaNicInfo>,
        cpu_topo: &HashMap<u32, Vec<usize>>,
    ) -> (r: Self)
        ensures
            grouped(r@, gpu_views(gpus@), nic_views(nics@), node_cpu_views(cpu_topo@)),
    {
        let ghost gv = gpu_views(gpus@);
        let ghost nv = nic_views(nics@);
        let ghost cv = node_cpu_views(cpu_topo@);
        let mut ids: Vec<u64> = Vec::new();
        // Collect all known NUMA node IDs
        for i in 0..gpus.len()
            invariant
                gv == gpu_views(gpus@),
                sorted::ascending(ids@),
                forall|x: u64| #[trigger]
                    ids@.contains(x) <==> x < u32::MAX && gpu_among(gv, x as u32, i as int),
        {
            assert(gv[i as int] == gpus@[i as int]@);
            let ghost ids0 = ids@;
            if gpus[i].numa_node.is_valid() {
                insert_sorted(&mut ids, gpus[i].numa_node.0 as u64);
            }
            assert forall|x: u64| #[trigger]
                ids@.contains(x) <==> x < u32::MAX && gpu_among(gv, x as u32, i + 1) by {
                assert(ids0.contains(x) <==> x < u32::MAX && gpu_among(gv, x as u32, i as int));
            }
        }
        let ghost from_gpus = ids@;
        for i in 0..nics.len()
            invariant
                nv == nic_views(nics@),
                sorted::ascending(ids@),
                forall|x: u64| #[trigger]
                    ids@.contains(x) <==> from_gpus.contains(x) || x < u32::MAX && nic_among(
                        nv,
                        x as u32,
                        i as int,
                    ),
        {
            assert(nv[i as int] == nics@[i as int]@);
            let ghost ids0 = ids@;
            if nics[i].numa_node.is_valid() {
                insert_sorted(&mut ids, nics[i].numa_node.0 as u64);
            }
            assert forall|x: u64| #[trigger]
                ids@.contains(x) <==> from_gpus.contains(x) || x < u32::MAX && nic_among(
                    nv,
                    x as u32,
                    i + 1,
                ) by {
                assert(ids0.contains(x) <==> from_gpus.contains(x) || x < u32::MAX && nic_among(
                    nv,
                    x as u32,
                    i as int,
                ));
            }
        }
        let ghost from_both = ids@;
        let ghost mut done: Seq<u32> = Seq::empty();
        for k in it: cpu_topo.keys()
            invariant
                it.seq().unref().to_set() == cpu_topo@.dom(),
                done == it.seq().unref().take(it.index() as int),
                it.index() == it.seq().len() ==> done == it.seq().unref(),
                sorted::ascending(ids@),
                forall|x: u64| #[trigger]
                    ids@.contains(x) <==> from_both.contains(x) || x <= u32::MAX && done.contains(
                        x as u32,
                    ),
        {
            let ghost before = done;
            let ghost ids0 = ids@;
            insert_sorted(&mut ids, *k as u64);
            proof {
                done = done.push(*k);
                assert(done =~= it.seq().unref().take(it.index() as int + 1));
                assert forall|x: u64| #[trigger]
                    ids@.contains(x) <==> from_both.contains(x) || x <= u32::MAX && done.contains(
                        x as u32,
                    ) by {
                    assert(ids0.contains(x) <==> from_both.contains(x) || x <= u32::MAX
                        && before.contains(x as u32));
                    if x <= u32::MAX {
                        numa::lemma_push_contains(before, *k, x as u32);
                    }
                }
            }
        }
        let ghost known = known_nodes(gv, nv, cv);
        assert forall|x: u64| #[trigger]
            ids@.contains(x) <==> x <= u32::MAX && known.contains(x as u32) by {
            if x <= u32::MAX {
                assert(done.contains(x as u32) <==> done.to_set().contains(x as u32));
                assert(cv.contains_key(x as u32) <==> cpu_topo@.contains_key(x as u32));
            }
            assert(from_both.contains(x) <==> from_gpus.contains(x) || x < u32::MAX && nic_among(
                nv,
                x as u32,
                nv.len() as int,
            ));
            assert(from_gpus.contains(x) <==> x < u32::MAX && gpu_among(
                gv,
                x as u32,
                gv.len() as int,
            ));
        }
        // Build per-NUMA groups
        let mut groups: Vec<NumaGroup> = Vec::new();
        for i in 0..ids.len()
            invariant
                gv == gpu_views(gpus@),
                nv == nic_views(nics@),
                cv == node_cpu_views(cpu_topo@),
                known == known_nodes(gv, nv, cv),
                sorted::ascending(ids@),
                forall|x: u64| #[trigger]
                    ids@.contains(x) <==> x <= u32::MAX && known.contains(x as u32),
                groups@.len() == i,
                forall|j: int|
                    0 <= j < groups@.len() ==> is_group(
                        (#[trigger] groups@[j])@,
                        gv,
                        nv,
                        cv,
                        ids@[j],
                    ),
        {
            assert(ids@.contains(ids@[i as int]));
            let ghost before = groups@;
            groups.push(build_group(gpus, nics, cpu_topo, ids[i] as u32));
            assert forall|j: int| 0 <= j < groups@.len() implies is_group(
                (#[trigger] groups@[j])@,
                gv,
                nv,
                cv,
                ids@[j],
            ) by {
                if j < i {
                    assert(groups@[j] == before[j]);
                }
            }
        }
        let topo = SystemTopology { groups };
        proof {
            let views = topo@;
            assert forall|i: int| 0 <= i < views.len() implies (#[trigger] views[i]) == group_of(
                gv,
                nv,
                cv,
                views[i].node.0,
            ) && views[i].node.0 == ids@[i] by {
                assert(is_group(groups@[i]@, gv, nv, cv, ids@[i]));
            }
            assert forall|i: int, j: int| 0 <= i < j < views.len() implies (
            #[trigger] views[i]).node.0 < (#[trigger] views[j]).node.0 by {
                assert(ids@[i] < ids@[j]);
            }
            assert forall|n: u32| #[trigger] has_group(views, n) <==> known.contains(n) by {
                if known.contains(n) {
                    assert(ids@.contains(n as u64));
                    let c = ids@.index_of(n as u64);
                    assert(views[c].node == NumaNode(n));
                }
                if has_group(views, n) {
                    let i = choose|i: int|
                        0 <= i < views.len() && (#[trigger] views[i]).node == NumaNode(n);
                    assert(ids@.contains(ids@[i]));
                }
            }
        }
        topo
    }

    /// Get NICs on the same NUMA node as the given GPU.
    ///
    /// Returns an empty slice if the GPU is not found or has no co-located NICs.
    pub fn nics_for_gpu(&self, device_id: u32) -> (r: &[RdmaNicInfo])
        ensures
            nic_views(r@) == nics_beside(self@, device_id, 0),
    {
        for i in 0..self.groups.len()
            invariant
                nics_beside(self@, device_id, 0) == nics_beside(self@, device_id, i as nat),
        {
            let group = &self.groups[i];
            assert(self@[i as int] == group@);
            for j in 0..group.gpus.len()
                invariant
                    forall|x: int|
                        0 <= x < j ==> (#[trigger] group@.gpus[x]).device_id != device_id,
                    i < self@.len(),
                    self@[i as int] == group@,
                    nics_beside(self@, device_id, 0) == nics_beside(self@, device_id, i as nat),
            {
                assert(group@.gpus[j as int] == group.gpus@[j as int]@);
                if group.gpus[j].device_id == device_id {
                    assert(has_gpu(group@, device_id));
                    return group.nics.as_slice();
                }
            }
            assert(!has_gpu(self@[i as int], device_id));
        }
        let none: &[RdmaNicInfo] = &[];
        assert(nic_views(none@) =~= Seq::empty());
        none
    }

    /// Get all NUMA groups.
    pub fn groups(&self) -> (r: &[NumaGroup])
        ensures
            group_views(r@) == self@,
    {
        self.groups.as_slice()
    }
}

/// Whether one of the first `n` GPUs is on a node.
pub open spec fn gpu_among(gpus: Seq<GpuInfoView>, node: u32, n: int) -> bool
    decreases n,
{
    n > 0 && (gpu_among(gpus, node, n - 1) || gpus[n - 1].numa_node == NumaNode(node))
}

/// Whether one of the first `n` NICs is on a node.
pub open spec fn nic_among(nics: Seq<RdmaNicInfoView>, node: u32, n: int) -> bool
    decreases n,
{
    n > 0 && (nic_among(nics, node, n - 1) || nics[n - 1].numa_node == NumaNode(node))
}

// ---- PCIe ----

/// Whether a part of a path is a PCI address: it has a colon and a dot, and is
/// no domain root.
pub open spec fn is_pci_part(part: Seq<char>) -> bool {
    part.contains(':') && part.contains('.') && text::stripped(part, "pci"@) is None
}

/// The PCI addresses among the first `n` parts of a path.
pub open spec fn pci_parts(parts: Seq<Seq<char>>, n: nat) -> Seq<Seq<char>>
    decreases n,
{
    if n == 0 {
        Seq::empty()
    } else {
        let before = pci_parts(parts, (n - 1) as nat);
        if is_pci_part(parts[n - 1]) {
            before.push(parts[n - 1])
        } else {
            before
        }
    }
}

pub open spec fn string_views(v: Seq<String>) -> Seq<Seq<char>> {
    Seq::new(v.len(), |i: int| v[i]@)
}

fn holds(s: &[char], c: char) -> (r: bool)
    ensures
        r == s@.contains(c),
{
    for i in 0..s.len()
        invariant
            forall|j: int| 0 <= j < i ==> s@[j] != c,
    {
        if s[i] == c {
            assert(s@[i as int] == c);
            return true;
        }
    }
    false
}

/// Get the full PCIe device path from root port to device, from the device's
/// canonical path, if it could be resolved: the first element is the root port,
/// the last is the device itself, and intermediate elements are PCIe switch
/// ports.
pub fn get_pcie_path(canonical: Option<&str>) -> (r: Vec<String>)
    ensures
        match canonical {
            Some(path) => string_views(r@) == pci_parts(
                text::split_by(path@, '/'),
                text::split_by(path@, '/').len(),
            ),
            None => r@.len() == 0,
        },
{
    let mut out: Vec<String> = Vec::new();
    assert(string_views(out@) =~= Seq::empty());
    if let Some(path) = canonical {
        let parts = split(chars_of(path).as_slice(), '/');
        let ghost views = text::char_views(parts@);
        for i in 0..parts.len()
            invariant
                views == text::char_views(parts@),
                string_views(out@) == pci_parts(views, i as nat),
        {
            let part = parts[i].as_slice();
            assert(views[i as int] == part@);
            let ghost before = string_views(out@);
            if holds(part, ':') && holds(part, '.') && strip_prefix(part, "pci").is_none() {
                out.push(string_of(part));
                assert(string_views(out@) =~= before.push(part@));
            }
        }
    }
    out
}

/// The PCIe generation of a speed in GT/s.
pub open spec fn generation(speed: Seq<char>) -> Seq<char> {
    let token = text::first_word(speed);
    if token == "2.5"@ {
        "1.0"@
    } else if token == "5.0"@ {
        "2.0"@
    } else if token == "8.0"@ {
        "3.0"@
    } else if token == "16.0"@ {
        "4.0"@
    } else if token == "32.0"@ {
        "5.0"@
    } else if token == "64.0"@ {
        "6.0"@
    } else {
        "?"@
    }
}

/// Map a sysfs link speed string (e.g. "16.0 GT/s PCIe") to a PCIe generation
/// string (e.g. "4.0"). Returns "?" for unrecognised values.
pub fn gts_to_pcie_gen(speed: &str) -> (r: &'static str)
    ensures
        r@ == generation(speed@),
{
    let token = word(chars_of(speed).as_slice());
    let t = token.as_slice();
    if spells(t, "2.5") {
        "1.0"
    } else if spells(t, "5.0") {
        "2.0"
    } else if spells(t, "8.0") {
        "3.0"
    } else if spells(t, "16.0") {
        "4.0"
    } else if spells(t, "32.0") {
        "5.0"
    } else if spells(t, "64.0") {
        "6.0"
    } else {
        "?"
    }
}

/// What is known of a link: its generation and width, where both are.
pub open spec fn link_text(speed: Option<Seq<char>>, width: Option<Seq<char>>) -> Option<Seq<char>> {
    match (speed, width) {
        (Some(s), Some(w)) => if generation(text::trimmed(s)) == "?"@ || text::trimmed(w).len() == 0 {
            None
        } else {
            Some("PCIe "@ + generation(text::trimmed(s)) + " x"@ + text::trimmed(w))
        },
        _ => None,
    }
}

/// PCIe link speed and width as a formatted string like "PCIe 4.0 x16", from
/// the content of the device's files. Returns `None` if one is missing or says
/// nothing.
pub fn read_pcie_link_info(speed: &Option<String>, width: &Option<String>) -> (r: Option<String>)
    ensures
        topology::text_view(r) == link_text(topology::text_view(*speed), topology::text_view(*width)),
{
    let s = match speed {
        Some(s) => string_of(trim(chars_of(s.as_str()).as_slice()).as_slice()),
        None => return None,
    };
    let w = match width {
        Some(w) => trim(chars_of(w.as_str()).as_slice()),
        None => return None,
    };
    let pcie_gen = gts_to_pcie_gen(s.as_str());
    // Skip if generation is unrecognised or width is empty
    if spells(chars_of(pcie_gen).as_slice(), "?") || w.len() == 0 {
        return None;
    }
    let mut out = String::new();
    out.append("PCIe ");
    out.append(pcie_gen);
    out.append(" x");
    push_chars(&mut out, w.as_slice());
    assert(out@ =~= "PCIe "@ + pcie_gen@ + " x"@ + w@);
    Some(out)
}

/// A device with its address and, where it is known, its link.
pub open spec fn device_label(name: Seq<char>, addr: Seq<char>, link: Option<Seq<char>>) -> Seq<char> {
    match link {
        Some(l) => name + " ("@ + addr + ", "@ + l + ")"@,
        None => name + " ("@ + addr + ")"@,
    }
}

/// Format a PCI device label with address and optional PCIe link info.
///
/// Returns `"name (addr, PCIe X.0 xN)"` when link info is available,
/// or `"name (addr)"` otherwise.
pub fn format_pci_device(name: &str, pci_addr: &str, link: &Option<String>) -> (r: String)
    ensures
        r@ == device_label(name@, pci_addr@, topology::text_view(*link)),
{
    let mut out = String::new();
    out.append(name);
    out.append(" (");
    out.append(pci_addr);
    let ghost front = out@;
    assert(front =~= name@ + " ("@ + pci_addr@);
    if let Some(l) = link {
        out.append(", ");
        out.append(l.as_str());
    }
    out.append(")");
    assert(out@ =~= device_label(name@, pci_addr@, topology::text_view(*link)));
    out
}

// ---- laws ----

proof fn lemma_gpu_place(gpus: Seq<GpuInfoView>, id: u32)
    ensures
        0 <= gpu_place(gpus, id) <= gpus.len(),
        forall|j: int| gpu_place(gpus, id) <= j < gpus.len() ==> (#[trigger] gpus[j]).device_id > id,
        gpu_place(gpus, id) > 0 ==> gpus[gpu_place(gpus, id) - 1].device_id <= id,
    decreases gpus.len(),
{
    if gpus.len() > 0 && gpus.last().device_id > id {
        let before = gpus.drop_last();
        lemma_gpu_place(before, id);
        assert forall|j: int| gpu_place(gpus, id) <= j < gpus.len() implies (
        #[trigger] gpus[j]).device_id > id by {
            if j < before.len() {
                assert(before[j] == gpus[j]);
            }
        }
    }
}

proof fn lemma_nic_place(nics: Seq<RdmaNicInfoView>, name: Seq<char>)
    ensures
        0 <= nic_place(nics, name) <= nics.len(),
        forall|j: int|
            nic_place(nics, name) <= j < nics.len() ==> !name_le((#[trigger] nics[j]).name, name),
        nic_place(nics, name) > 0 ==> name_le(nics[nic_place(nics, name) - 1].name, name),
    decreases nics.len(),
{
    if nics.len() > 0 && !name_le(nics.last().name, name) {
        let before = nics.drop_last();
        lemma_nic_place(before, name);
        assert forall|j: int| nic_place(nics, name) <= j < nics.len() implies !name_le(
            (#[trigger] nics[j]).name,
            name,
        ) by {
            if j < before.len() {
                assert(before[j] == nics[j]);
            }
        }
    }
}

proof fn lemma_name_total(a: Seq<char>, b: Seq<char>)
    ensures
        name_le(a, b) || name_le(b, a),
    decreases a.len(),
{
    if a.len() > 0 && b.len() > 0 && a[0] == b[0] {
        lemma_name_total(a.skip(1), b.skip(1));
    }
}

proof fn lemma_name_transitive(a: Seq<char>, b: Seq<char>, c: Seq<char>)
    requires
        name_le(a, b),
        name_le(b, c),
    ensures
        name_le(a, c),
    decreases a.len(),
{
    if a.len() > 0 && b.len() > 0 && c.len() > 0 && a[0] == b[0] && b[0] == c[0] {
        lemma_name_transitive(a.skip(1), b.skip(1), c.skip(1));
    }
}

/// Sorting GPUs puts them in the order of their numbers and loses none.
pub proof fn law_gpus_are_sorted(gpus: Seq<GpuInfoView>, n: nat)
    requires
        n <= gpus.len(),
    ensures
        forall|i: int, j: int|
            0 <= i < j < gpus_by_id(gpus, n).len() ==> (#[trigger] gpus_by_id(
                gpus,
                n,
            )[i]).device_id <= (#[trigger] gpus_by_id(gpus, n)[j]).device_id,
        gpus_by_id(gpus, n).to_multiset() == gpus.take(n as int).to_multiset(),
    decreases n,
{
    if n == 0 {
        assert(gpus.take(0) =~= Seq::empty());
    } else {
        law_gpus_are_sorted(gpus, (n - 1) as nat);
        let before = gpus_by_id(gpus, (n - 1) as nat);
        let after = gpus_by_id(gpus, n);
        let g = gpus[n - 1];
        let p = gpu_place(before, g.device_id);
        lemma_gpu_place(before, g.device_id);
        assert forall|i: int, j: int| 0 <= i < j < after.len() implies (
        #[trigger] after[i]).device_id <= (#[trigger] after[j]).device_id by {
            let i0 = if i < p { i } else { i - 1 };
            let j0 = if j < p { j } else { j - 1 };
            assert(i != p ==> after[i] == before[i0]);
            assert(j != p ==> after[j] == before[j0]);
            if j == p && i < p - 1 {
                assert(before[i].device_id <= before[p - 1].device_id);
            }
        }
        vstd::seq_lib::to_multiset_insert(before, p, g);
        assert(gpus.take(n as int) =~= gpus.take(n - 1).push(g));
        vstd::seq_lib::to_multiset_build(gpus.take(n - 1), g);
    }
}

/// Sorting NICs puts them in the order of their names and loses none.
pub proof fn law_nics_are_sorted(nics: Seq<RdmaNicInfoView>, n: nat)
    requires
        n <= nics.len(),
    ensures
        forall|i: int, j: int|
            0 <= i < j < nics_by_name(nics, n).len() ==> name_le(
                (#[trigger] nics_by_name(nics, n)[i]).name,
                (#[trigger] nics_by_name(nics, n)[j]).name,
            ),
        nics_by_name(nics, n).to_multiset() == nics.take(n as int).to_multiset(),
    decreases n,
{
    if n == 0 {
        assert(nics.take(0) =~= Seq::empty());
    } else {
        law_nics_are_sorted(nics, (n - 1) as nat);
        let before = nics_by_name(nics, (n - 1) as nat);
        let after = nics_by_name(nics, n);
        let g = nics[n - 1];
        let p = nic_place(before, g.name);
        lemma_nic_place(before, g.name);
        assert forall|i: int, j: int| 0 <= i < j < after.len() implies name_le(
            (#[trigger] after[i]).name,
            (#[trigger] after[j]).name,
        ) by {
            let i0 = if i < p { i } else { i - 1 };
            let j0 = if j < p { j } else { j - 1 };
            assert(i != p ==> after[i] == before[i0]);
            assert(j != p ==> after[j] == before[j0]);
            if j == p {
                if i < p - 1 {
                    assert(name_le(before[i].name, before[p - 1].name));
                    lemma_name_transitive(before[i].name, before[p - 1].name, g.name);
                }
            } else if i == p {
                lemma_name_total(before[j0].name, g.name);
            }
        }
        vstd::seq_lib::to_multiset_insert(before, p, g);
        assert(nics.take(n as int) =~= nics.take(n - 1).push(g));
        vstd::seq_lib::to_multiset_build(nics.take(n - 1), g);
    }
}

proof fn lemma_by_id_from(gpus: Seq<GpuInfoView>, n: nat, j: int)
    requires
        n <= gpus.len(),
        0 <= j < gpus_by_id(gpus, n).len(),
    ensures
        gpus.contains(gpus_by_id(gpus, n)[j]),
    decreases n,
{
    if n > 0 {
        let before = gpus_by_id(gpus, (n - 1) as nat);
        let p = gpu_place(before, gpus[n - 1].device_id);
        lemma_gpu_place(before, gpus[n - 1].device_id);
        if j < p {
            lemma_by_id_from(gpus, (n - 1) as nat, j);
        } else if j > p {
            lemma_by_id_from(gpus, (n - 1) as nat, j - 1);
        } else {
            assert(gpus[n - 1] == gpus_by_id(gpus, n)[j]);
        }
    }
}

proof fn lemma_by_name_from(nics: Seq<RdmaNicInfoView>, n: nat, j: int)
    requires
        n <= nics.len(),
        0 <= j < nics_by_name(nics, n).len(),
    ensures
        nics.contains(nics_by_name(nics, n)[j]),
    decreases n,
{
    if n > 0 {
        let before = nics_by_name(nics, (n - 1) as nat);
        let p = nic_place(before, nics[n - 1].name);
        lemma_nic_place(before, nics[n - 1].name);
        if j < p {
            lemma_by_name_from(nics, (n - 1) as nat, j);
        } else if j > p {
            lemma_by_name_from(nics, (n - 1) as nat, j - 1);
        } else {
            assert(nics[n - 1] == nics_by_name(nics, n)[j]);
        }
    }
}

proof fn lemma_gpus_on(gpus: Seq<GpuInfoView>, node: NumaNode, n: nat, j: int)
    requires
        n <= gpus.len(),
        0 <= j < gpus_on(gpus, node, n).len(),
    ensures
        gpus_on(gpus, node, n)[j].numa_node == node,
        gpus.contains(gpus_on(gpus, node, n)[j]),
    decreases n,
{
    if n > 0 {
        let before = gpus_on(gpus, node, (n - 1) as nat);
        if j < before.len() {
            lemma_gpus_on(gpus, node, (n - 1) as nat, j);
        } else {
            assert(gpus[n - 1] == gpus_on(gpus, node, n)[j]);
        }
    }
}

proof fn lemma_nics_on(nics: Seq<RdmaNicInfoView>, node: NumaNode, n: nat, j: int)
    requires
        n <= nics.len(),
        0 <= j < nics_on(nics, node, n).len(),
    ensures
        nics_on(nics, node, n)[j].numa_node == node,
        nics.contains(nics_on(nics, node, n)[j]),
    decreases n,
{
    if n > 0 {
        let before = nics_on(nics, node, (n - 1) as nat);
        if j < before.len() {
            lemma_nics_on(nics, node, (n - 1) as nat, j);
        } else {
            assert(nics[n - 1] == nics_on(nics, node, n)[j]);
        }
    }
}

proof fn lemma_beside(groups: Seq<NumaGroupView>, device_id: u32, from: nat) -> (i: int)
    requires
        nics_beside(groups, device_id, from).len() > 0,
    ensures
        0 <= i < groups.len(),
        has_gpu(groups[i], device_id),
        nics_beside(groups, device_id, from) == groups[i].nics,
    decreases groups.len() - from,
{
    if has_gpu(groups[from as int], device_id) {
        from as int
    } else {
        lemma_beside(groups, device_id, from + 1)
    }
}

/// The NICs picked for a GPU are NICs of the system, on the NUMA node of a GPU
/// with that number.
pub proof fn law_nics_for_gpu_share_its_node(
    groups: Seq<NumaGroupView>,
    gpus: Seq<GpuInfoView>,
    nics: Seq<RdmaNicInfoView>,
    cpus: Map<u32, Seq<usize>>,
    device_id: u32,
    j: int,
)
    requires
        grouped(groups, gpus, nics, cpus),
        0 <= j < nics_beside(groups, device_id, 0).len(),
    ensures
        nics.contains(nics_beside(groups, device_id, 0)[j]),
        exists|i: int|
            0 <= i < gpus.len() && (#[trigger] gpus[i]).device_id == device_id && gpus[i].numa_node
                == nics_beside(groups, device_id, 0)[j].numa_node,
{
    let g = lemma_beside(groups, device_id, 0);
    let group = groups[g];
    let node = NumaNode(group.node.0);
    assert(group == group_of(gpus, nics, cpus, group.node.0));
    let on = nics_on(nics, node, nics.len());
    lemma_by_name_from(on, on.len(), j);
    let c = on.index_of(group.nics[j]);
    lemma_nics_on(nics, node, nics.len(), c);
    let x = choose|x: int|
        0 <= x < group.gpus.len() && (#[trigger] group.gpus[x]).device_id == device_id;
    let gon = gpus_on(gpus, node, gpus.len());
    lemma_by_id_from(gon, gon.len(), x);
    let d = gon.index_of(group.gpus[x]);
    lemma_gpus_on(gpus, node, gpus.len(), d);
    let i = gpus.index_of(group.gpus[x]);
    assert(gpus[i].device_id == device_id);
}

} // verus!
