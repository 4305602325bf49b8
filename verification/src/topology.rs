//! NUMA / GPU topology. Drives the distance function and thread pinning for
//! first-touch allocation.
use std::collections::HashMap;

use vstd::prelude::*;

use crate::sorted;
use crate::sorted::insert_sorted;
use crate::text;
use crate::text::{chars_of, parse_signed, parse_unsigned, push_chars, push_decimal, split, split_once, string_of, strip_prefix, tail_bytes, trim};
use crate::types::Device;

verus! {

broadcast use vstd::std_specs::hash::group_hash_axioms;

/// How far apart two devices are, given the NUMA node that each GPU hangs off.
pub open spec fn distance(gpu_numa: Map<u16, u16>, a: Device, b: Device) -> u32 {
    if a == b {
        0
    } else {
        match (a, b) {
            (Device::Gpu { .. }, Device::Gpu { .. }) => 1,
            (Device::Cpu { numa }, Device::Gpu { index }) => host_link(gpu_numa, numa, index),
            (Device::Gpu { index }, Device::Cpu { numa }) => host_link(gpu_numa, numa, index),
            (Device::Cpu { .. }, Device::Cpu { .. }) => 3,
        }
    }
}

/// The distance between a NUMA node and a GPU.
pub open spec fn host_link(gpu_numa: Map<u16, u16>, numa: u16, index: u16) -> u32 {
    if !gpu_numa.contains_key(index) {
        3
    } else if gpu_numa[index] == numa {
        2
    } else {
        4
    }
}

/// Distance is the same both ways, and nothing but a device itself is at
/// distance 0.
pub proof fn law_distance_is_symmetric(gpu_numa: Map<u16, u16>, a: Device, b: Device)
    ensures
        distance(gpu_numa, a, b) == distance(gpu_numa, b, a),
        distance(gpu_numa, a, b) == 0 <==> a == b,
{
}

/// A GPU is nearest to itself, then to other GPUs, then to the memory of its own
/// socket, then to memory of which nothing is known, then to the memory of
/// another socket.
pub proof fn law_distances_are_ordered(
    gpu_numa: Map<u16, u16>,
    gpu: u16,
    other: u16,
    local: u16,
    remote: u16,
    unknown: u16,
)
    requires
        gpu != other,
        local != remote,
        gpu_numa.contains_key(gpu),
        gpu_numa[gpu] == local,
        !gpu_numa.contains_key(unknown),
    ensures
        ({
            let g = Device::Gpu { index: gpu };
            let peer = distance(gpu_numa, g, Device::Gpu { index: other });
            let near = distance(gpu_numa, g, Device::Cpu { numa: local });
            let far = distance(gpu_numa, g, Device::Cpu { numa: remote });
            let untold = distance(
                gpu_numa,
                Device::Gpu { index: unknown },
                Device::Cpu { numa: local },
            );
            distance(gpu_numa, g, g) < peer < near < untold < far
        }),
{
}

pub struct Topology {
    /// NUMA nodes that actually have CPUs and memory, ascending.
    pub numa_nodes: Vec<u16>,
    pub cpus_by_numa: HashMap<u16, Vec<usize>>,
    /// GPU index to NUMA node (absent if unknown).
    pub gpu_numa: HashMap<u16, u16>,
}

#[verifier::ext_equal]
pub struct TopologyView {
    pub numa_nodes: Seq<u16>,
    pub cpus_by_numa: Map<u16, Seq<usize>>,
    pub gpu_numa: Map<u16, u16>,
}

pub open spec fn cpu_views(m: Map<u16, Vec<usize>>) -> Map<u16, Seq<usize>> {
    m.map_values(|v: Vec<usize>| v@)
}

impl View for Topology {
    type V = TopologyView;

    open spec fn view(&self) -> TopologyView {
        TopologyView {
            numa_nodes: self.numa_nodes@,
            cpus_by_numa: cpu_views(self.cpus_by_numa@),
            gpu_numa: self.gpu_numa@,
        }
    }
}

// ---- parsing ----

/// The numbers from `a` to `b`, both included.
pub open spec fn run_of(a: nat, b: nat) -> Seq<usize> {
    Seq::new(
        if a <= b {
            (b - a + 1) as nat
        } else {
            0
        },
        |i: int| (a + i) as usize,
    )
}

/// The CPUs of one part of a list: a number or a range. Anything else is none.
pub open spec fn part_cpus(part: Seq<char>) -> Seq<usize> {
    match text::parted(part, '-') {
        Some((a, b)) => match (text::unsigned(a, usize::MAX as nat), text::unsigned(b, usize::MAX as nat)) {
            (Some(x), Some(y)) => run_of(x, y),
            _ => Seq::empty(),
        },
        None => match text::unsigned(part, usize::MAX as nat) {
            Some(v) => seq![v as usize],
            None => Seq::empty(),
        },
    }
}

/// The CPUs of the first `n` parts of a list.
pub open spec fn parts_cpus(parts: Seq<Seq<char>>, n: nat) -> Seq<usize>
    decreases n,
{
    if n == 0 {
        Seq::empty()
    } else {
        parts_cpus(parts, (n - 1) as nat) + part_cpus(parts[n - 1])
    }
}

/// The CPUs of a list such as `0-3,8`; what is malformed is passed over.
pub open spec fn lenient_cpus(s: Seq<char>) -> Seq<usize> {
    parts_cpus(text::split_by(s, ','), text::split_by(s, ',').len())
}

/// Add the numbers from `a` to `b`, both included.
pub fn push_run(out: &mut Vec<usize>, a: usize, b: usize)
    ensures
        final(out)@ == old(out)@ + run_of(a as nat, b as nat),
{
    if a <= b {
        let n: usize = b - a;
        out.push(a);
        assert(out@ =~= old(out)@ + run_of(a as nat, a as nat));
        for i in 0..n
            invariant
                n == b - a,
                a <= b,
                out@ == old(out)@ + run_of(a as nat, (a + i) as nat),
        {
            out.push(a + i + 1);
            assert(out@ =~= old(out)@ + run_of(a as nat, (a + i + 1) as nat));
        }
    } else {
        assert(out@ =~= old(out)@ + run_of(a as nat, b as nat));
    }
}

/// The CPUs of a list such as `0-3,8`; what is malformed is passed over.
pub fn parse_cpulist(s: &[char]) -> (r: Vec<usize>)
    ensures
        r@ == lenient_cpus(s@),
{
    let mut out: Vec<usize> = Vec::new();
    let parts = split(s, ',');
    let ghost views = text::char_views(parts@);
    for i in 0..parts.len()
        invariant
            views == text::char_views(parts@),
            out@ == parts_cpus(views, i as nat),
    {
        let part = &parts[i];
        assert(views[i as int] == part@);
        let ghost before = out@;
        match split_once(part.as_slice(), '-') {
            Some((a, b)) => {
                let x = parse_unsigned(a.as_slice(), usize::MAX as u64);
                let y = parse_unsigned(b.as_slice(), usize::MAX as u64);
                if let Some(x) = x {
                    if let Some(y) = y {
                        push_run(&mut out, x as usize, y as usize);
                    }
                }
            },
            None => if let Some(v) = parse_unsigned(part.as_slice(), usize::MAX as u64) {
                out.push(v as usize);
            },
        }
        assert(out@ =~= before + part_cpus(part@));
    }
    out
}

/// The NUMA node that a directory is named after.
pub open spec fn node_id(name: Seq<char>) -> Option<u16> {
    match text::stripped(name, "node"@) {
        Some(rest) => match text::unsigned(rest, u16::MAX as nat) {
            Some(v) => Some(v as u16),
            None => None,
        },
        None => None,
    }
}

/// The CPUs of each node, from the names and CPU lists of the first `n`
/// directories; memory-only nodes are passed over.
pub open spec fn node_cpus(nodes: Seq<(Seq<char>, Seq<char>)>, n: nat) -> Map<u16, Seq<usize>>
    decreases n,
{
    if n == 0 {
        Map::empty()
    } else {
        let before = node_cpus(nodes, (n - 1) as nat);
        let cpus = lenient_cpus(text::trimmed(nodes[n - 1].1));
        match node_id(nodes[n - 1].0) {
            Some(id) => if cpus.len() > 0 {
                before.insert(id, cpus)
            } else {
                before
            },
            None => before,
        }
    }
}

/// The CPUs of each node; where none is known, one node has them all.
pub open spec fn all_cpus(nodes: Seq<(Seq<char>, Seq<char>)>, num_cpus: usize) -> Map<
    u16,
    Seq<usize>,
> {
    let found = node_cpus(nodes, nodes.len());
    if found.dom() == Set::<u16>::empty() {
        Map::empty().insert(0u16, Seq::new(num_cpus as nat, |i: int| i as usize))
    } else {
        found
    }
}

/// The node that a device's file names: not negative, cut to 16 bits.
pub open spec fn named_node(content: Option<Seq<char>>) -> Option<u16> {
    match content {
        Some(s) => match text::signed(text::trimmed(s)) {
            Some(v) => if v >= 0 {
                Some((v % 0x1_0000) as u16)
            } else {
                None
            },
            None => None,
        },
        None => None,
    }
}

/// The node of a device, from its file under either form of its address; the
/// first that names one counts.
pub open spec fn device_node(first: Option<Seq<char>>, second: Option<Seq<char>>) -> Option<u16> {
    match named_node(first) {
        Some(n) => Some(n),
        None => named_node(second),
    }
}

/// What was read of one GPU: its index and its file under the address as given
/// and with a short domain.
pub struct GpuFiles {
    pub index: u16,
    pub plain: Option<String>,
    pub short: Option<String>,
}

pub struct GpuFilesView {
    pub index: u16,
    pub plain: Option<Seq<char>>,
    pub short: Option<Seq<char>>,
}

pub open spec fn text_view(s: Option<String>) -> Option<Seq<char>> {
    match s {
        Some(s) => Some(s@),
        None => None,
    }
}

impl View for GpuFiles {
    type V = GpuFilesView;

    open spec fn view(&self) -> GpuFilesView {
        GpuFilesView {
            index: self.index,
            plain: text_view(self.plain),
            short: text_view(self.short),
        }
    }
}

/// The node of each of the first `n` GPUs that hangs off a node with CPUs.
pub open spec fn gpu_nodes(gpus: Seq<GpuFilesView>, known: Set<u16>, n: nat) -> Map<u16, u16>
    decreases n,
{
    if n == 0 {
        Map::empty()
    } else {
        let before = gpu_nodes(gpus, known, (n - 1) as nat);
        let g = gpus[n - 1];
        match device_node(g.plain, g.short) {
            Some(node) => if known.contains(node) {
                before.insert(g.index, node)
            } else {
                before
            },
            None => before,
        }
    }
}

pub open spec fn gpu_files_views(gpus: Seq<GpuFiles>) -> Seq<GpuFilesView> {
    Seq::new(gpus.len(), |i: int| gpus[i]@)
}

pub open spec fn node_files_views(nodes: Seq<(String, String)>) -> Seq<(Seq<char>, Seq<char>)> {
    Seq::new(nodes.len(), |i: int| (nodes[i].0@, nodes[i].1@))
}

/// Whether a list holds the keys of a map, ascending.
pub open spec fn lists_keys<V>(list: Seq<u16>, m: Map<u16, V>) -> bool {
    &&& forall|i: int, j: int| 0 <= i < j < list.len() ==> #[trigger] list[i] < #[trigger] list[j]
    &&& forall|k: u16| #[trigger] list.contains(k) <==> m.contains_key(k)
}

/// The node that a device's file names.
fn read_node(content: &Option<String>) -> (r: Option<u16>)
    ensures
        r == named_node(text_view(*content)),
{
    match content {
        Some(s) => {
            let chars = chars_of(s.as_str());
            let t = trim(chars.as_slice());
            match parse_signed(t.as_slice()) {
                Some(v) => if v >= 0 {
                    Some((v as u32 % 0x1_0000) as u16)
                } else {
                    None
                },
                None => None,
            }
        },
        None => None,
    }
}

/// The node of a device, from its file under either form of its address.
pub fn pci_numa(gpu: &GpuFiles) -> (r: Option<u16>)
    ensures
        r == device_node(gpu@.plain, gpu@.short),
{
    match read_node(&gpu.plain) {
        Some(n) => Some(n),
        None => read_node(&gpu.short),
    }
}

/// An address with four bytes of domain at most.
pub open spec fn short_domain(bus: Seq<char>) -> Seq<char> {
    match text::parted(bus, ':') {
        Some((domain, rest)) => if text::byte_len(domain) > 4 {
            match text::last_bytes(domain, 4) {
                Some(tail) => tail.push(':') + rest,
                None => bus,
            }
        } else {
            bus
        },
        None => bus,
    }
}

/// `00000008:06:00.0` to `0008:06:00.0` (sysfs uses a 4-digit domain).
pub fn normalize_domain(bus: &str) -> (r: String)
    ensures
        r@ == short_domain(bus@),
{
    let chars = chars_of(bus);
    if let Some((domain, rest)) = split_once(chars.as_slice(), ':') {
        if let Ok(Some(tail)) = tail_bytes(domain.as_slice(), 4) {
            let mut out = string_of(tail.as_slice());
            out.push(':');
            push_chars(&mut out, rest.as_slice());
            assert(out@ =~= short_domain(bus@));
            return out;
        }
    }
    string_of(chars.as_slice())
}

// ---- text ----

/// A list of numbers as `[0, 1]`, up to the first `n`.
pub open spec fn list_text(nodes: Seq<u16>, n: nat) -> Seq<char>
    decreases n,
{
    if n == 0 {
        "["@
    } else if n == 1 {
        "["@ + text::decimal(nodes[0] as nat)
    } else {
        list_text(nodes, (n - 1) as nat) + ", "@ + text::decimal(nodes[n - 1] as nat)
    }
}

/// The GPUs below `n` that are known, with their nodes, ascending.
pub open spec fn gpus_text(gpu_numa: Map<u16, u16>, n: nat) -> Seq<char>
    decreases n,
{
    if n == 0 {
        Seq::empty()
    } else {
        let before = gpus_text(gpu_numa, (n - 1) as nat);
        let g = (n - 1) as u16;
        if gpu_numa.contains_key(g) {
            before + "; gpu"@ + text::decimal(g as nat) + "→numa"@ + text::decimal(gpu_numa[g] as nat)
        } else {
            before
        }
    }
}

impl Topology {
    /// Put together what was read: the name and CPU list of each node's
    /// directory, the number of CPUs of the machine, and the files of each GPU.
    pub fn detect(nodes: &Vec<(String, String)>, num_cpus: usize, gpus: &Vec<GpuFiles>) -> (r: Self)
        ensures
            r@.cpus_by_numa == all_cpus(node_files_views(nodes@), num_cpus),
            lists_keys(r@.numa_nodes, r@.cpus_by_numa),
            r@.gpu_numa == gpu_nodes(
                gpu_files_views(gpus@),
                r@.cpus_by_numa.dom(),
                gpus@.len(),
            ),
    {
        let ghost files = node_files_views(nodes@);
        let mut cpus_by_numa: HashMap<u16, Vec<usize>> = HashMap::new();
        let mut ids: Vec<u64> = Vec::new();
        assert(cpu_views(cpus_by_numa@) =~= Map::empty());
        for i in 0..nodes.len()
            invariant
                files == node_files_views(nodes@),
                cpu_views(cpus_by_numa@) == node_cpus(files, i as nat),
                sorted::ascending(ids@),
                forall|x: u64| #[trigger]
                    ids@.contains(x) <==> x <= u16::MAX && cpus_by_numa@.contains_key(x as u16),
        {
            assert(files[i as int] == (nodes@[i as int].0@, nodes@[i as int].1@));
            let ghost before = cpus_by_numa@;
            let name = chars_of(nodes[i].0.as_str());
            if let Some(rest) = strip_prefix(name.as_slice(), "node") {
                if let Some(id) = parse_unsigned(rest.as_slice(), u16::MAX as u64) {
                    let list = chars_of(nodes[i].1.as_str());
                    let t = trim(list.as_slice());
                    let cpus = parse_cpulist(t.as_slice());
                    if cpus.len() > 0 {
                        let ghost view = cpus@;
                        cpus_by_numa.insert(id as u16, cpus);
                        insert_sorted(&mut ids, id);
                        assert(cpu_views(cpus_by_numa@) =~= cpu_views(before).insert(
                            id as u16,
                            view,
                        ));
                    }
                }
            }
        }
        if ids.len() == 0 {
            let ghost found = cpu_views(cpus_by_numa@);
            assert(found.dom() =~= Set::<u16>::empty()) by {
                assert forall|k: u16| !found.contains_key(k) by {
                    if cpus_by_numa@.contains_key(k) {
                        assert(ids@.contains(k as u64));
                    }
                }
            }
            let mut cpus: Vec<usize> = Vec::new();
            for i in 0..num_cpus
                invariant
                    cpus@ == Seq::new(i as nat, |j: int| j as usize),
            {
                cpus.push(i);
                assert(cpus@ =~= Seq::new((i + 1) as nat, |j: int| j as usize));
            }
            let ghost view = cpus@;
            cpus_by_numa.insert(0, cpus);
            insert_sorted(&mut ids, 0);
            assert(cpu_views(cpus_by_numa@) =~= Map::empty().insert(0u16, view));
        } else {
            assert(ids@.contains(ids@[0]));
            assert(cpu_views(cpus_by_numa@).dom().contains(ids@[0] as u16));
        }
        let mut numa_nodes: Vec<u16> = Vec::new();
        for i in 0..ids.len()
            invariant
                forall|x: u64| #[trigger]
                    ids@.contains(x) <==> x <= u16::MAX && cpus_by_numa@.contains_key(x as u16),
                numa_nodes@.len() == i,
                forall|j: int| 0 <= j < i ==> #[trigger] numa_nodes@[j] == ids@[j],
        {
            assert(ids@.contains(ids@[i as int]));
            numa_nodes.push(ids[i] as u16);
        }
        let ghost known = cpu_views(cpus_by_numa@).dom();
        assert(lists_keys(numa_nodes@, cpu_views(cpus_by_numa@))) by {
            assert forall|k: u16| #[trigger] numa_nodes@.contains(k) <==> cpu_views(
                cpus_by_numa@,
            ).contains_key(k) by {
                if numa_nodes@.contains(k) {
                    let c = numa_nodes@.index_of(k);
                    assert(ids@.contains(ids@[c]));
                }
                if cpus_by_numa@.contains_key(k) {
                    assert(ids@.contains(k as u64));
                    let c = ids@.index_of(k as u64);
                    assert(numa_nodes@[c] == k);
                }
            }
        }
        let ghost views = gpu_files_views(gpus@);
        let mut gpu_numa: HashMap<u16, u16> = HashMap::new();
        for i in 0..gpus.len()
            invariant
                views == gpu_files_views(gpus@),
                known == cpu_views(cpus_by_numa@).dom(),
                gpu_numa@ == gpu_nodes(views, known, i as nat),
        {
            assert(views[i as int] == gpus@[i as int]@);
            if let Some(n) = pci_numa(&gpus[i]) {
                // Some platforms report -1; only accept nodes we know.
                assert(known.contains(n) == cpus_by_numa@.contains_key(n));
                if cpus_by_numa.contains_key(&n) {
                    gpu_numa.insert(gpus[i].index, n);
                }
            }
        }
        Topology { numa_nodes, cpus_by_numa, gpu_numa }
    }

    pub fn numa_of_gpu(&self, gpu: u16) -> (r: Option<u16>)
        ensures
            r == if self@.gpu_numa.contains_key(gpu) {
                Some(self@.gpu_numa[gpu])
            } else {
                None
            },
    {
        match self.gpu_numa.get(&gpu) {
            Some(n) => Some(*n),
            None => None,
        }
    }

    /// Cheap ordinal cost between two devices on this node. Only the order
    /// matters:
    /// same device (0) < NVLink peer (1) < local socket DRAM (2)
    /// < unknown affinity / DRAM to DRAM (3) < cross-socket DRAM (4).
    pub fn distance(&self, a: Device, b: Device) -> (r: u32)
        ensures
            r == distance(self@.gpu_numa, a, b),
    {
        if a == b {
            return 0;
        }
        match (a, b) {
            (Device::Gpu { .. }, Device::Gpu { .. }) => 1,
            (Device::Cpu { numa }, Device::Gpu { index }) => self.host_link(numa, index),
            (Device::Gpu { index }, Device::Cpu { numa }) => self.host_link(numa, index),
            (Device::Cpu { .. }, Device::Cpu { .. }) => 3,
        }
    }

    fn host_link(&self, numa: u16, index: u16) -> (r: u32)
        ensures
            r == host_link(self@.gpu_numa, numa, index),
    {
        match self.numa_of_gpu(index) {
            Some(n) => if n == numa {
                2
            } else {
                4
            },
            None => 3,
        }
    }

    pub fn describe(&self) -> (r: String)
        ensures
            r@ == "numa nodes: "@ + list_text(self@.numa_nodes, self@.numa_nodes.len()) + "]"@
                + gpus_text(self@.gpu_numa, 0x1_0000),
    {
        let mut s = String::new();
        s.append("numa nodes: ");
        s.append("[");
        let ghost head = "numa nodes: "@;
        assert(s@ =~= head + list_text(self@.numa_nodes, 0));
        for i in 0..self.numa_nodes.len()
            invariant
                s@ == head + list_text(self@.numa_nodes, i as nat),
        {
            let ghost before = s@;
            if i > 0 {
                s.append(", ");
            }
            push_decimal(&mut s, self.numa_nodes[i] as u64);
            assert(s@ =~= head + list_text(self@.numa_nodes, (i + 1) as nat));
        }
        s.append("]");
        let ghost front = s@;
        assert(front =~= head + list_text(self@.numa_nodes, self@.numa_nodes.len()) + "]"@);
        assert(s@ =~= front + gpus_text(self@.gpu_numa, 0));
        for g in 0..0x1_0000u32
            invariant
                s@ == front + gpus_text(self@.gpu_numa, g as nat),
        {
            let ghost before = s@;
            if let Some(n) = self.numa_of_gpu(g as u16) {
                s.append("; gpu");
                push_decimal(&mut s, g as u64);
                s.append("→numa");
                push_decimal(&mut s, n as u64);
            }
            assert(s@ =~= front + gpus_text(self@.gpu_numa, (g + 1) as nat));
        }
        s
    }
}

} // verus!
