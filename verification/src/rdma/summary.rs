//! The system's topology in words.
use vstd::prelude::*;
use vstd::string::*;

use crate::index;
use crate::index::Index;
use crate::rdma::nics;
use crate::rdma::nics::{
    format_pci_device, get_pcie_path, read_pcie_link_info, GpuInfo, GpuInfoView, NumaGroup,
    NumaGroupView, RdmaNicInfo, RdmaNicInfoView, SystemTopology,
};
use crate::rdma::numa;
use crate::rdma::numa::format_cpu_list;
use crate::text;
use crate::text::{copied, push_decimal};
use crate::topology;
use crate::types::Key;

verus! {

/// What was read of one PCI device: its canonical path, and the content of its
/// link's files.
pub struct DeviceFiles {
    pub path: Option<String>,
    pub speed: Option<String>,
    pub width: Option<String>,
}

pub struct DeviceFilesView {
    pub path: Option<Seq<char>>,
    pub speed: Option<Seq<char>>,
    pub width: Option<Seq<char>>,
}

impl View for DeviceFiles {
    type V = DeviceFilesView;

    open spec fn view(&self) -> DeviceFilesView {
        DeviceFilesView {
            path: topology::text_view(self.path),
            speed: topology::text_view(self.speed),
            width: topology::text_view(self.width),
        }
    }
}

pub open spec fn device_views(files: Seq<DeviceFiles>) -> Seq<DeviceFilesView> {
    Seq::new(files.len(), |i: int| files[i]@)
}

/// The files of the devices of one group.
pub struct GroupFiles {
    pub gpus: Vec<DeviceFiles>,
    pub nics: Vec<DeviceFiles>,
}

pub struct GroupFilesView {
    pub gpus: Seq<DeviceFilesView>,
    pub nics: Seq<DeviceFilesView>,
}

impl View for GroupFiles {
    type V = GroupFilesView;

    open spec fn view(&self) -> GroupFilesView {
        GroupFilesView { gpus: device_views(self.gpus@), nics: device_views(self.nics@) }
    }
}

pub open spec fn files_views(files: Seq<GroupFiles>) -> Seq<GroupFilesView> {
    Seq::new(files.len(), |i: int| files[i]@)
}

/// Whether there are files for every device of a group.
pub open spec fn fits(group: NumaGroupView, files: GroupFilesView) -> bool {
    group.gpus.len() == files.gpus.len() && group.nics.len() == files.nics.len()
}

// ---- lists ----

/// The first `n` parts, separated by commas.
pub open spec fn joined(parts: Seq<Seq<char>>, n: nat) -> Seq<char>
    decreases n,
{
    if n == 0 {
        Seq::empty()
    } else if n == 1 {
        parts[0]
    } else {
        joined(parts, (n - 1) as nat) + ", "@ + parts[n - 1]
    }
}

pub open spec fn all_joined(parts: Seq<Seq<char>>) -> Seq<char> {
    joined(parts, parts.len())
}

fn push_joined(out: &mut String, parts: &Vec<String>)
    ensures
        final(out)@ == old(out)@ + all_joined(nics::string_views(parts@)),
{
    let ghost views = nics::string_views(parts@);
    assert(out@ =~= old(out)@ + joined(views, 0));
    for i in 0..parts.len()
        invariant
            views == nics::string_views(parts@),
            out@ == old(out)@ + joined(views, i as nat),
    {
        if i > 0 {
            out.append(", ");
        }
        out.append(parts[i].as_str());
        assert(views[i as int] == parts@[i as int]@);
        assert(out@ =~= old(out)@ + joined(views, (i + 1) as nat));
    }
}

/// A title, then the parts or that there are none.
pub open spec fn list_line(title: Seq<char>, parts: Seq<Seq<char>>) -> Seq<char> {
    title + if parts.len() == 0 {
        "(none)"@
    } else {
        all_joined(parts)
    }
}

fn list_of(title: &str, parts: &Vec<String>) -> (r: String)
    ensures
        r@ == list_line(title@, nics::string_views(parts@)),
{
    let mut out = String::new();
    out.append(title);
    if parts.len() == 0 {
        out.append("(none)");
    } else {
        push_joined(&mut out, parts);
    }
    assert(out@ =~= list_line(title@, nics::string_views(parts@)));
    out
}

// ---- devices by root port ----

/// The root port of a device, `?` where its path is not known.
pub open spec fn root_of(files: DeviceFilesView) -> Seq<char> {
    match files.path {
        Some(path) => {
            let parts = nics::pci_parts(
                text::split_by(path, '/'),
                text::split_by(path, '/').len(),
            );
            if parts.len() > 0 {
                parts[0]
            } else {
                "?"@
            }
        },
        None => "?"@,
    }
}

/// A device under its root port.
pub open spec fn entry(name: Seq<char>, addr: Seq<char>, files: DeviceFilesView) -> (
    Seq<char>,
    Seq<char>,
) {
    (root_of(files), nics::device_label(name, addr, nics::link_text(files.speed, files.width)))
}

/// The first `n` GPUs, those with an address.
pub open spec fn gpu_entries(gpus: Seq<GpuInfoView>, files: Seq<DeviceFilesView>, n: nat) -> Seq<
    (Seq<char>, Seq<char>),
>
    decreases n,
{
    if n == 0 {
        Seq::empty()
    } else {
        let before = gpu_entries(gpus, files, (n - 1) as nat);
        let gpu = gpus[n - 1];
        if gpu.pci_addr.len() == 0 {
            before
        } else {
            before.push(
                entry("GPU "@ + text::decimal(gpu.device_id as nat), gpu.pci_addr, files[n - 1]),
            )
        }
    }
}

/// The first `n` NICs.
pub open spec fn nic_entries(nics: Seq<RdmaNicInfoView>, files: Seq<DeviceFilesView>, n: nat) -> Seq<
    (Seq<char>, Seq<char>),
> {
    Seq::new(n, |i: int| entry(nics[i].name, nics[i].pci_addr, files[i]))
}

pub open spec fn entries(group: NumaGroupView, files: GroupFilesView) -> Seq<
    (Seq<char>, Seq<char>),
> {
    gpu_entries(group.gpus, files.gpus, group.gpus.len()) + nic_entries(
        group.nics,
        files.nics,
        group.nics.len(),
    )
}

/// The labels under one root among the first `n` entries.
pub open spec fn labels(entries: Seq<(Seq<char>, Seq<char>)>, root: Seq<char>, n: nat) -> Seq<
    Seq<char>,
>
    decreases n,
{
    if n == 0 {
        Seq::empty()
    } else {
        let before = labels(entries, root, (n - 1) as nat);
        if entries[n - 1].0 == root {
            before.push(entries[n - 1].1)
        } else {
            before
        }
    }
}

/// Whether one of the first `n` entries is under a root.
pub open spec fn under(entries: Seq<(Seq<char>, Seq<char>)>, root: Seq<char>, n: nat) -> bool {
    exists|i: int| 0 <= i < n && (#[trigger] entries[i]).0 == root
}

/// Whether a list holds the roots of all entries, each once, in order.
pub open spec fn lists_roots(roots: Seq<Seq<char>>, entries: Seq<(Seq<char>, Seq<char>)>) -> bool {
    &&& forall|i: int, j: int|
        0 <= i < j < roots.len() ==> index::below(
            vstd::utf8::encode_utf8(#[trigger] roots[i]),
            vstd::utf8::encode_utf8(#[trigger] roots[j]),
        )
    &&& forall|r: Seq<char>| #[trigger]
        roots.contains(r) <==> under(entries, r, entries.len())
}

pub open spec fn root_line(entries: Seq<(Seq<char>, Seq<char>)>, root: Seq<char>) -> Seq<char> {
    "    ["@ + root + "] "@ + all_joined(labels(entries, root, entries.len()))
}

/// The lines of a group's devices, by root port.
pub open spec fn tree_lines(
    entries: Seq<(Seq<char>, Seq<char>)>,
    roots: Seq<Seq<char>>,
) -> Seq<Seq<char>> {
    if roots.len() == 0 {
        Seq::empty()
    } else {
        seq!["  PCIe:"@] + Seq::new(roots.len(), |i: int| root_line(entries, roots[i]))
    }
}

/// The name and address of each NIC.
pub open spec fn nic_names(nics: Seq<RdmaNicInfoView>) -> Seq<Seq<char>> {
    Seq::new(nics.len(), |i: int| nics[i].name + " ("@ + nics[i].pci_addr + ")"@)
}

pub open spec fn gpu_names(gpus: Seq<GpuInfoView>) -> Seq<Seq<char>> {
    Seq::new(gpus.len(), |i: int| text::decimal(gpus[i].device_id as nat))
}

pub open spec fn cpus_text(cpus: Seq<usize>) -> Seq<char> {
    if cpus.len() == 0 {
        "(none)"@
    } else {
        numa::runs_text(
            numa::runs_of(cpus, cpus.len()),
            numa::runs_of(cpus, cpus.len()).len(),
        )
    }
}

/// The lines of one group, its root ports given.
pub open spec fn group_lines(
    group: NumaGroupView,
    files: GroupFilesView,
    roots: Seq<Seq<char>>,
) -> Seq<Seq<char>> {
    seq![
        numa::node_text(group.node) + ":"@,
        list_line("  GPUs: "@, gpu_names(group.gpus)),
        list_line("  NICs: "@, nic_names(group.nics)),
        "  CPUs: "@ + cpus_text(group.cpus),
    ] + tree_lines(entries(group, files), roots) + seq![Seq::<char>::empty()]
}

/// The lines of the first `n` groups, the root ports of each given.
pub open spec fn all_lines(
    groups: Seq<NumaGroupView>,
    files: Seq<GroupFilesView>,
    roots: Seq<Seq<Seq<char>>>,
    n: nat,
) -> Seq<Seq<char>>
    decreases n,
{
    if n == 0 {
        seq!["=== PegaFlow System Topology ==="@, Seq::<char>::empty()]
    } else {
        all_lines(groups, files, roots, (n - 1) as nat) + group_lines(
            groups[n - 1],
            files[n - 1],
            roots[n - 1],
        )
    }
}

/// Whether every list of root ports is that of its group.
pub open spec fn rooted(
    groups: Seq<NumaGroupView>,
    files: Seq<GroupFilesView>,
    roots: Seq<Seq<Seq<char>>>,
) -> bool {
    &&& roots.len() == groups.len()
    &&& forall|i: int|
        0 <= i < roots.len() ==> lists_roots(#[trigger] roots[i], entries(groups[i], files[i]))
}

/// Whether lines are those of a topology.
pub open spec fn is_report(
    groups: Seq<NumaGroupView>,
    files: Seq<GroupFilesView>,
    lines: Seq<Seq<char>>,
) -> bool {
    exists|roots: Seq<Seq<Seq<char>>>| #[trigger]
        rooted(groups, files, roots) && lines == all_lines(groups, files, roots, groups.len())
}

// ---- code ----

fn root_port(files: &DeviceFiles) -> (r: String)
    ensures
        r@ == root_of(files@),
{
    let path: Option<&str> = match &files.path {
        Some(p) => Some(p.as_str()),
        None => None,
    };
    let parts = get_pcie_path(path);
    if parts.len() > 0 {
        assert(nics::string_views(parts@)[0] == parts@[0]@);
        copied(parts[0].as_str())
    } else {
        assert(nics::string_views(parts@).len() == 0);
        copied("?")
    }
}

fn label_of(name: &str, addr: &str, files: &DeviceFiles) -> (r: String)
    ensures
        r@ == entry(name@, addr@, files@).1,
{
    let link = read_pcie_link_info(&files.speed, &files.width);
    format_pci_device(name, addr, &link)
}

spec fn entry_views(found: Seq<(String, String)>) -> Seq<(Seq<char>, Seq<char>)> {
    Seq::new(found.len(), |i: int| (found[i].0@, found[i].1@))
}

/// The devices of a group, each with its root port.
fn found_entries(group: &NumaGroup, files: &GroupFiles) -> (r: Vec<(String, String)>)
    requires
        fits(group@, files@),
    ensures
        entry_views(r@) == entries(group@, files@),
{
    let mut out: Vec<(String, String)> = Vec::new();
    assert(entry_views(out@) =~= gpu_entries(group@.gpus, files@.gpus, 0));
    for i in 0..group.gpus.len()
        invariant
            fits(group@, files@),
            entry_views(out@) == gpu_entries(group@.gpus, files@.gpus, i as nat),
    {
        let gpu = &group.gpus[i];
        let f = &files.gpus[i];
        assert(group@.gpus[i as int] == gpu@);
        assert(files@.gpus[i as int] == f@);
        let ghost before = entry_views(out@);
        if !is_empty(gpu.pci_addr.as_str()) {
            let mut name = String::new();
            name.append("GPU ");
            push_decimal(&mut name, gpu.device_id as u64);
            assert(name@ =~= "GPU "@ + text::decimal(gpu.device_id as nat));
            let root = root_port(f);
            let label = label_of(name.as_str(), gpu.pci_addr.as_str(), f);
            let ghost e = (root@, label@);
            out.push((root, label));
            assert(entry_views(out@) =~= before.push(e));
        }
    }
    let ghost front = entry_views(out@);
    assert(front + nic_entries(group@.nics, files@.nics, 0) =~= front);
    for i in 0..group.nics.len()
        invariant
            fits(group@, files@),
            entry_views(out@) == front + nic_entries(group@.nics, files@.nics, i as nat),
    {
        let nic = &group.nics[i];
        let f = &files.nics[i];
        assert(group@.nics[i as int] == nic@);
        assert(files@.nics[i as int] == f@);
        let ghost before = entry_views(out@);
        let root = root_port(f);
        let label = label_of(nic.name.as_str(), nic.pci_addr.as_str(), f);
        let ghost e = (root@, label@);
        out.push((root, label));
        assert(entry_views(out@) =~= before.push(e));
        assert(entry_views(out@) =~= front + nic_entries(
            group@.nics,
            files@.nics,
            (i + 1) as nat,
        ));
    }
    out
}

fn is_empty(s: &str) -> (r: bool)
    ensures
        r == (s@.len() == 0),
{
    s.unicode_len() == 0
}

/// Whether a tree holds the first `n` entries.
spec fn grown(
    tree: Map<Seq<u8>, (String, Vec<String>)>,
    found: Seq<(Seq<char>, Seq<char>)>,
    n: nat,
) -> bool {
    &&& forall|k: Seq<u8>| #[trigger]
        tree.contains_key(k) ==> {
            &&& k == vstd::utf8::encode_utf8(tree[k].0@)
            &&& under(found, tree[k].0@, n)
            &&& nics::string_views(tree[k].1@) == labels(found, tree[k].0@, n)
        }
    &&& forall|i: int|
        0 <= i < n ==> tree.contains_key(vstd::utf8::encode_utf8((#[trigger] found[i]).0))
}

proof fn lemma_not_under(found: Seq<(Seq<char>, Seq<char>)>, root: Seq<char>, n: nat)
    requires
        n <= found.len(),
        !under(found, root, n),
    ensures
        labels(found, root, n) == Seq::<Seq<char>>::empty(),
    decreases n,
{
    if n > 0 {
        assert(found[n - 1].0 != root);
        assert(!under(found, root, (n - 1) as nat)) by {
            if under(found, root, (n - 1) as nat) {
                let i = choose|i: int| 0 <= i < n - 1 && (#[trigger] found[i]).0 == root;
                assert(found[i].0 == root);
            }
        }
        lemma_not_under(found, root, (n - 1) as nat);
    }
}

/// Put an entry under its root port.
fn grow(
    tree: &mut Index<(String, Vec<String>)>,
    root: &str,
    label: &str,
    Ghost(found): Ghost<Seq<(Seq<char>, Seq<char>)>>,
    Ghost(n): Ghost<nat>,
)
    requires
        old(tree).wf(),
        n < found.len(),
        grown(old(tree)@, found, n),
        found[n as int] == (root@, label@),
    ensures
        final(tree).wf(),
        grown(final(tree)@, found, n + 1),
{
    let ghost t0 = tree@;
    let key = Key::from(root);
    let ghost k0 = key@;
    let mut texts: Vec<String> = Vec::new();
    if let Some(i) = tree.find(&key) {
        let (_, before) = tree.remove_at(i);
        texts = before;
    }
    proof {
        if t0.contains_key(k0) {
            assert(vstd::utf8::decode_utf8(vstd::utf8::encode_utf8(t0[k0].0@)) == t0[k0].0@) by {
                vstd::utf8::encode_utf8_decode_utf8(t0[k0].0@);
            }
            vstd::utf8::encode_utf8_decode_utf8(root@);
            assert(t0[k0].0@ == root@);
        } else {
            assert(!under(found, root@, n)) by {
                if under(found, root@, n) {
                    let i = choose|i: int| 0 <= i < n && (#[trigger] found[i]).0 == root@;
                    assert(t0.contains_key(vstd::utf8::encode_utf8(found[i].0)));
                }
            }
            lemma_not_under(found, root@, n);
            assert(nics::string_views(texts@) =~= Seq::empty());
        }
    }
    let ghost texts0 = nics::string_views(texts@);
    assert(texts0 == labels(found, root@, n));
    texts.push(copied(label));
    assert(nics::string_views(texts@) =~= texts0.push(label@));
    let ghost t1 = tree@;
    tree.insert(key, (copied(root), texts));
    proof {
        let t2 = tree@;
        assert forall|k: Seq<u8>| #[trigger] t2.contains_key(k) implies {
            &&& k == vstd::utf8::encode_utf8(t2[k].0@)
            &&& under(found, t2[k].0@, n + 1)
            &&& nics::string_views(t2[k].1@) == labels(found, t2[k].0@, n + 1)
        } by {
            if k == k0 {
                assert(found[n as int].0 == root@);
            } else {
                assert(t0.contains_key(k));
                assert(t2[k] == t0[k]);
                let i = choose|i: int| 0 <= i < n && (#[trigger] found[i]).0 == t2[k].0@;
                assert(found[i].0 == t2[k].0@);
                assert(t2[k].0@ != root@);
            }
        }
        assert forall|i: int| 0 <= i < n + 1 implies t2.contains_key(
            vstd::utf8::encode_utf8((#[trigger] found[i]).0),
        ) by {
            if i < n {
                assert(t0.contains_key(vstd::utf8::encode_utf8(found[i].0)));
            }
        }
    }
}

/// The roots of a tree, in the order of its keys.
spec fn tree_roots(tree: Index<(String, Vec<String>)>) -> Seq<Seq<char>> {
    Seq::new(tree.keys().len(), |i: int| tree@[tree.keys()[i]].0@)
}

proof fn lemma_tree_roots(
    tree: Index<(String, Vec<String>)>,
    found: Seq<(Seq<char>, Seq<char>)>,
)
    requires
        tree.wf(),
        grown(tree@, found, found.len()),
    ensures
        lists_roots(tree_roots(tree), found),
{
    tree.lemma_keys();
    let roots = tree_roots(tree);
    assert forall|i: int, j: int| 0 <= i < j < roots.len() implies index::below(
        vstd::utf8::encode_utf8(#[trigger] roots[i]),
        vstd::utf8::encode_utf8(#[trigger] roots[j]),
    ) by {
        assert(tree@.contains_key(tree.keys()[i]));
        assert(tree@.contains_key(tree.keys()[j]));
    }
    assert forall|r: Seq<char>| #[trigger] roots.contains(r) <==> under(found, r, found.len()) by {
        if roots.contains(r) {
            let i = roots.index_of(r);
            assert(tree@.contains_key(tree.keys()[i]));
        }
        if under(found, r, found.len()) {
            let m = choose|m: int| 0 <= m < found.len() && (#[trigger] found[m]).0 == r;
            let k = vstd::utf8::encode_utf8(found[m].0);
            assert(tree@.contains_key(k));
            let i = choose|i: int| 0 <= i < tree.keys().len() && #[trigger] tree.keys()[i] == k;
            vstd::utf8::encode_utf8_decode_utf8(r);
            vstd::utf8::encode_utf8_decode_utf8(tree@[k].0@);
            assert(roots[i] == r);
        }
    }
}

/// The lines of a group's devices, by root port.
fn push_tree(out: &mut Vec<String>, group: &NumaGroup, files: &GroupFiles) -> (roots: Ghost<
    Seq<Seq<char>>,
>)
    requires
        fits(group@, files@),
    ensures
        lists_roots(roots@, entries(group@, files@)),
        nics::string_views(final(out)@) == nics::string_views(old(out)@) + tree_lines(
            entries(group@, files@),
            roots@,
        ),
{
    let found = found_entries(group, files);
    let ghost all = entries(group@, files@);
    let mut tree: Index<(String, Vec<String>)> = Index::new();
    for i in 0..found.len()
        invariant
            all == entry_views(found@),
            tree.wf(),
            grown(tree@, all, i as nat),
    {
        assert(all[i as int] == (found@[i as int].0@, found@[i as int].1@));
        grow(
            &mut tree,
            found[i].0.as_str(),
            found[i].1.as_str(),
            Ghost(all),
            Ghost(i as nat),
        );
    }
    let ghost roots = tree_roots(tree);
    proof {
        lemma_tree_roots(tree, all);
    }
    let ghost start = nics::string_views(out@);
    let n = tree.len();
    if n == 0 {
        assert(start + tree_lines(all, roots) =~= start);
        return Ghost(roots);
    }
    let mut head = String::new();
    head.append("  PCIe:");
    assert(head@ =~= "  PCIe:"@);
    out.push(head);
    let ghost want = tree_lines(all, roots);
    assert(nics::string_views(out@) =~= start + want.take(1));
    for i in 0..n
        invariant
            n == tree.keys().len(),
            n > 0,
            tree.wf(),
            grown(tree@, all, all.len()),
            roots == tree_roots(tree),
            want == tree_lines(all, roots),
            nics::string_views(out@) == start + want.take(i + 1),
    {
        let ghost before = nics::string_views(out@);
        let e = tree.at(i);
        assert(roots[i as int] == e.0@);
        let mut line = String::new();
        line.append("    [");
        line.append(e.0.as_str());
        line.append("] ");
        push_joined(&mut line, &e.1);
        assert(line@ =~= root_line(all, roots[i as int]));
        out.push(line);
        assert(nics::string_views(out@) =~= before.push(line@));
        assert(want[i + 1] == line@);
        assert(nics::string_views(out@) =~= start + want.take(i + 2));
    }
    assert(want.take(n + 1) =~= want);
    Ghost(roots)
}

fn gpus_line(gpus: &Vec<GpuInfo>) -> (r: String)
    ensures
        r@ == list_line("  GPUs: "@, gpu_names(nics::gpu_views(gpus@))),
{
    let ghost views = nics::gpu_views(gpus@);
    let mut parts: Vec<String> = Vec::new();
    for i in 0..gpus.len()
        invariant
            views == nics::gpu_views(gpus@),
            nics::string_views(parts@) == gpu_names(views).take(i as int),
    {
        let ghost before = nics::string_views(parts@);
        let mut id = String::new();
        push_decimal(&mut id, gpus[i].device_id as u64);
        assert(views[i as int] == gpus@[i as int]@);
        assert(id@ =~= text::decimal(gpus@[i as int].device_id as nat));
        parts.push(id);
        assert(nics::string_views(parts@) =~= before.push(id@));
        assert(nics::string_views(parts@) =~= gpu_names(views).take(i + 1));
    }
    assert(nics::string_views(parts@) =~= gpu_names(views));
    list_of("  GPUs: ", &parts)
}

fn nics_line(list: &Vec<RdmaNicInfo>) -> (r: String)
    ensures
        r@ == list_line("  NICs: "@, nic_names(nics::nic_views(list@))),
{
    let ghost views = nics::nic_views(list@);
    let mut parts: Vec<String> = Vec::new();
    for i in 0..list.len()
        invariant
            views == nics::nic_views(list@),
            nics::string_views(parts@) == nic_names(views).take(i as int),
    {
        let ghost before = nics::string_views(parts@);
        assert(views[i as int] == list@[i as int]@);
        let mut part = String::new();
        part.append(list[i].name.as_str());
        part.append(" (");
        part.append(list[i].pci_addr.as_str());
        part.append(")");
        assert(part@ =~= nic_names(views)[i as int]);
        parts.push(part);
        assert(nics::string_views(parts@) =~= before.push(part@));
        assert(nics::string_views(parts@) =~= nic_names(views).take(i + 1));
    }
    assert(nics::string_views(parts@) =~= nic_names(views));
    list_of("  NICs: ", &parts)
}

fn cpus_line(cpus: &Vec<usize>) -> (r: String)
    ensures
        r@ == "  CPUs: "@ + cpus_text(cpus@),
{
    let mut out = String::new();
    out.append("  CPUs: ");
    if cpus.len() == 0 {
        out.append("(none)");
    } else {
        out.append(format_cpu_list(cpus.as_slice()).as_str());
    }
    assert(out@ =~= "  CPUs: "@ + cpus_text(cpus@));
    out
}

/// The lines of one group.
fn push_group(out: &mut Vec<String>, group: &NumaGroup, files: &GroupFiles) -> (roots: Ghost<
    Seq<Seq<char>>,
>)
    requires
        fits(group@, files@),
    ensures
        lists_roots(roots@, entries(group@, files@)),
        nics::string_views(final(out)@) == nics::string_views(old(out)@) + group_lines(
            group@,
            files@,
            roots@,
        ),
{
    let ghost start = nics::string_views(out@);
    let mut head = group.node.to_string();
    head.append(":");
    assert(head@ =~= numa::node_text(group@.node) + ":"@);
    out.push(head);
    out.push(gpus_line(&group.gpus));
    out.push(nics_line(&group.nics));
    out.push(cpus_line(&group.cpus));
    let ghost four = seq![
        numa::node_text(group@.node) + ":"@,
        list_line("  GPUs: "@, gpu_names(group@.gpus)),
        list_line("  NICs: "@, nic_names(group@.nics)),
        "  CPUs: "@ + cpus_text(group@.cpus),
    ];
    assert(nics::string_views(out@) =~= start + four);
    let roots = push_tree(out, group, files);
    let ghost before = nics::string_views(out@);
    let blank = String::new();
    assert(blank@ =~= Seq::<char>::empty());
    out.push(blank);
    assert(nics::string_views(out@) =~= before.push(Seq::<char>::empty()));
    assert(nics::string_views(out@) =~= start + group_lines(group@, files@, roots@));
    roots
}

proof fn lemma_lines_prefix(
    groups: Seq<NumaGroupView>,
    files: Seq<GroupFilesView>,
    roots: Seq<Seq<Seq<char>>>,
    more: Seq<Seq<char>>,
    n: nat,
)
    requires
        n <= roots.len(),
    ensures
        all_lines(groups, files, roots.push(more), n) == all_lines(groups, files, roots, n),
    decreases n,
{
    if n > 0 {
        lemma_lines_prefix(groups, files, roots, more, (n - 1) as nat);
    }
}

impl SystemTopology {
    /// The lines of a human-readable summary of the full system topology, to be
    /// logged, from what was read of the devices of each group.
    pub fn log_summary(&self, files: &Vec<GroupFiles>) -> (r: Vec<String>)
        requires
            files@.len() == self@.len(),
            forall|i: int| 0 <= i < files@.len() ==> fits(self@[i], (#[trigger] files@[i])@),
        ensures
            is_report(self@, files_views(files@), nics::string_views(r@)),
    {
        let ghost fv = files_views(files@);
        let groups = self.groups();
        assert(nics::group_views(groups@) == self@);
        let mut out: Vec<String> = Vec::new();
        let mut title = String::new();
        title.append("=== PegaFlow System Topology ===");
        assert(title@ =~= "=== PegaFlow System Topology ==="@);
        out.push(title);
        let blank = String::new();
        assert(blank@ =~= Seq::<char>::empty());
        out.push(blank);
        let ghost mut roots: Seq<Seq<Seq<char>>> = Seq::empty();
        assert(nics::string_views(out@) =~= all_lines(self@, fv, roots, 0));
        for i in 0..groups.len()
            invariant
                nics::group_views(groups@) == self@,
                fv == files_views(files@),
                files@.len() == self@.len(),
                forall|i: int| 0 <= i < files@.len() ==> fits(self@[i], (#[trigger] files@[i])@),
                roots.len() == i,
                forall|j: int|
                    0 <= j < i ==> lists_roots(#[trigger] roots[j], entries(self@[j], fv[j])),
                nics::string_views(out@) == all_lines(self@, fv, roots, i as nat),
        {
            assert(self@[i as int] == groups@[i as int]@);
            assert(fv[i as int] == files@[i as int]@);
            let more = push_group(&mut out, &groups[i], &files[i]);
            proof {
                lemma_lines_prefix(self@, fv, roots, more@, i as nat);
                roots = roots.push(more@);
            }
        }
        assert(rooted(self@, fv, roots));
        out
    }
}

// ---- laws ----

proof fn lemma_roots_agree(
    a: Seq<Seq<char>>,
    b: Seq<Seq<char>>,
    found: Seq<(Seq<char>, Seq<char>)>,
    n: int,
)
    requires
        lists_roots(a, found),
        lists_roots(b, found),
        0 <= n <= a.len(),
        n <= b.len(),
    ensures
        forall|i: int| 0 <= i < n ==> a[i] == b[i],
    decreases n,
{
    if n > 0 {
        lemma_roots_agree(a, b, found, n - 1);
        let x = a[n - 1];
        let y = b[n - 1];
        if x != y {
            assert(a.contains(x) && b.contains(y));
            assert(b.contains(x) && a.contains(y));
            let j = b.index_of(x);
            let k = a.index_of(y);
            let ex = vstd::utf8::encode_utf8(x);
            let ey = vstd::utf8::encode_utf8(y);
            index::lemma_below_irreflexive(ex);
            index::lemma_below_irreflexive(ey);
            if j < n - 1 {
                assert(a[j] == x);
                assert(index::below(vstd::utf8::encode_utf8(a[j]), ex));
            }
            if k < n - 1 {
                assert(b[k] == y);
                assert(index::below(vstd::utf8::encode_utf8(b[k]), ey));
            }
            assert(index::below(ey, ex));
            assert(index::below(ex, ey));
            index::lemma_below_transitive(ex, ey, ex);
        }
    }
}

/// There is one list of root ports, so there is one report.
pub proof fn law_root_ports_are_listed_one_way(
    a: Seq<Seq<char>>,
    b: Seq<Seq<char>>,
    found: Seq<(Seq<char>, Seq<char>)>,
)
    requires
        lists_roots(a, found),
        lists_roots(b, found),
    ensures
        a == b,
{
    let n = if a.len() <= b.len() {
        a.len() as int
    } else {
        b.len() as int
    };
    lemma_roots_agree(a, b, found, n);
    if a.len() > n {
        let x = a[n];
        assert(a.contains(x));
        assert(b.contains(x));
        let j = b.index_of(x);
        assert(a[j] == x);
        index::lemma_below_irreflexive(vstd::utf8::encode_utf8(x));
    }
    if b.len() > n {
        let x = b[n];
        assert(b.contains(x));
        assert(a.contains(x));
        let j = a.index_of(x);
        assert(b[j] == x);
        index::lemma_below_irreflexive(vstd::utf8::encode_utf8(x));
    }
    assert(a =~= b);
}

} // verus!
