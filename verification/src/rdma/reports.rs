//! What a report shows of a host's devices, on the devices themselves.
use vstd::prelude::*;

use crate::numerals;
use crate::rdma::nics;
use crate::rdma::nics::{GpuInfoView, NumaGroupView, RdmaNicInfoView};
use crate::rdma::summary;
use crate::rdma::summary::{DeviceFilesView, GroupFilesView};
use crate::text;

verus! {

// ---- root ports ----

proof fn lemma_no_parts(parts: Seq<Seq<char>>, n: nat)
    requires
        n <= parts.len(),
        forall|j: int| 0 <= j < n ==> !nics::is_pci_part(#[trigger] parts[j]),
    ensures
        nics::pci_parts(parts, n).len() == 0,
    decreases n,
{
    if n > 0 {
        lemma_no_parts(parts, (n - 1) as nat);
    }
}

proof fn lemma_first_part(parts: Seq<Seq<char>>, i: int, n: nat)
    requires
        0 <= i < n <= parts.len(),
        nics::is_pci_part(parts[i]),
        forall|j: int| 0 <= j < i ==> !nics::is_pci_part(#[trigger] parts[j]),
    ensures
        nics::pci_parts(parts, n).len() > 0,
        nics::pci_parts(parts, n)[0] == parts[i],
    decreases n,
{
    if i == n - 1 {
        lemma_no_parts(parts, i as nat);
    } else {
        lemma_first_part(parts, i, (n - 1) as nat);
    }
}

/// A device hangs under the first PCI device that its path names, whatever
/// follows; under an unknown one where its path names none or is not known.
pub proof fn law_devices_hang_under_the_first_port(
    files: DeviceFilesView,
    parts: Seq<Seq<char>>,
    i: int,
)
    requires
        numerals::none_has(parts, '/'),
        parts.len() > 0,
    ensures
        files.path == Some(numerals::joined(parts, '/')) && 0 <= i < parts.len()
            && nics::is_pci_part(parts[i]) && (forall|j: int|
            0 <= j < i ==> !nics::is_pci_part(#[trigger] parts[j])) ==> summary::root_of(files)
            == parts[i],
        files.path == Some(numerals::joined(parts, '/')) && (forall|j: int|
            0 <= j < parts.len() ==> !nics::is_pci_part(#[trigger] parts[j]))
            ==> summary::root_of(files) == "?"@,
        files.path is None ==> summary::root_of(files) == "?"@,
{
    numerals::law_splitting_undoes_joining(parts, '/');
    if 0 <= i < parts.len() && nics::is_pci_part(parts[i]) && (forall|j: int|
        0 <= j < i ==> !nics::is_pci_part(#[trigger] parts[j])) {
        lemma_first_part(parts, i, parts.len());
    }
    if forall|j: int| 0 <= j < parts.len() ==> !nics::is_pci_part(#[trigger] parts[j]) {
        lemma_no_parts(parts, parts.len());
    }
}

proof fn lemma_labels_prefix(
    a: Seq<(Seq<char>, Seq<char>)>,
    b: Seq<(Seq<char>, Seq<char>)>,
    root: Seq<char>,
    n: nat,
)
    requires
        n <= a.len(),
        n <= b.len(),
        forall|i: int| 0 <= i < n ==> a[i] == b[i],
    ensures
        summary::labels(a, root, n) == summary::labels(b, root, n),
    decreases n,
{
    if n > 0 {
        lemma_labels_prefix(a, b, root, (n - 1) as nat);
    }
}

/// A port shows the devices under it and no other, in their order: one more device
/// is shown behind the others under its own port, and changes no other port.
pub proof fn law_ports_show_their_devices(
    found: Seq<(Seq<char>, Seq<char>)>,
    port: Seq<char>,
    label: Seq<char>,
    root: Seq<char>,
)
    ensures
        summary::labels(Seq::empty(), root, 0) == Seq::<Seq<char>>::empty(),
        summary::labels(found.push((port, label)), root, found.len() + 1) == summary::labels(
            found,
            root,
            found.len(),
        ) + if port == root {
            seq![label]
        } else {
            Seq::empty()
        },
{
    let all = found.push((port, label));
    lemma_labels_prefix(all, found, root, found.len());
    assert(all[all.len() - 1] == (port, label));
    let before = summary::labels(found, root, found.len());
    if port == root {
        assert(before.push(label) =~= before + seq![label]);
    } else {
        assert(before =~= before + Seq::<Seq<char>>::empty());
    }
}

// ---- devices ----

proof fn lemma_gpu_entries(
    gpus: Seq<GpuInfoView>,
    files: Seq<DeviceFilesView>,
    n: nat,
    x: (Seq<char>, Seq<char>),
)
    requires
        n <= gpus.len(),
    ensures
        summary::gpu_entries(gpus, files, n).contains(x) <==> exists|i: int|
            0 <= i < n && (#[trigger] gpus[i]).pci_addr.len() > 0 && x == summary::entry(
                "GPU "@ + text::decimal(gpus[i].device_id as nat),
                gpus[i].pci_addr,
                files[i],
            ),
    decreases n,
{
    if n > 0 {
        lemma_gpu_entries(gpus, files, (n - 1) as nat, x);
        let before = summary::gpu_entries(gpus, files, (n - 1) as nat);
        let after = summary::gpu_entries(gpus, files, n);
        let gpu = gpus[n - 1];
        let e = summary::entry(
            "GPU "@ + text::decimal(gpu.device_id as nat),
            gpu.pci_addr,
            files[n - 1],
        );
        if before.contains(x) {
            assert(after[before.index_of(x)] == x);
        }
        if gpu.pci_addr.len() > 0 && x == e {
            assert(after[before.len() as int] == x);
        }
        if after.contains(x) && !before.contains(x) {
            let c = after.index_of(x);
            if c < before.len() {
                assert(before[c] == x);
            }
            assert(gpus[n - 1].pci_addr.len() > 0);
        }
    }
}

/// Every GPU with an address is shown, under its own number and with its own files,
/// and every NIC; nothing else is.
pub proof fn law_every_device_is_shown(
    gpus: Seq<GpuInfoView>,
    gpu_files: Seq<DeviceFilesView>,
    found: Seq<RdmaNicInfoView>,
    nic_files: Seq<DeviceFilesView>,
    x: (Seq<char>, Seq<char>),
)
    ensures
        summary::gpu_entries(gpus, gpu_files, gpus.len()).contains(x) <==> exists|i: int|
            0 <= i < gpus.len() && (#[trigger] gpus[i]).pci_addr.len() > 0 && x == summary::entry(
                "GPU "@ + text::decimal(gpus[i].device_id as nat),
                gpus[i].pci_addr,
                gpu_files[i],
            ),
        summary::nic_entries(found, nic_files, found.len()).contains(x) <==> exists|i: int|
            0 <= i < found.len() && x == summary::entry(
                (#[trigger] found[i]).name,
                found[i].pci_addr,
                nic_files[i],
            ),
{
    lemma_gpu_entries(gpus, gpu_files, gpus.len(), x);
    let all = summary::nic_entries(found, nic_files, found.len());
    if all.contains(x) {
        let i = all.index_of(x);
        assert(x == summary::entry(found[i].name, found[i].pci_addr, nic_files[i]));
    }
    if exists|i: int|
        0 <= i < found.len() && x == summary::entry(
            (#[trigger] found[i]).name,
            found[i].pci_addr,
            nic_files[i],
        ) {
        let i = choose|i: int|
            0 <= i < found.len() && x == summary::entry(
                (#[trigger] found[i]).name,
                found[i].pci_addr,
                nic_files[i],
            );
        assert(all[i] == x);
    }
}

// ---- groups ----

/// A report shows every group as a whole, one behind the other.
pub proof fn law_reports_show_every_group(
    groups: Seq<NumaGroupView>,
    files: Seq<GroupFilesView>,
    roots: Seq<Seq<Seq<char>>>,
    n: nat,
    i: int,
) -> (p: int)
    requires
        0 <= i < n <= groups.len(),
    ensures
        ({
            let all = summary::all_lines(groups, files, roots, n);
            let mine = summary::group_lines(groups[i], files[i], roots[i]);
            &&& 0 <= p
            &&& p + mine.len() <= all.len()
            &&& all.subrange(p, p + mine.len()) == mine
            &&& i + 1 == n ==> p + mine.len() == all.len()
        }),
    decreases n,
{
    let all = summary::all_lines(groups, files, roots, n);
    let mine = summary::group_lines(groups[i], files[i], roots[i]);
    let before = summary::all_lines(groups, files, roots, (n - 1) as nat);
    if i + 1 == n {
        let p = before.len() as int;
        assert(all.subrange(p, p + mine.len()) =~= mine);
        p
    } else {
        let p = law_reports_show_every_group(groups, files, roots, (n - 1) as nat, i);
        assert(all.subrange(p, p + mine.len()) =~= before.subrange(p, p + mine.len()));
        p
    }
}

} // verus!
