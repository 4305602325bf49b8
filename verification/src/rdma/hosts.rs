//! What is read of a host's GPUs, NICs and links, on the texts themselves.
use vstd::prelude::*;

use crate::machine;
use crate::numerals;
use crate::rdma::nics;
use crate::rdma::nics::{GpuInfoView, NicDirView, NumaGroupView, RdmaNicInfoView};
use crate::rdma::numa::NumaNode;
use crate::text;

verus! {

// ---- words ----

pub open spec fn no_space(s: Seq<char>) -> bool {
    forall|i: int| 0 <= i < s.len() ==> !text::is_space(#[trigger] s[i])
}

proof fn lemma_until(w: Seq<char>, rest: Seq<char>)
    requires
        no_space(w),
        rest.len() > 0 ==> text::is_space(rest[0]),
    ensures
        text::until_space(w + rest) == w,
    decreases w.len(),
{
    let s = w + rest;
    if w.len() > 0 {
        assert(!text::is_space(w[0]));
        assert(s.skip(1) =~= w.skip(1) + rest);
        assert forall|i: int| 0 <= i < w.skip(1).len() implies !text::is_space(
            #[trigger] w.skip(1)[i],
        ) by {
            assert(!text::is_space(w[i + 1]));
        }
        lemma_until(w.skip(1), rest);
        assert(seq![w[0]] + w.skip(1) =~= w);
    } else {
        assert(s =~= rest);
        assert(w =~= Seq::empty());
    }
}

/// The first word of a text ends at white space, and white space in front of it
/// is no part of it.
pub proof fn law_words_end_at_white_space(pre: Seq<char>, w: Seq<char>, rest: Seq<char>)
    requires
        numerals::all_space(pre),
        w.len() > 0,
        no_space(w),
        rest.len() > 0 ==> text::is_space(rest[0]),
    ensures
        text::first_word(pre + w + rest) == w,
{
    assert(pre + w + rest =~= pre + (w + rest));
    assert(!text::is_space(w[0]));
    assert((w + rest)[0] == w[0]);
    numerals::lemma_start_skips(pre, w + rest);
    lemma_until(w, rest);
}

// ---- links ----

/// Whether a text is a link's speed in GT/s.
pub open spec fn is_speed(w: Seq<char>) -> bool {
    w == "2.5"@ || w == "5.0"@ || w == "8.0"@ || w == "16.0"@ || w == "32.0"@ || w == "64.0"@
}

/// A link of 2.5, 5, 8, 16, 32 or 64 GT/s is one of generation 1 to 6, whatever
/// follows the number; no other text names a generation.
pub proof fn law_speeds_name_generations(pre: Seq<char>, w: Seq<char>, rest: Seq<char>)
    requires
        numerals::all_space(pre),
        w.len() > 0,
        no_space(w),
        rest.len() > 0 ==> text::is_space(rest[0]),
    ensures
        ({
            let g = nics::generation(pre + w + rest);
            &&& w == "2.5"@ ==> g == "1.0"@
            &&& w == "5.0"@ ==> g == "2.0"@
            &&& w == "8.0"@ ==> g == "3.0"@
            &&& w == "16.0"@ ==> g == "4.0"@
            &&& w == "32.0"@ ==> g == "5.0"@
            &&& w == "64.0"@ ==> g == "6.0"@
            &&& !is_speed(w) ==> g == "?"@
        }),
{
    law_words_end_at_white_space(pre, w, rest);
    reveal_strlit("2.5");
    reveal_strlit("5.0");
    reveal_strlit("8.0");
    reveal_strlit("16.0");
    reveal_strlit("32.0");
    reveal_strlit("64.0");
    assert("2.5"@[0] == '2');
    assert("5.0"@[0] == '5');
    assert("8.0"@[0] == '8');
    assert("16.0"@[0] == '1');
    assert("32.0"@[0] == '3');
    assert("64.0"@[0] == '6');
}

/// A link is known exactly if its speed names a generation and its width is not
/// blank.
pub proof fn law_links_have_a_generation_and_a_width(
    speed: Option<Seq<char>>,
    width: Option<Seq<char>>,
)
    ensures
        nics::link_text(speed, width) is Some <==> speed is Some && width is Some
            && nics::generation(text::trimmed(speed->0)) != "?"@ && exists|i: int|
            0 <= i < (width->0).len() && !text::is_space(#[trigger] (width->0)[i]),
{
    if width is Some {
        lemma_blank(width->0);
    }
}

pub proof fn lemma_blank(s: Seq<char>)
    ensures
        text::trimmed(s).len() > 0 <==> exists|i: int|
            0 <= i < s.len() && !text::is_space(#[trigger] s[i]),
{
    let (pre, post) = numerals::law_trimmed_text_is_tight(s);
    let t = text::trimmed(s);
    assert(s == pre + t + post);
    if t.len() > 0 {
        assert(s[pre.len() as int] == t[0]);
    } else {
        assert forall|i: int| 0 <= i < s.len() implies text::is_space(#[trigger] s[i]) by {
            if i < pre.len() {
                assert(s[i] == pre[i]);
            } else {
                assert(s[i] == post[i - pre.len()]);
            }
        }
    }
}

// ---- addresses ----

/// An address without a domain gets one of zeros; a long domain is cut to its last
/// four characters; any other address stays as it is.
pub proof fn law_addresses_have_a_short_domain(
    front: Seq<char>,
    domain: Seq<char>,
    bus: Seq<char>,
    slot: Seq<char>,
)
    requires
        machine::plain(front),
        machine::plain(domain),
        !front.contains(':'),
        !domain.contains(':'),
        !bus.contains(':'),
        !slot.contains(':'),
        domain.len() == 4,
    ensures
        ({
            let short = bus + seq![':'] + slot;
            &&& nics::sysfs_addr(short) == "0000:"@ + short
            &&& nics::sysfs_addr(domain + seq![':'] + short) == domain + seq![':'] + short
            &&& nics::sysfs_addr(front + domain + seq![':'] + short) == domain + seq![':'] + short
            &&& nics::sysfs_addr(slot) == slot
        }),
{
    let short = bus + seq![':'] + slot;
    numerals::lemma_split_one(slot, ':');
    numerals::lemma_split_one(bus, ':');
    numerals::lemma_split_last(bus, slot, ':');
    numerals::lemma_split_one(domain, ':');
    numerals::lemma_split_last(domain, bus, ':');
    numerals::lemma_split_last(domain + seq![':'] + bus, slot, ':');
    assert(domain + seq![':'] + bus + seq![':'] + slot =~= domain + seq![':'] + short);
    let long = front + domain;
    assert(!long.contains(':')) by {
        if long.contains(':') {
            let i = long.index_of(':');
            if i < front.len() {
                assert(front[i] == ':');
            } else {
                assert(domain[i - front.len()] == ':');
            }
        }
    }
    numerals::lemma_split_one(long, ':');
    numerals::lemma_split_last(long, bus, ':');
    numerals::lemma_split_last(long + seq![':'] + bus, slot, ':');
    assert(long + seq![':'] + bus + seq![':'] + slot =~= long + seq![':'] + short);
    machine::law_domains_are_cut_to_four(front, domain, short);
    if front.len() == 0 {
        assert(long =~= domain);
    }
}

// ---- GPUs ----

pub proof fn lemma_digits_and_blanks(pre: Seq<char>, k: nat, n: nat, post: Seq<char>, c: char)
    requires
        numerals::all_space(pre),
        numerals::all_space(post),
        !text::is_space(c),
        !text::is_digit(c),
    ensures
        !(pre + numerals::numeral(k, n) + post).contains(c),
        numerals::is_tight(numerals::numeral(k, n)),
{
    numerals::lemma_numeral(k, n);
    let d = numerals::numeral(k, n);
    let s = pre + d + post;
    assert(text::is_digit(d[0]) && text::is_digit(d[d.len() - 1]));
    if s.contains(c) {
        let i = s.index_of(c);
        if i < pre.len() {
            assert(text::is_space(pre[i]));
        } else if i < pre.len() + d.len() {
            assert(text::is_digit(d[i - pre.len()]));
        } else {
            assert(text::is_space(post[i - pre.len() - d.len()]));
        }
    }
}

/// A line names a GPU by its number, with or without white space around it, and
/// what follows the first comma as its address; a line without a comma, or with a
/// number that is too great, names none.
pub proof fn law_lines_name_a_gpu(
    pre: Seq<char>,
    k: nat,
    n: nat,
    post: Seq<char>,
    addr: Seq<char>,
)
    requires
        numerals::all_space(pre),
        numerals::all_space(post),
    ensures
        ({
            let number = pre + numerals::numeral(k, n) + post;
            &&& nics::smi_line(number + seq![','] + addr) == if n <= u32::MAX {
                Some((n as u32, nics::sysfs_addr(nics::lowercase(text::trimmed(addr)))))
            } else {
                None
            }
            &&& nics::smi_line(number) is None
        }),
{
    let number = pre + numerals::numeral(k, n) + post;
    lemma_digits_and_blanks(pre, k, n, post, ',');
    numerals::law_parting_is_at_the_first(number, addr, ',');
    numerals::law_trimming_takes_the_ends(pre, numerals::numeral(k, n), post);
    numerals::law_unsigned_numbers_read_as_written(k, n, u32::MAX as nat);
}

proof fn lemma_smi_prefix(a: Seq<Seq<char>>, b: Seq<Seq<char>>, n: nat)
    requires
        n <= a.len(),
        n <= b.len(),
        forall|i: int| 0 <= i < n ==> a[i] == b[i],
    ensures
        nics::smi_lines(a, n) == nics::smi_lines(b, n),
    decreases n,
{
    if n > 0 {
        lemma_smi_prefix(a, b, (n - 1) as nat);
    }
}

/// A line more adds the GPU that it names behind the others, and one that names
/// none changes nothing.
pub proof fn law_gpus_are_listed_line_by_line(lines: Seq<Seq<char>>, line: Seq<char>)
    ensures
        nics::smi_lines(Seq::empty(), 0) == Seq::<(u32, Seq<char>)>::empty(),
        nics::smi_lines(lines.push(line), lines.len() + 1) == nics::smi_lines(lines, lines.len())
            + match nics::smi_line(line) {
            Some(g) => seq![g],
            None => Seq::empty(),
        },
{
    let all = lines.push(line);
    lemma_smi_prefix(all, lines, lines.len());
    assert(all[all.len() - 1] == line);
    let before = nics::smi_lines(lines, lines.len());
    match nics::smi_line(line) {
        Some(g) => {
            assert(before.push(g) =~= before + seq![g]);
        },
        None => {
            assert(before =~= before + Seq::<(u32, Seq<char>)>::empty());
        },
    }
}

/// Every GPU that is listed is detected, under its own number and address and on
/// the node that its own file names, and no other is.
pub proof fn law_listed_gpus_are_detected(
    list: Seq<(u32, Seq<char>)>,
    files: Seq<Option<Seq<char>>>,
    g: GpuInfoView,
)
    requires
        files.len() == list.len(),
    ensures
        nics::gpus_by_id(nics::listed_gpus(list, files), list.len()).len() == list.len(),
        nics::gpus_by_id(nics::listed_gpus(list, files), list.len()).contains(g) <==> exists|i: int|
            0 <= i < list.len() && (#[trigger] list[i]).0 == g.device_id && list[i].1 == g.pci_addr
                && nics::file_node(files[i]) == g.numa_node,
{
    broadcast use vstd::seq_lib::group_to_multiset_ensures;

    let all = nics::listed_gpus(list, files);
    let sorted = nics::gpus_by_id(all, list.len());
    nics::law_gpus_are_sorted(all, list.len());
    assert(all.take(list.len() as int) =~= all);
    assert(sorted.contains(g) <==> sorted.to_multiset().count(g) > 0);
    assert(all.contains(g) <==> all.to_multiset().count(g) > 0);
    assert(sorted.len() == sorted.to_multiset().len());
    assert(all.len() == all.to_multiset().len());
    if exists|i: int|
        0 <= i < list.len() && (#[trigger] list[i]).0 == g.device_id && list[i].1 == g.pci_addr
            && nics::file_node(files[i]) == g.numa_node {
        let i = choose|i: int|
            0 <= i < list.len() && (#[trigger] list[i]).0 == g.device_id && list[i].1 == g.pci_addr
                && nics::file_node(files[i]) == g.numa_node;
        assert(all[i] == g);
    }
    if all.contains(g) {
        let i = all.index_of(g);
        assert(all[i] == g);
        assert(list[i].0 == g.device_id);
    }
}

// ---- NICs ----

/// Whether a port's state says that it is up: a four and a colon, behind white
/// space at most.
pub open spec fn says_up(state: Option<Seq<char>>, pre: Seq<char>, rest: Seq<char>) -> bool {
    numerals::all_space(pre) && state == Some(pre + "4:"@ + rest)
}

/// A port is up exactly if its state starts so.
pub proof fn law_ports_are_up_by_their_state(
    state: Option<Seq<char>>,
    pre: Seq<char>,
    rest: Seq<char>,
) -> (r: (Seq<char>, Seq<char>))
    ensures
        says_up(state, pre, rest) ==> nics::is_active(state),
        nics::is_active(state) ==> says_up(state, r.0, r.1),
{
    reveal_strlit("4:");
    if says_up(state, pre, rest) {
        let tail = "4:"@ + rest;
        assert(pre + "4:"@ + rest =~= pre + tail);
        assert(tail[0] == '4');
        numerals::lemma_start_skips(pre, tail);
        numerals::law_prefixes_are_stripped(tail, "4:"@, rest);
    }
    match state {
        Some(s) => {
            let a = numerals::lemma_start_parts(s);
            let t = text::trimmed_start(s);
            let q = match text::stripped(t, "4:"@) {
                Some(x) => x,
                None => Seq::empty(),
            };
            if nics::is_active(state) {
                numerals::law_prefixes_are_stripped(t, "4:"@, q);
                assert(s =~= s.take(a) + "4:"@ + q);
            }
            (s.take(a), q)
        },
        None => (Seq::empty(), Seq::empty()),
    }
}

/// Whether a directory is that of a NIC that can carry traffic.
pub open spec fn is_nic_dir(dir: NicDirView, nic: RdmaNicInfoView) -> bool {
    &&& dir.name == Some(nic.name)
    &&& dir.pci_addr == Some(nic.pci_addr)
    &&& nic.pci_addr.len() > 0
    &&& nics::file_node(dir.numa) == nic.numa_node
    &&& dir.port_states matches Some(states) && exists|p: int|
        0 <= p < states.len() && nics::is_active(#[trigger] states[p])
}

proof fn lemma_dir_nics(dirs: Seq<NicDirView>, n: nat, nic: RdmaNicInfoView)
    requires
        n <= dirs.len(),
    ensures
        nics::dir_nics(dirs, n).contains(nic) <==> exists|i: int|
            0 <= i < n && is_nic_dir(#[trigger] dirs[i], nic),
    decreases n,
{
    if n > 0 {
        lemma_dir_nics(dirs, (n - 1) as nat, nic);
        let before = nics::dir_nics(dirs, (n - 1) as nat);
        let after = nics::dir_nics(dirs, n);
        let last = dirs[n - 1];
        assert(is_nic_dir(last, nic) <==> nics::dir_nic(last) == Some(nic));
        if before.contains(nic) {
            let j = before.index_of(nic);
            assert(after[j] == nic);
        }
        if nics::dir_nic(last) == Some(nic) {
            assert(after[before.len() as int] == nic);
        }
        if after.contains(nic) {
            let j = after.index_of(nic);
            if j < before.len() {
                assert(before[j] == nic);
            }
        }
    }
}

/// The NICs are those of the directories with a name, an address and a port that
/// is up, each on the node that its file names, and no other.
pub proof fn law_nics_with_a_port_up_are_listed(dirs: Seq<NicDirView>, nic: RdmaNicInfoView)
    ensures
        ({
            let found = nics::dir_nics(dirs, dirs.len());
            nics::nics_by_name(found, found.len()).contains(nic) <==> exists|i: int|
                0 <= i < dirs.len() && is_nic_dir(#[trigger] dirs[i], nic)
        }),
{
    broadcast use vstd::seq_lib::group_to_multiset_ensures;

    let found = nics::dir_nics(dirs, dirs.len());
    let sorted = nics::nics_by_name(found, found.len());
    lemma_dir_nics(dirs, dirs.len(), nic);
    nics::law_nics_are_sorted(found, found.len());
    assert(found.take(found.len() as int) =~= found);
    assert(sorted.contains(nic) <==> sorted.to_multiset().count(nic) > 0);
    assert(found.contains(nic) <==> found.to_multiset().count(nic) > 0);
}

/// Names are ordered by the first character in which they differ, and one that
/// another one starts with comes first.
pub proof fn law_names_are_ordered_by_their_first_difference(
    front: Seq<char>,
    a: char,
    x: Seq<char>,
    b: char,
    y: Seq<char>,
)
    ensures
        nics::name_le(front, front + x),
        x.len() > 0 ==> !nics::name_le(front + x, front),
        a != b ==> (nics::name_le(front + seq![a] + x, front + seq![b] + y) <==> (a as u32) < (
        b as u32)),
    decreases front.len(),
{
    let p = front + seq![a] + x;
    let q = front + seq![b] + y;
    if front.len() == 0 {
        assert(front + x =~= x);
    } else {
        let rest = front.skip(1);
        law_names_are_ordered_by_their_first_difference(rest, a, x, b, y);
        assert((front + x).skip(1) =~= rest + x);
        assert(p.skip(1) =~= rest + seq![a] + x);
        assert(q.skip(1) =~= rest + seq![b] + y);
    }
}

// ---- groups ----

proof fn lemma_gpus_on(gpus: Seq<GpuInfoView>, node: NumaNode, n: nat, g: GpuInfoView)
    requires
        n <= gpus.len(),
    ensures
        nics::gpus_on(gpus, node, n).to_multiset().count(g) == if g.numa_node == node {
            gpus.take(n as int).to_multiset().count(g)
        } else {
            0
        },
    decreases n,
{
    if n == 0 {
        broadcast use vstd::seq_lib::group_to_multiset_ensures;

        assert(gpus.take(0) =~= Seq::empty());
    } else {
        lemma_gpus_on(gpus, node, (n - 1) as nat, g);
        let last = gpus[n - 1];
        assert(gpus.take(n as int) =~= gpus.take(n - 1).push(last));
        vstd::seq_lib::to_multiset_build(gpus.take(n - 1), last);
        vstd::seq_lib::to_multiset_build(nics::gpus_on(gpus, node, (n - 1) as nat), last);
    }
}

proof fn lemma_nics_on(nics_given: Seq<RdmaNicInfoView>, node: NumaNode, n: nat, x: RdmaNicInfoView)
    requires
        n <= nics_given.len(),
    ensures
        nics::nics_on(nics_given, node, n).to_multiset().count(x) == if x.numa_node == node {
            nics_given.take(n as int).to_multiset().count(x)
        } else {
            0
        },
    decreases n,
{
    if n == 0 {
        broadcast use vstd::seq_lib::group_to_multiset_ensures;

        assert(nics_given.take(0) =~= Seq::empty());
    } else {
        lemma_nics_on(nics_given, node, (n - 1) as nat, x);
        let last = nics_given[n - 1];
        assert(nics_given.take(n as int) =~= nics_given.take(n - 1).push(last));
        vstd::seq_lib::to_multiset_build(nics_given.take(n - 1), last);
        vstd::seq_lib::to_multiset_build(nics::nics_on(nics_given, node, (n - 1) as nat), last);
    }
}

/// A group holds the GPUs and the NICs of its node, each as often as it is given,
/// none of another node, and the node's CPUs.
pub proof fn law_groups_hold_what_is_on_their_node(
    groups: Seq<NumaGroupView>,
    gpus: Seq<GpuInfoView>,
    nics_given: Seq<RdmaNicInfoView>,
    cpus: Map<u32, Seq<usize>>,
    i: int,
    g: GpuInfoView,
    x: RdmaNicInfoView,
)
    requires
        nics::grouped(groups, gpus, nics_given, cpus),
        0 <= i < groups.len(),
    ensures
        groups[i].gpus.to_multiset().count(g) == if g.numa_node == groups[i].node {
            gpus.to_multiset().count(g)
        } else {
            0
        },
        groups[i].nics.to_multiset().count(x) == if x.numa_node == groups[i].node {
            nics_given.to_multiset().count(x)
        } else {
            0
        },
        cpus.contains_key(groups[i].node.0) ==> groups[i].cpus == cpus[groups[i].node.0],
        !cpus.contains_key(groups[i].node.0) ==> groups[i].cpus.len() == 0,
{
    let node = groups[i].node.0;
    assert(groups[i] == nics::group_of(gpus, nics_given, cpus, node));
    let on = nics::gpus_on(gpus, NumaNode(node), gpus.len());
    let nic_on = nics::nics_on(nics_given, NumaNode(node), nics_given.len());
    lemma_gpus_on(gpus, NumaNode(node), gpus.len(), g);
    lemma_nics_on(nics_given, NumaNode(node), nics_given.len(), x);
    nics::law_gpus_are_sorted(on, on.len());
    nics::law_nics_are_sorted(nic_on, nic_on.len());
    assert(on.take(on.len() as int) =~= on);
    assert(nic_on.take(nic_on.len() as int) =~= nic_on);
    assert(gpus.take(gpus.len() as int) =~= gpus);
    assert(nics_given.take(nics_given.len() as int) =~= nics_given);
}

proof fn lemma_gpu_among(gpus: Seq<GpuInfoView>, node: u32, n: nat)
    requires
        n <= gpus.len(),
    ensures
        nics::gpu_among(gpus, node, n as int) <==> exists|i: int|
            0 <= i < n && (#[trigger] gpus[i]).numa_node.0 == node,
    decreases n,
{
    if n > 0 {
        lemma_gpu_among(gpus, node, (n - 1) as nat);
        if nics::gpu_among(gpus, node, n as int) && !nics::gpu_among(gpus, node, n - 1) {
            assert(gpus[n - 1].numa_node.0 == node);
        }
    }
}

proof fn lemma_nic_among(nics_given: Seq<RdmaNicInfoView>, node: u32, n: nat)
    requires
        n <= nics_given.len(),
    ensures
        nics::nic_among(nics_given, node, n as int) <==> exists|i: int|
            0 <= i < n && (#[trigger] nics_given[i]).numa_node.0 == node,
    decreases n,
{
    if n > 0 {
        lemma_nic_among(nics_given, node, (n - 1) as nat);
        if nics::nic_among(nics_given, node, n as int) && !nics::nic_among(
            nics_given,
            node,
            n - 1,
        ) {
            assert(nics_given[n - 1].numa_node.0 == node);
        }
    }
}

/// There is a group for a node exactly if it has CPUs, or is known and has a GPU
/// or a NIC, and no two are for one node.
pub proof fn law_nodes_with_anything_have_a_group(
    groups: Seq<NumaGroupView>,
    gpus: Seq<GpuInfoView>,
    nics_given: Seq<RdmaNicInfoView>,
    cpus: Map<u32, Seq<usize>>,
    node: u32,
    i: int,
    j: int,
)
    requires
        nics::grouped(groups, gpus, nics_given, cpus),
    ensures
        (exists|i: int| 0 <= i < groups.len() && (#[trigger] groups[i]).node.0 == node)
            <==> cpus.contains_key(node) || node != u32::MAX && ((exists|i: int|
            0 <= i < gpus.len() && (#[trigger] gpus[i]).numa_node.0 == node) || (exists|i: int|
            0 <= i < nics_given.len() && (#[trigger] nics_given[i]).numa_node.0 == node)),
        0 <= i < j < groups.len() ==> groups[i].node.0 < groups[j].node.0,
{
    lemma_gpu_among(gpus, node, gpus.len());
    lemma_nic_among(nics_given, node, nics_given.len());
    assert(nics::has_group(groups, node) <==> nics::known_nodes(gpus, nics_given, cpus).contains(
        node,
    ));
    if nics::has_group(groups, node) {
        let k = choose|k: int| 0 <= k < groups.len() && (#[trigger] groups[k]).node == NumaNode(node);
        assert(groups[k].node.0 == node);
    }
    if exists|i: int| 0 <= i < groups.len() && (#[trigger] groups[i]).node.0 == node {
        let k = choose|k: int| 0 <= k < groups.len() && (#[trigger] groups[k]).node.0 == node;
        assert(groups[k].node == NumaNode(node));
    }
}

proof fn lemma_beside(groups: Seq<NumaGroupView>, device_id: u32, from: nat, i: nat)
    requires
        from <= i < groups.len(),
        nics::has_gpu(groups[i as int], device_id),
        forall|j: int| from <= j < i ==> !nics::has_gpu(#[trigger] groups[j], device_id),
    ensures
        nics::nics_beside(groups, device_id, from) == groups[i as int].nics,
    decreases i - from,
{
    if from < i {
        assert(!nics::has_gpu(groups[from as int], device_id));
        lemma_beside(groups, device_id, from + 1, i);
    }
}

/// A GPU whose number is its own finds every NIC on its node, and no other.
pub proof fn law_a_gpu_finds_every_nic_of_its_node(
    groups: Seq<NumaGroupView>,
    gpus: Seq<GpuInfoView>,
    nics_given: Seq<RdmaNicInfoView>,
    cpus: Map<u32, Seq<usize>>,
    g: int,
    x: RdmaNicInfoView,
)
    requires
        nics::grouped(groups, gpus, nics_given, cpus),
        0 <= g < gpus.len(),
        gpus[g].numa_node.0 != u32::MAX,
        forall|h: int|
            0 <= h < gpus.len() && (#[trigger] gpus[h]).device_id == gpus[g].device_id ==> h == g,
    ensures
        nics::nics_beside(groups, gpus[g].device_id, 0).contains(x) <==> nics_given.contains(x)
            && x.numa_node == gpus[g].numa_node,
{
    broadcast use vstd::seq_lib::group_to_multiset_ensures;

    let gpu = gpus[g];
    let node = gpu.numa_node.0;
    law_nodes_with_anything_have_a_group(groups, gpus, nics_given, cpus, node, 0, 0);
    let i = choose|i: int| 0 <= i < groups.len() && (#[trigger] groups[i]).node.0 == node;
    assert(groups[i].node == gpu.numa_node);
    law_groups_hold_what_is_on_their_node(groups, gpus, nics_given, cpus, i, gpu, x);
    assert(gpus.contains(gpu));
    assert(groups[i].gpus.contains(gpu));
    let p = groups[i].gpus.index_of(gpu);
    assert(groups[i].gpus[p].device_id == gpu.device_id);
    assert(nics::has_gpu(groups[i], gpu.device_id));
    assert forall|j: int| 0 <= j < i implies !nics::has_gpu(#[trigger] groups[j], gpu.device_id) by {
        if nics::has_gpu(groups[j], gpu.device_id) {
            let q = choose|q: int|
                0 <= q < groups[j].gpus.len() && (#[trigger] groups[j].gpus[q]).device_id
                    == gpu.device_id;
            let o = groups[j].gpus[q];
            assert(groups[j].gpus.contains(o));
            law_groups_hold_what_is_on_their_node(groups, gpus, nics_given, cpus, j, o, x);
            assert(gpus.contains(o));
            let h = gpus.index_of(o);
            assert(gpus[h].device_id == gpu.device_id);
        }
    }
    lemma_beside(groups, gpu.device_id, 0, i as nat);
    assert(groups[i].nics.contains(x) <==> groups[i].nics.to_multiset().count(x) > 0);
    assert(nics_given.contains(x) <==> nics_given.to_multiset().count(x) > 0);
}

/// A GPU that no group has finds no NIC.
pub proof fn law_a_gpu_off_the_nodes_finds_no_nic(
    groups: Seq<NumaGroupView>,
    device_id: u32,
    from: nat,
)
    requires
        forall|i: int|
            from <= i < groups.len() ==> !nics::has_gpu(#[trigger] groups[i], device_id),
    ensures
        nics::nics_beside(groups, device_id, from).len() == 0,
    decreases groups.len() - from,
{
    if from < groups.len() {
        assert(!nics::has_gpu(groups[from as int], device_id));
        law_a_gpu_off_the_nodes_finds_no_nic(groups, device_id, from + 1);
    }
}

// ---- PCIe paths ----

proof fn lemma_pci_prefix(a: Seq<Seq<char>>, b: Seq<Seq<char>>, n: nat)
    requires
        n <= a.len(),
        n <= b.len(),
        forall|i: int| 0 <= i < n ==> a[i] == b[i],
    ensures
        nics::pci_parts(a, n) == nics::pci_parts(b, n),
    decreases n,
{
    if n > 0 {
        lemma_pci_prefix(a, b, (n - 1) as nat);
    }
}

/// A path names the devices of its parts in their order: a part more adds a device
/// behind the others if it has a colon and a dot and is no domain's, and nothing
/// otherwise.
pub proof fn law_paths_name_devices_part_by_part(parts: Seq<Seq<char>>, part: Seq<char>)
    ensures
        nics::pci_parts(Seq::empty(), 0) == Seq::<Seq<char>>::empty(),
        nics::pci_parts(parts.push(part), parts.len() + 1) == nics::pci_parts(parts, parts.len())
            + if part.contains(':') && part.contains('.') && !(part.len() >= 3 && part.take(3)
            == "pci"@) {
            seq![part]
        } else {
            Seq::empty()
        },
{
    reveal_strlit("pci");
    let all = parts.push(part);
    lemma_pci_prefix(all, parts, parts.len());
    assert(all[all.len() - 1] == part);
    let before = nics::pci_parts(parts, parts.len());
    match text::stripped(part, "pci"@) {
        Some(rest) => {
            numerals::law_prefixes_are_stripped(part, "pci"@, rest);
            assert(part.take(3) =~= "pci"@);
        },
        None => {
            if part.len() >= 3 && part.take(3) == "pci"@ {
                numerals::law_prefixes_are_stripped(part, "pci"@, part.skip(3));
                assert(part =~= "pci"@ + part.skip(3));
            }
        },
    }
    if nics::is_pci_part(part) {
        assert(before.push(part) =~= before + seq![part]);
    } else {
        assert(before =~= before + Seq::<Seq<char>>::empty());
    }
}

} // verus!
