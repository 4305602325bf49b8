//! What is read of a host's NUMA nodes, on the texts and numbers themselves.
use vstd::prelude::*;

use crate::machine;
use crate::numerals;
use crate::rdma::hosts;
use crate::rdma::numa;
use crate::rdma::numa::{NodeDirView, NumaNode, NumaTopologyView};
use crate::text;
use crate::topology;

verus! {

// ---- CPU lists ----

proof fn lemma_parts_prefix(a: Seq<Seq<char>>, b: Seq<Seq<char>>, n: nat)
    requires
        n <= a.len(),
        n <= b.len(),
        forall|i: int| 0 <= i < n ==> a[i] == b[i],
    ensures
        numa::strict_parts(a, n) == numa::strict_parts(b, n),
    decreases n,
{
    if n > 0 {
        lemma_parts_prefix(a, b, (n - 1) as nat);
    }
}

proof fn lemma_one_part(part: Seq<char>)
    requires
        part.len() > 0,
        !part.contains(','),
    ensures
        numa::strict_cpus(part) == numa::strict_part(part),
{
    numerals::lemma_split_one(part, ',');
    let parts = text::split_by(part, ',');
    assert(parts.len() == 1);
    assert(numa::strict_parts(parts, 0) == Ok::<Seq<usize>, Seq<char>>(Seq::empty()));
    match numa::strict_part(part) {
        Ok(cpus) => {
            assert(Seq::<usize>::empty() + cpus =~= cpus);
        },
        Err(_) => {},
    }
}

/// A list names the CPUs of its parts, one part after the other; the first part
/// that is wrong has the list refused, and an empty part is wrong.
pub proof fn law_strict_lists_add_up(list: Seq<char>, part: Seq<char>)
    requires
        list.len() > 0,
        !part.contains(','),
    ensures
        part.len() > 0 ==> numa::strict_cpus(list + seq![','] + part) == match (
            numa::strict_cpus(list),
            numa::strict_cpus(part),
        ) {
            (Err(e), _) => Err(e),
            (Ok(_), Err(e)) => Err(e),
            (Ok(a), Ok(b)) => Ok(a + b),
        },
        part.len() == 0 ==> numa::strict_cpus(list + seq![','] + part) is Err,
        numa::strict_cpus(Seq::empty()) == Ok::<Seq<usize>, Seq<char>>(Seq::empty()),
{
    numerals::lemma_split_last(list, part, ',');
    let before = text::split_by(list, ',');
    let all = before.push(part);
    lemma_parts_prefix(all, before, before.len());
    assert(all[all.len() - 1] == part);
    if part.len() > 0 {
        lemma_one_part(part);
    } else {
        assert(part =~= Seq::empty());
        assert(text::split_by(part, '-').len() == 1);
        assert(text::unsigned(part, usize::MAX as nat) is None);
    }
}

/// A number names one CPU and a range every one from its first to its last;
/// numbers of more than a machine word, and ranges with more than two ends, are
/// refused.
pub proof fn law_strict_numbers_and_ranges(
    j: nat,
    a: nat,
    k: nat,
    b: nat,
    more: Seq<char>,
    x: usize,
)
    requires
        !more.contains(','),
        !more.contains('-'),
    ensures
        ({
            let first = numerals::numeral(j, a);
            let last = numerals::numeral(k, b);
            let range = first + seq!['-'] + last;
            &&& a <= usize::MAX ==> numa::strict_cpus(first) == Ok::<Seq<usize>, Seq<char>>(
                seq![a as usize],
            )
            &&& a > usize::MAX ==> numa::strict_cpus(first) is Err && numa::strict_cpus(
                range,
            ) is Err
            &&& b > usize::MAX ==> numa::strict_cpus(range) is Err
            &&& a <= usize::MAX && b <= usize::MAX ==> {
                &&& numa::strict_cpus(range) matches Ok(cpus) && (cpus.contains(x) <==> a <= x
                    <= b) && forall|p: int, q: int|
                    0 <= p < q < cpus.len() ==> #[trigger] cpus[p] < #[trigger] cpus[q]
            }
            &&& numa::strict_cpus(range + seq!['-'] + more) is Err
        }),
{
    let first = numerals::numeral(j, a);
    let last = numerals::numeral(k, b);
    let range = first + seq!['-'] + last;
    let long = range + seq!['-'] + more;
    machine::lemma_no_char(j, a, ',');
    machine::lemma_no_char(j, a, '-');
    machine::lemma_no_char(k, b, ',');
    machine::lemma_no_char(k, b, '-');
    numerals::lemma_numeral(j, a);
    assert(!range.contains(',')) by {
        if range.contains(',') {
            let i = range.index_of(',');
            if i < first.len() {
                assert(first[i] == ',');
            } else if i > first.len() {
                assert(last[i - first.len() - 1] == ',');
            }
        }
    }
    assert(!long.contains(',')) by {
        if long.contains(',') {
            let i = long.index_of(',');
            if i < range.len() {
                assert(range[i] == ',');
            } else if i > range.len() {
                assert(more[i - range.len() - 1] == ',');
            }
        }
    }
    lemma_one_part(first);
    lemma_one_part(range);
    lemma_one_part(long);
    numerals::lemma_split_one(first, '-');
    numerals::lemma_split_last(first, last, '-');
    numerals::lemma_split_last(range, more, '-');
    numerals::law_unsigned_numbers_read_as_written(j, a, usize::MAX as nat);
    numerals::law_unsigned_numbers_read_as_written(k, b, usize::MAX as nat);
    if a <= usize::MAX && b <= usize::MAX {
        let cpus = topology::run_of(a, b);
        assert(numa::strict_cpus(range) == Ok::<Seq<usize>, Seq<char>>(cpus));
        if a <= x <= b {
            assert(cpus[x - a] == x);
        }
        if cpus.contains(x) {
            let i = cpus.index_of(x);
            assert(cpus[i] == (a + i) as usize);
        }
    }
}

// ---- node directories ----

/// A directory that is named `node` and a number lists that node's CPUs, white
/// space around the list left out; without a list it says nothing, and one that
/// could not be read, or is wrong, is an error. Any other name says nothing, and
/// `node` with no number behind it is an error.
pub proof fn law_directories_list_their_node(
    k: nat,
    n: nat,
    dir: NodeDirView,
    pre: Seq<char>,
    list: Seq<char>,
    post: Seq<char>,
)
    requires
        n <= u32::MAX,
        numerals::all_space(pre),
        numerals::all_space(post),
        numerals::is_tight(list),
    ensures
        dir.name == "node"@ + numerals::numeral(k, n) ==> {
            &&& dir.cpulist is None ==> numa::dir_cpus(dir) == Ok::<
                Option<(u32, Seq<usize>)>,
                Seq<char>,
            >(None)
            &&& dir.cpulist matches Some(Err(e)) ==> numa::dir_cpus(dir) == Err::<
                Option<(u32, Seq<usize>)>,
                Seq<char>,
            >(e)
            &&& dir.cpulist == Some(Ok::<Seq<char>, Seq<char>>(pre + list + post))
                ==> numa::dir_cpus(dir) == match numa::strict_cpus(list) {
                Ok(cpus) => Ok(Some((n as u32, cpus))),
                Err(e) => Err(e),
            }
        },
        !(dir.name.len() >= 4 && dir.name.take(4) == "node"@) ==> numa::dir_cpus(dir) == Ok::<
            Option<(u32, Seq<usize>)>,
            Seq<char>,
        >(None),
        dir.name == "node"@ ==> numa::dir_cpus(dir) is Err,
{
    reveal_strlit("node");
    let number = numerals::numeral(k, n);
    if dir.name == "node"@ + number {
        numerals::law_prefixes_are_stripped(dir.name, "node"@, number);
        numerals::law_unsigned_numbers_read_as_written(k, n, u32::MAX as nat);
        numerals::law_trimming_takes_the_ends(pre, list, post);
    }
    match text::stripped(dir.name, "node"@) {
        Some(rest) => {
            numerals::law_prefixes_are_stripped(dir.name, "node"@, rest);
            assert(dir.name.take(4) =~= "node"@);
        },
        None => {},
    }
    if dir.name == "node"@ {
        let none = Seq::<char>::empty();
        assert(dir.name =~= "node"@ + none);
        numerals::law_prefixes_are_stripped(dir.name, "node"@, none);
        assert(text::unsigned(none, u32::MAX as nat) is None);
    }
}

proof fn lemma_dirs_error(dirs: Seq<NodeDirView>, n: nat)
    requires
        n <= dirs.len(),
    ensures
        numa::dirs_error(dirs, n) is None <==> forall|i: int|
            0 <= i < n ==> numa::dir_cpus(#[trigger] dirs[i]) is Ok,
    decreases n,
{
    if n > 0 {
        lemma_dirs_error(dirs, (n - 1) as nat);
    }
}

/// What is read of the directories is refused exactly if one of them is wrong,
/// and for the first that is.
pub proof fn law_one_wrong_directory_refuses_all(dirs: Seq<NodeDirView>, i: int)
    requires
        0 <= i < dirs.len(),
        forall|j: int| 0 <= j < i ==> numa::dir_cpus(#[trigger] dirs[j]) is Ok,
    ensures
        numa::dir_cpus(dirs[i]) matches Err(e) ==> numa::dirs_error(dirs, dirs.len()) == Some(e),
        (forall|j: int| 0 <= j < dirs.len() ==> numa::dir_cpus(#[trigger] dirs[j]) is Ok)
            ==> numa::dirs_error(dirs, dirs.len()) is None,
{
    lemma_dirs_error(dirs, dirs.len());
    lemma_dirs_error(dirs, i as nat);
    if numa::dir_cpus(dirs[i]) is Err {
        assert(numa::dirs_error(dirs, (i + 1) as nat) is Some);
        numa::lemma_dirs_error(dirs, (i + 1) as nat, dirs.len());
    }
}

/// Whether the directory at `i` is the last of the first `n` to list a node.
pub open spec fn lists_last(dirs: Seq<NodeDirView>, n: nat, i: int, node: u32) -> bool {
    &&& 0 <= i < n
    &&& numa::dir_cpus(dirs[i]) matches Ok(Some((id, _))) && id == node
    &&& forall|j: int|
        i < j < n ==> !(numa::dir_cpus(#[trigger] dirs[j]) matches Ok(Some((id, _))) && id == node)
}

proof fn lemma_said(dirs: Seq<NodeDirView>, n: nat, node: u32) -> (i: int)
    requires
        n <= dirs.len(),
    ensures
        match numa::cpus_said(dirs, node, n) {
            Some(cpus) => lists_last(dirs, n, i, node) && numa::dir_cpus(dirs[i]) == Ok::<
                Option<(u32, Seq<usize>)>,
                Seq<char>,
            >(Some((node, cpus))),
            None => forall|j: int|
                0 <= j < n ==> !(numa::dir_cpus(#[trigger] dirs[j]) matches Ok(Some((id, _)))
                    && id == node),
        },
    decreases n,
{
    if n == 0 {
        0
    } else {
        match numa::dir_cpus(dirs[n - 1]) {
            Ok(Some((id, _))) => if id == node {
                n - 1
            } else {
                lemma_said(dirs, (n - 1) as nat, node)
            },
            _ => lemma_said(dirs, (n - 1) as nat, node),
        }
    }
}

/// A node has the CPUs of the last directory that lists it, each once and
/// ascending, and a node that none lists is not there.
pub proof fn law_nodes_have_the_cpus_listed_last(
    m: Map<u32, Vec<usize>>,
    dirs: Seq<NodeDirView>,
    node: u32,
    x: usize,
) -> (i: int)
    requires
        numa::is_cpu_map(m, dirs, dirs.len()),
    ensures
        m.contains_key(node) ==> lists_last(dirs, dirs.len(), i, node) && (numa::dir_cpus(
            dirs[i],
        ) matches Ok(Some((_, cpus))) && (m[node]@.contains(x) <==> cpus.contains(x))) && forall|
            p: int,
            q: int,
        |
            0 <= p < q < m[node]@.len() ==> #[trigger] m[node]@[p] < #[trigger] m[node]@[q],
        !m.contains_key(node) ==> forall|j: int|
            0 <= j < dirs.len() ==> !(numa::dir_cpus(#[trigger] dirs[j]) matches Ok(Some((id, _)))
                && id == node),
{
    let i = lemma_said(dirs, dirs.len(), node);
    match numa::cpus_said(dirs, node, dirs.len()) {
        Some(cpus) => {
            assert(numa::sorted_from(m[node]@, cpus));
        },
        None => {},
    }
    i
}

proof fn lemma_any_said(dirs: Seq<NodeDirView>, n: nat)
    requires
        n <= dirs.len(),
    ensures
        numa::any_said(dirs, n) <==> exists|i: int|
            0 <= i < n && (numa::dir_cpus(#[trigger] dirs[i]) matches Ok(Some(_))),
    decreases n,
{
    if n > 0 {
        lemma_any_said(dirs, (n - 1) as nat);
        if numa::any_said(dirs, n) && !numa::any_said(dirs, (n - 1) as nat) {
            assert(numa::dir_cpus(dirs[n - 1]) matches Ok(Some(_)));
        }
    }
}

/// Nodes are found exactly if a directory lists CPUs.
pub proof fn law_nodes_are_found_by_their_lists(dirs: Seq<NodeDirView>)
    ensures
        numa::any_said(dirs, dirs.len()) <==> exists|i: int|
            0 <= i < dirs.len() && (numa::dir_cpus(#[trigger] dirs[i]) matches Ok(Some(_))),
{
    lemma_any_said(dirs, dirs.len());
}

// ---- GPU affinity ----

/// The first line of a text ends at the first line break.
pub proof fn law_lines_end_at_a_break(line: Seq<char>, rest: Seq<char>)
    requires
        !line.contains('\n'),
    ensures
        numa::first_line(line + seq!['\n'] + rest) == line,
        numa::first_line(line) == line,
{
    numerals::law_parting_is_at_the_first(line, rest, '\n');
}

proof fn lemma_split_front(a: Seq<char>, b: Seq<char>, sep: char)
    requires
        !a.contains(sep),
    ensures
        text::split_by(a + seq![sep] + b, sep) == seq![a] + text::split_by(b, sep),
    decreases b.len(),
{
    let s = a + seq![sep] + b;
    text::lemma_split_nonempty(b, sep);
    if b.len() == 0 {
        numerals::lemma_split_last(a, b, sep);
        numerals::lemma_split_one(a, sep);
        assert(b =~= Seq::empty());
        assert(text::split_by(s, sep) =~= seq![a] + text::split_by(b, sep));
    } else {
        let c = b.drop_last();
        text::lemma_split_nonempty(c, sep);
        lemma_split_front(a, c, sep);
        assert(s.drop_last() =~= a + seq![sep] + c);
        assert(text::split_by(s, sep) =~= seq![a] + text::split_by(b, sep));
    }
}

/// A report names the node whose number stands first behind the first colon of its
/// first line, white space around it left out: whatever follows behind a comma, a
/// further colon or in further lines does not matter.
pub proof fn law_reports_name_the_first_node(
    head: Seq<char>,
    pre: Seq<char>,
    k: nat,
    n: nat,
    post: Seq<char>,
    more: Seq<char>,
    lines: Seq<char>,
)
    requires
        !head.contains(':'),
        !head.contains('\n'),
        numerals::all_space(pre),
        numerals::all_space(post),
        !pre.contains('\n'),
        !post.contains('\n'),
        !more.contains('\n'),
    ensures
        ({
            let node = if n <= u32::MAX {
                NumaNode(n as u32)
            } else {
                NumaNode(u32::MAX)
            };
            let line = head + seq![':'] + (pre + numerals::numeral(k, n) + post);
            &&& numa::closest_node(line) == node
            &&& numa::closest_node(line + seq!['\n'] + lines) == node
            &&& !more.contains(':') ==> numa::closest_node(line + seq![','] + more) == node
            &&& numa::closest_node(line + seq![':'] + more) == node
            &&& numa::closest_node(head) == NumaNode(u32::MAX)
        }),
{
    let number = numerals::numeral(k, n);
    let field = pre + number + post;
    let line = head + seq![':'] + field;
    numerals::lemma_numeral(k, n);
    assert(text::is_digit(number[0]) && text::is_digit(number[number.len() - 1]));
    hosts::lemma_digits_and_blanks(pre, k, n, post, ':');
    hosts::lemma_digits_and_blanks(pre, k, n, post, ',');
    machine::lemma_no_char(k, n, '\n');
    assert(!field.contains('\n')) by {
        if field.contains('\n') {
            let i = field.index_of('\n');
            if i < pre.len() {
                assert(pre[i] == '\n');
            } else if i < pre.len() + number.len() {
                assert(number[i - pre.len()] == '\n');
            } else {
                assert(post[i - pre.len() - number.len()] == '\n');
            }
        }
    }
    lemma_joined_without(head, ':', field, '\n');
    lemma_joined_without(line, ',', more, '\n');
    lemma_joined_without(line, ':', more, '\n');
    law_lines_end_at_a_break(line, lines);
    law_lines_end_at_a_break(line + seq![','] + more, lines);
    law_lines_end_at_a_break(line + seq![':'] + more, lines);
    law_lines_end_at_a_break(head, lines);
    numerals::lemma_split_one(head, ':');
    numerals::lemma_split_one(field, ':');
    numerals::lemma_split_one(field, ',');
    lemma_split_front(head, field, ':');
    numerals::law_trimming_takes_the_ends(pre, number, post);
    numerals::law_unsigned_numbers_read_as_written(k, n, u32::MAX as nat);
    let wide = field + seq![':'] + more;
    lemma_split_front(head, wide, ':');
    lemma_split_front(field, more, ':');
    assert(head + seq![':'] + wide =~= line + seq![':'] + more);
    if !more.contains(':') {
        let listed = field + seq![','] + more;
        lemma_joined_without(field, ',', more, ':');
        numerals::lemma_split_one(listed, ':');
        lemma_split_front(head, listed, ':');
        lemma_split_front(field, more, ',');
        assert(head + seq![':'] + listed =~= line + seq![','] + more);
    }
}

proof fn lemma_joined_without(a: Seq<char>, sep: char, b: Seq<char>, c: char)
    requires
        sep != c,
        !a.contains(c),
        !b.contains(c),
    ensures
        !(a + seq![sep] + b).contains(c),
{
    let s = a + seq![sep] + b;
    if s.contains(c) {
        let i = s.index_of(c);
        if i < a.len() {
            assert(a[i] == c);
        } else if i > a.len() {
            assert(b[i - a.len() - 1] == c);
        }
    }
}

/// Devices are told apart by their keys, and a device whose number is not too
/// great has it for a key.
pub proof fn law_devices_have_their_own_key(a: u32, b: u32)
    ensures
        numa::device_key(a) == numa::device_key(b) <==> a == b,
        a <= i32::MAX ==> numa::device_key(a) == a,
{
}

/// Whether the entry at `i` is the last of the first `n` for a device.
pub open spec fn placed_last(affinity: Seq<(u32, NumaNode)>, n: nat, i: int, device: u32) -> bool {
    &&& 0 <= i < n
    &&& affinity[i].0 == device
    &&& forall|j: int| i < j < n ==> (#[trigger] affinity[j]).0 != device
}

/// A GPU is on the node that its last entry names, and a GPU without an entry is on
/// none.
pub proof fn law_gpus_are_where_their_last_entry_says(
    affinity: Seq<(u32, NumaNode)>,
    n: nat,
    device: u32,
) -> (i: int)
    requires
        n <= affinity.len(),
    ensures
        ({
            let map = numa::affinity_map(affinity, n);
            let key = numa::device_key(device);
            &&& map.contains_key(key) ==> placed_last(affinity, n, i, device) && map[key]
                == affinity[i].1
            &&& !map.contains_key(key) ==> forall|j: int|
                0 <= j < n ==> (#[trigger] affinity[j]).0 != device
        }),
    decreases n,
{
    if n == 0 {
        0
    } else if affinity[n - 1].0 == device {
        n - 1
    } else {
        law_devices_have_their_own_key(affinity[n - 1].0, device);
        law_gpus_are_where_their_last_entry_says(affinity, (n - 1) as nat, device)
    }
}

// ---- pages ----

/// The start of a page is a multiple of its size, and the address lies in it.
pub proof fn law_pages_hold_their_addresses(addr: u64, page: u64)
    requires
        page > 0,
    ensures
        numa::page_start(addr, page) <= addr < numa::page_start(addr, page) + page,
        numa::page_start(addr, page) as int % page as int == 0,
{
    let a = addr as int;
    let p = page as int;
    vstd::arithmetic::div_mod::lemma_fundamental_div_mod(a, p);
    assert(a % p <= a) by (nonlinear_arith)
        requires
            a >= 0,
            p > 0,
    ;
    let start = numa::page_start(addr, page) as int;
    assert(start == p * (a / p));
    vstd::arithmetic::div_mod::lemma_mod_multiples_basic(a / p, p);
    assert(p * (a / p) == (a / p) * p) by (nonlinear_arith);
}

/// A status that is no error is the page's node, node zero included.
pub proof fn law_statuses_name_nodes(status: i32)
    ensures
        status >= 0 ==> numa::status_node(status).0 == status,
        status < 0 ==> numa::status_node(status).0 == u32::MAX,
{
}

// ---- summaries ----

/// A summary counts the nodes and shows every GPU that is known, with its node and
/// in the order of the numbers; it warns exactly if there is none.
pub proof fn law_summaries_show_every_gpu(
    view: NumaTopologyView,
    lines: Seq<(bool, Seq<char>)>,
    a: i32,
    b: i32,
) -> (r: (int, int))
    requires
        numa::is_summary(view, lines),
    ensures
        lines.len() >= 3,
        lines[1] == (false, "NUMA nodes: "@ + text::decimal(view.numa_nodes.len())),
        view.gpu_numa_map.contains_key(a) ==> 2 <= r.0 < lines.len() && lines[r.0] == (
            false,
            numa::device_line(a, view.gpu_numa_map[a]),
        ),
        view.gpu_numa_map.contains_key(b) ==> 2 <= r.1 < lines.len() && lines[r.1] == (
            false,
            numa::device_line(b, view.gpu_numa_map[b]),
        ),
        view.gpu_numa_map.contains_key(a) && view.gpu_numa_map.contains_key(b) && a < b ==> r.0
            < r.1,
        (exists|i: int| 0 <= i < lines.len() && (#[trigger] lines[i]).0) <==> forall|k: i32|
            !#[trigger] view.gpu_numa_map.contains_key(k),
{
    let devices = choose|devices: Seq<i32>| #[trigger]
        numa::lists_devices(devices, view.gpu_numa_map) && lines == numa::summary_lines(
            view,
            devices,
        );
    assert(devices.contains(a) <==> view.gpu_numa_map.contains_key(a));
    assert(devices.contains(b) <==> view.gpu_numa_map.contains_key(b));
    if devices.len() == 0 {
        assert(lines[2].0);
        assert forall|k: i32| !#[trigger] view.gpu_numa_map.contains_key(k) by {
            assert(!devices.contains(k));
        }
    } else {
        assert(devices.contains(devices[0]));
        assert(view.gpu_numa_map.contains_key(devices[0]));
        assert forall|i: int| 0 <= i < lines.len() implies !(#[trigger] lines[i]).0 by {}
    }
    let x = if devices.contains(a) {
        devices.index_of(a) + 2
    } else {
        0
    };
    let y = if devices.contains(b) {
        devices.index_of(b) + 2
    } else {
        0
    };
    if devices.contains(a) && devices.contains(b) && a < b && y <= x {
        let i = devices.index_of(b);
        let j = devices.index_of(a);
        if i < j {
            assert(devices[i] < devices[j]);
        }
    }
    (x, y)
}

} // verus!
