//! What is read of the machine: CPU lists, NUMA nodes, GPUs.
use vstd::prelude::*;

use crate::numerals;
use crate::text;
use crate::topology;
use crate::topology::GpuFilesView;

verus! {

// ---- CPU lists ----

proof fn lemma_parts_prefix(a: Seq<Seq<char>>, b: Seq<Seq<char>>, n: nat)
    requires
        n <= a.len(),
        n <= b.len(),
        forall|i: int| 0 <= i < n ==> a[i] == b[i],
    ensures
        topology::parts_cpus(a, n) == topology::parts_cpus(b, n),
    decreases n,
{
    if n > 0 {
        lemma_parts_prefix(a, b, (n - 1) as nat);
    }
}

proof fn lemma_one_part(part: Seq<char>)
    requires
        !part.contains(','),
    ensures
        topology::lenient_cpus(part) == topology::part_cpus(part),
{
    numerals::lemma_split_one(part, ',');
    let parts = text::split_by(part, ',');
    assert(parts.len() == 1);
    assert(topology::parts_cpus(parts, 0) == Seq::<usize>::empty());
    assert(topology::parts_cpus(parts, 1) =~= topology::part_cpus(part));
}

/// A list names the CPUs of its parts, one part after the other.
pub proof fn law_cpu_lists_add_up(list: Seq<char>, part: Seq<char>)
    requires
        !part.contains(','),
    ensures
        topology::lenient_cpus(list + seq![','] + part) == topology::lenient_cpus(list)
            + topology::lenient_cpus(part),
{
    numerals::lemma_split_last(list, part, ',');
    lemma_one_part(part);
    let before = text::split_by(list, ',');
    let all = before.push(part);
    lemma_parts_prefix(before, all, before.len());
}

pub proof fn lemma_no_char(k: nat, n: nat, c: char)
    requires
        !text::is_digit(c),
    ensures
        !numerals::numeral(k, n).contains(c),
{
    numerals::lemma_numeral(k, n);
    let s = numerals::numeral(k, n);
    if s.contains(c) {
        assert(text::is_digit(s[s.index_of(c)]));
    }
}

/// A number names one CPU, and a range every one from its first to its last.
pub proof fn law_numbers_and_ranges_name_cpus(j: nat, a: nat, k: nat, b: nat, x: usize)
    requires
        a <= usize::MAX,
        b <= usize::MAX,
    ensures
        topology::lenient_cpus(numerals::numeral(j, a)) == seq![a as usize],
        ({
            let range = numerals::numeral(j, a) + seq!['-'] + numerals::numeral(k, b);
            let cpus = topology::lenient_cpus(range);
            &&& cpus.contains(x) <==> a <= x <= b
            &&& forall|p: int, q: int|
                0 <= p < q < cpus.len() ==> #[trigger] cpus[p] < #[trigger] cpus[q]
        }),
{
    let first = numerals::numeral(j, a);
    let last = numerals::numeral(k, b);
    let range = first + seq!['-'] + last;
    lemma_no_char(j, a, ',');
    lemma_no_char(j, a, '-');
    lemma_no_char(k, b, ',');
    lemma_no_char(k, b, '-');
    lemma_one_part(first);
    assert(!range.contains(',')) by {
        if range.contains(',') {
            let i = range.index_of(',');
            if i < first.len() {
                assert(first[i] == ',');
            } else if i > first.len() {
                assert(last[i - first.len() - 1] == ',');
            }
        }
    }
    lemma_one_part(range);
    numerals::law_parting_is_at_the_first(first, last, '-');
    numerals::law_unsigned_numbers_read_as_written(j, a, usize::MAX as nat);
    numerals::law_unsigned_numbers_read_as_written(k, b, usize::MAX as nat);
    let cpus = topology::lenient_cpus(range);
    assert(cpus == topology::run_of(a, b));
    if a <= x <= b {
        assert(cpus[x - a] == x);
    }
    if cpus.contains(x) {
        let i = cpus.index_of(x);
        assert(cpus[i] == (a + i) as usize);
    }
}

/// Whether a text is a number, with or without a plus sign.
pub open spec fn is_number(s: Seq<char>) -> bool {
    exists|k: nat, n: nat|
        n <= usize::MAX && (s == #[trigger] numerals::numeral(k, n) || s == seq!['+']
            + numerals::numeral(k, n))
}

/// What is neither a number nor a range names no CPU.
pub proof fn law_nothing_else_names_cpus(part: Seq<char>)
    requires
        !part.contains(','),
        topology::lenient_cpus(part).len() > 0,
    ensures
        is_number(part) || exists|a: Seq<char>, b: Seq<char>| #[trigger]
            spelled(a, b) == part && is_number(a) && is_number(b),
{
    lemma_one_part(part);
    match text::parted(part, '-') {
        Some((a, b)) => {
            let i = choose|i: int| text::first_at(part, '-', i);
            assert(part =~= spelled(a, b));
            let x = text::unsigned(a, usize::MAX as nat);
            let y = text::unsigned(b, usize::MAX as nat);
            let k = numerals::law_only_numerals_are_unsigned_numbers(a, usize::MAX as nat);
            let l = numerals::law_only_numerals_are_unsigned_numbers(b, usize::MAX as nat);
            assert(is_number(a)) by {
                let n = x->0;
                assert(a == numerals::numeral(k, n) || a == seq!['+'] + numerals::numeral(k, n));
            }
            assert(is_number(b)) by {
                let n = y->0;
                assert(b == numerals::numeral(l, n) || b == seq!['+'] + numerals::numeral(l, n));
            }
        },
        None => {
            let k = numerals::law_only_numerals_are_unsigned_numbers(part, usize::MAX as nat);
            let n = text::unsigned(part, usize::MAX as nat)->0;
            assert(part == numerals::numeral(k, n) || part == seq!['+'] + numerals::numeral(k, n));
        },
    }
}

/// A range as it is written.
pub open spec fn spelled(a: Seq<char>, b: Seq<char>) -> Seq<char> {
    a + seq!['-'] + b
}

// ---- NUMA nodes ----

/// A directory is a node's exactly if it is named so, with the node's number.
pub proof fn law_node_directories_are_numbered(k: nat, n: nat, name: Seq<char>)
    ensures
        topology::node_id("node"@ + numerals::numeral(k, n)) == if n <= u16::MAX {
            Some(n as u16)
        } else {
            None
        },
        topology::node_id(name) is Some ==> name.len() > 4 && name.take(4) == "node"@,
{
    reveal_strlit("node");
    let rest = numerals::numeral(k, n);
    numerals::law_prefixes_are_stripped("node"@ + rest, "node"@, rest);
    numerals::law_unsigned_numbers_read_as_written(k, n, u16::MAX as nat);
    if topology::node_id(name) is Some {
        let r = text::stripped(name, "node"@)->0;
        let j = numerals::law_only_numerals_are_unsigned_numbers(r, u16::MAX as nat);
        numerals::lemma_numeral(j, text::unsigned(r, u16::MAX as nat)->0);
    }
}

/// Whether a directory is the last of a node with CPUs among the first `n`.
pub open spec fn is_last_of(nodes: Seq<(Seq<char>, Seq<char>)>, n: nat, j: int, id: u16) -> bool {
    &&& 0 <= j < n
    &&& topology::node_id(nodes[j].0) == Some(id)
    &&& topology::lenient_cpus(text::trimmed(nodes[j].1)).len() > 0
    &&& forall|i: int|
        j < i < n ==> !(topology::node_id((#[trigger] nodes[i]).0) == Some(id)
            && topology::lenient_cpus(text::trimmed(nodes[i].1)).len() > 0)
}

/// A node has the CPUs that its directory lists; one without CPUs is passed over.
pub proof fn law_nodes_have_the_cpus_of_their_directory(
    nodes: Seq<(Seq<char>, Seq<char>)>,
    n: nat,
    id: u16,
) -> (j: int)
    requires
        n <= nodes.len(),
    ensures
        topology::node_cpus(nodes, n).contains_key(id) ==> is_last_of(nodes, n, j, id)
            && topology::node_cpus(nodes, n)[id] == topology::lenient_cpus(
            text::trimmed(nodes[j].1),
        ),
        !topology::node_cpus(nodes, n).contains_key(id) ==> forall|i: int|
            0 <= i < n ==> !(topology::node_id((#[trigger] nodes[i]).0) == Some(id)
                && topology::lenient_cpus(text::trimmed(nodes[i].1)).len() > 0),
    decreases n,
{
    if n == 0 {
        0
    } else {
        let j = law_nodes_have_the_cpus_of_their_directory(nodes, (n - 1) as nat, id);
        if topology::node_id(nodes[n - 1].0) == Some(id) && topology::lenient_cpus(
            text::trimmed(nodes[n - 1].1),
        ).len() > 0 {
            n - 1
        } else {
            j
        }
    }
}

/// Where no node with CPUs is found, node 0 has those of the machine; elsewhere
/// the nodes are those that were found.
pub proof fn law_machines_without_nodes_have_one(
    nodes: Seq<(Seq<char>, Seq<char>)>,
    num_cpus: usize,
    id: u16,
    x: usize,
)
    ensures
        ({
            let found = topology::node_cpus(nodes, nodes.len());
            let all = topology::all_cpus(nodes, num_cpus);
            &&& found.contains_key(id) ==> all == found
            &&& (forall|k: u16| !#[trigger] found.contains_key(k)) ==> (all.contains_key(id) <==> id
                == 0) && (all[0].contains(x) <==> x < num_cpus)
        }),
{
    let found = topology::node_cpus(nodes, nodes.len());
    let all = topology::all_cpus(nodes, num_cpus);
    if found.contains_key(id) {
        assert(found.dom().contains(id));
    }
    if forall|k: u16| !#[trigger] found.contains_key(k) {
        assert(found.dom() =~= Set::<u16>::empty());
        if x < num_cpus {
            assert(all[0][x as int] == x);
        }
    }
}

// ---- GPUs ----

/// A GPU's file that holds a number names that node; a negative number, none, or
/// no file names none. The file under the address as given counts first.
pub proof fn law_gpu_files_name_their_node(
    pre: Seq<char>,
    k: nat,
    n: nat,
    post: Seq<char>,
    other: Option<Seq<char>>,
)
    requires
        numerals::all_space(pre),
        numerals::all_space(post),
        n <= u16::MAX,
    ensures
        ({
            let file = Some(pre + numerals::numeral(k, n) + post);
            let minus = Some(pre + (seq!['-'] + numerals::numeral(k, n)) + post);
            &&& topology::named_node(file) == Some(n as u16)
            &&& topology::device_node(file, other) == Some(n as u16)
            &&& topology::device_node(None, other) == topology::named_node(other)
            &&& n > 0 ==> topology::named_node(minus) is None && topology::device_node(minus, other)
                == topology::named_node(other)
        }),
        topology::named_node(None) is None,
{
    let number = numerals::numeral(k, n);
    numerals::lemma_numeral(k, n);
    numerals::law_signed_numbers_read_as_written(k, n);
    assert(text::is_digit(number[0]) && text::is_digit(number[number.len() - 1]));
    let minus = seq!['-'] + number;
    assert(minus.last() == number.last());
    numerals::law_trimming_takes_the_ends(pre, number, post);
    numerals::law_trimming_takes_the_ends(pre, minus, post);
}

/// Whether a GPU is one whose node is known.
pub open spec fn is_placed(g: GpuFilesView, known: Set<u16>, index: u16, node: u16) -> bool {
    g.index == index && topology::device_node(g.plain, g.short) == Some(node) && known.contains(
        node,
    )
}

/// A GPU hangs off the node that its files name, where that node is known, and
/// off none otherwise.
pub proof fn law_gpus_hang_off_known_nodes(
    gpus: Seq<GpuFilesView>,
    known: Set<u16>,
    n: nat,
    index: u16,
) -> (j: int)
    requires
        n <= gpus.len(),
    ensures
        topology::gpu_nodes(gpus, known, n).contains_key(index) ==> 0 <= j < n && is_placed(
            gpus[j],
            known,
            index,
            topology::gpu_nodes(gpus, known, n)[index],
        ) && forall|i: int, node: u16|
            j < i < n ==> !#[trigger] is_placed(gpus[i], known, index, node),
        !topology::gpu_nodes(gpus, known, n).contains_key(index) ==> forall|i: int, node: u16|
            0 <= i < n ==> !#[trigger] is_placed(gpus[i], known, index, node),
    decreases n,
{
    if n == 0 {
        0
    } else {
        let j = law_gpus_hang_off_known_nodes(gpus, known, (n - 1) as nat, index);
        let g = gpus[n - 1];
        match topology::device_node(g.plain, g.short) {
            Some(node) => if known.contains(node) && g.index == index {
                n - 1
            } else {
                j
            },
            None => j,
        }
    }
}

// ---- addresses ----

/// Whether a text is made of ASCII alone.
pub open spec fn plain(s: Seq<char>) -> bool {
    forall|i: int| 0 <= i < s.len() ==> (#[trigger] s[i]) as u32 <= 0x7f
}

pub proof fn lemma_plain_bytes(s: Seq<char>)
    requires
        plain(s),
    ensures
        text::byte_len(s) == s.len(),
    decreases s.len(),
{
    if s.len() > 0 {
        assert(s[0] as u32 <= 0x7f);
        assert(plain(s.skip(1))) by {
            assert forall|i: int| 0 <= i < s.len() - 1 implies (#[trigger] s.skip(1)[i]) as u32
                <= 0x7f by {
                assert(s[i + 1] as u32 <= 0x7f);
            }
        }
        lemma_plain_bytes(s.skip(1));
    }
}

/// A long domain is cut to its last four characters; the rest of an address, a
/// short domain and a text without one stay.
pub proof fn law_domains_are_cut_to_four(front: Seq<char>, back: Seq<char>, rest: Seq<char>)
    requires
        plain(front),
        plain(back),
        !front.contains(':'),
        !back.contains(':'),
        back.len() <= 4,
    ensures
        front.len() > 0 && back.len() == 4 ==> topology::short_domain(
            front + back + seq![':'] + rest,
        ) == back + seq![':'] + rest,
        topology::short_domain(back + seq![':'] + rest) == back + seq![':'] + rest,
        topology::short_domain(front) == front,
{
    let domain = front + back;
    assert(!domain.contains(':')) by {
        if domain.contains(':') {
            let i = domain.index_of(':');
            if i < front.len() {
                assert(front[i] == ':');
            } else {
                assert(back[i - front.len()] == ':');
            }
        }
    }
    assert(plain(domain)) by {
        assert forall|i: int| 0 <= i < domain.len() implies (#[trigger] domain[i]) as u32 <= 0x7f by {
            if i < front.len() {
                assert(front[i] as u32 <= 0x7f);
            } else {
                assert(back[i - front.len()] as u32 <= 0x7f);
            }
        }
    }
    numerals::law_parting_is_at_the_first(domain, rest, ':');
    numerals::law_parting_is_at_the_first(back, rest, ':');
    numerals::law_parting_is_at_the_first(front, rest, ':');
    lemma_plain_bytes(domain);
    lemma_plain_bytes(back);
    if front.len() > 0 && back.len() == 4 {
        assert(domain.skip(front.len() as int) =~= back);
        assert(text::is_tail(domain, 4, front.len() as int));
        let k = choose|k: int| text::is_tail(domain, 4, k);
        lemma_plain_tail(domain, k);
        assert(back.push(':') + rest =~= back + seq![':'] + rest);
    }
}

proof fn lemma_plain_tail(s: Seq<char>, k: int)
    requires
        plain(s),
        text::is_tail(s, 4, k),
    ensures
        k == s.len() - 4,
{
    assert(plain(s.skip(k))) by {
        assert forall|i: int| 0 <= i < s.len() - k implies (#[trigger] s.skip(k)[i]) as u32
            <= 0x7f by {
            assert(s[i + k] as u32 <= 0x7f);
        }
    }
    lemma_plain_bytes(s.skip(k));
}

} // verus!
