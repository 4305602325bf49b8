//! NUMA (Non-Uniform Memory Access) utilities: node numbers, CPU lists, and
//! which node each GPU hangs off.
use std::collections::HashMap;

use vstd::prelude::*;

use crate::sorted;
use crate::sorted::{insert_sorted, sort_dedup};
use crate::text;
use crate::text::{
    chars_of, parse_unsigned, push_chars, push_decimal, split, split_once, string_of, strip_prefix,
    trim, utf8,
};
use crate::topology;
use crate::topology::push_run;

verus! {

broadcast use vstd::std_specs::hash::group_hash_axioms;

/// Represents a NUMA node identifier
#[derive(Debug, Clone, Copy, PartialEq, Eq, Hash, PartialOrd, Ord, Structural)]
pub struct NumaNode(pub u32);

/// `NUMAn`, or `UNKNOWN`.
pub open spec fn node_text(node: NumaNode) -> Seq<char> {
    if node.0 == u32::MAX {
        "UNKNOWN"@
    } else {
        "NUMA"@ + text::decimal(node.0 as nat)
    }
}

impl NumaNode {
    /// Represents an unknown or invalid NUMA node
    pub fn unknown() -> (r: NumaNode)
        ensures
            r == NumaNode(u32::MAX),
    {
        NumaNode(u32::MAX)
    }

    /// Check if this is the unknown node
    pub fn is_unknown(&self) -> (r: bool)
        ensures
            r == (self.0 == u32::MAX),
    {
        self.0 == u32::MAX
    }

    /// Check if this is a valid NUMA node
    pub fn is_valid(&self) -> (r: bool)
        ensures
            r == (self.0 != u32::MAX),
    {
        self.0 != u32::MAX
    }

    pub fn to_string(&self) -> (r: String)
        ensures
            r@ == node_text(*self),
    {
        let mut out = String::new();
        if self.is_unknown() {
            out.append("UNKNOWN");
        } else {
            out.append("NUMA");
            push_decimal(&mut out, self.0 as u64);
        }
        assert(out@ =~= node_text(*self));
        out
    }
}

// ---- CPU lists ----

/// The runs of consecutive numbers among the first `n` of a list: the first and
/// the last of each.
pub open spec fn runs_of(cpus: Seq<usize>, n: nat) -> Seq<(usize, usize)>
    decreases n,
{
    if n == 0 {
        Seq::empty()
    } else {
        let before = runs_of(cpus, (n - 1) as nat);
        let cpu = cpus[n - 1];
        if before.len() > 0 && cpu == before.last().1 + 1 {
            before.drop_last().push((before.last().0, cpu))
        } else {
            before.push((cpu, cpu))
        }
    }
}

/// One run: a number, or a range.
pub open spec fn run_text(run: (usize, usize)) -> Seq<char> {
    if run.0 == run.1 {
        text::decimal(run.0 as nat)
    } else {
        text::decimal(run.0 as nat).push('-') + text::decimal(run.1 as nat)
    }
}

/// The first `n` runs, separated by commas.
pub open spec fn runs_text(runs: Seq<(usize, usize)>, n: nat) -> Seq<char>
    decreases n,
{
    if n == 0 {
        Seq::empty()
    } else if n == 1 {
        run_text(runs[0])
    } else {
        runs_text(runs, (n - 1) as nat).push(',') + run_text(runs[n - 1])
    }
}

/// Format a list of CPUs into a compact range representation
///
/// Example: [0, 1, 2, 3, 8, 9, 10] -> "0-3,8-10"
pub fn format_cpu_list(cpus: &[usize]) -> (r: String)
    ensures
        r@ == runs_text(runs_of(cpus@, cpus@.len()), runs_of(cpus@, cpus@.len()).len()),
{
    let mut runs: Vec<(usize, usize)> = Vec::new();
    for i in 0..cpus.len()
        invariant
            runs@ == runs_of(cpus@, i as nat),
    {
        let cpu = cpus[i];
        let n = runs.len();
        let joins = if n > 0 {
            let prev = runs[n - 1].1;
            prev < usize::MAX && cpu == prev + 1
        } else {
            false
        };
        if joins {
            let start = runs[n - 1].0;
            runs.set(n - 1, (start, cpu));
        } else {
            runs.push((cpu, cpu));
        }
        assert(runs@ =~= runs_of(cpus@, (i + 1) as nat));
    }
    let mut out = String::new();
    assert(out@ =~= Seq::empty());
    for i in 0..runs.len()
        invariant
            out@ == runs_text(runs@, i as nat),
    {
        if i > 0 {
            out.push(',');
        }
        let (start, end) = runs[i];
        push_decimal(&mut out, start as u64);
        if start != end {
            out.push('-');
            push_decimal(&mut out, end as u64);
        }
        assert(out@ =~= runs_text(runs@, (i + 1) as nat));
    }
    out
}

pub open spec fn bad_cpu(part: Seq<char>) -> Seq<char> {
    "Invalid CPU ID: "@ + part
}

pub open spec fn bad_range(part: Seq<char>) -> Seq<char> {
    "Invalid CPU range format: "@ + part
}

/// The CPUs of one part of a list: a number or a range.
pub open spec fn strict_part(part: Seq<char>) -> Result<Seq<usize>, Seq<char>> {
    let ends = text::split_by(part, '-');
    if ends.len() == 1 {
        match text::unsigned(part, usize::MAX as nat) {
            Some(v) => Ok(seq![v as usize]),
            None => Err(bad_cpu(part)),
        }
    } else if ends.len() != 2 {
        Err(bad_range(part))
    } else {
        match text::unsigned(ends[0], usize::MAX as nat) {
            None => Err(bad_cpu(ends[0])),
            Some(a) => match text::unsigned(ends[1], usize::MAX as nat) {
                None => Err(bad_cpu(ends[1])),
                Some(b) => Ok(topology::run_of(a, b)),
            },
        }
    }
}

/// The CPUs of the first `n` parts of a list, or the first thing wrong with
/// them.
pub open spec fn strict_parts(parts: Seq<Seq<char>>, n: nat) -> Result<Seq<usize>, Seq<char>>
    decreases n,
{
    if n == 0 {
        Ok(Seq::empty())
    } else {
        match strict_parts(parts, (n - 1) as nat) {
            Err(e) => Err(e),
            Ok(cpus) => match strict_part(parts[n - 1]) {
                Err(e) => Err(e),
                Ok(more) => Ok(cpus + more),
            },
        }
    }
}

/// The CPUs that a list names, in the order in which it names them.
pub open spec fn strict_cpus(s: Seq<char>) -> Result<Seq<usize>, Seq<char>> {
    if s.len() == 0 {
        Ok(Seq::empty())
    } else {
        strict_parts(text::split_by(s, ','), text::split_by(s, ',').len())
    }
}

proof fn lemma_split_whole(s: Seq<char>, sep: char)
    requires
        text::split_by(s, sep).len() == 1,
    ensures
        text::split_by(s, sep)[0] == s,
    decreases s.len(),
{
    if s.len() > 0 {
        text::lemma_split_nonempty(s.drop_last(), sep);
        lemma_split_whole(s.drop_last(), sep);
        assert(s.drop_last().push(s.last()) =~= s);
    } else {
        assert(text::split_by(s, sep)[0] =~= s);
    }
}

proof fn lemma_strict_error(parts: Seq<Seq<char>>, n: nat, m: nat)
    requires
        n <= m,
        strict_parts(parts, n) is Err,
    ensures
        strict_parts(parts, m) == strict_parts(parts, n),
    decreases m,
{
    if n < m {
        lemma_strict_error(parts, n, (m - 1) as nat);
    }
}

/// A message about a piece of text.
fn about(what: &str, part: &[char]) -> (r: String)
    ensures
        r@ == what@ + part@,
{
    let mut out = String::new();
    out.append(what);
    push_chars(&mut out, part);
    assert(out@ =~= what@ + part@);
    out
}

/// Whether a list ascends and holds the numbers of another one.
pub open spec fn sorted_from(list: Seq<usize>, from: Seq<usize>) -> bool {
    &&& forall|i: int, j: int| 0 <= i < j < list.len() ==> #[trigger] list[i] < #[trigger] list[j]
    &&& forall|x: usize| #[trigger] list.contains(x) <==> from.contains(x)
}

/// Parse Linux cpulist format (e.g. "0-3,8-11" -> [0,1,2,3,8,9,10,11])
pub fn parse_cpulist(cpulist: &str) -> (r: Result<Vec<usize>, String>)
    ensures
        match strict_cpus(cpulist@) {
            Ok(cpus) => r is Ok && sorted_from(r->Ok_0@, cpus),
            Err(e) => r is Err && r->Err_0@ == e,
        },
{
    let chars = chars_of(cpulist);
    let mut cpus: Vec<usize> = Vec::new();
    if chars.len() == 0 {
        return Ok(cpus);
    }
    let parts = split(chars.as_slice(), ',');
    let ghost views = text::char_views(parts@);
    for i in 0..parts.len()
        invariant
            views == text::char_views(parts@),
            views == text::split_by(cpulist@, ','),
            cpulist@.len() > 0,
            strict_parts(views, i as nat) == Ok::<Seq<usize>, Seq<char>>(cpus@),
    {
        let part = &parts[i];
        assert(views[i as int] == part@);
        let ends = split(part.as_slice(), '-');
        let ghost end_views = text::char_views(ends@);
        let ghost before = cpus@;
        proof {
            if strict_part(part@) is Err {
                lemma_strict_error(views, (i + 1) as nat, views.len());
            }
        }
        if ends.len() == 1 {
            match parse_unsigned(part.as_slice(), usize::MAX as u64) {
                Some(v) => {
                    cpus.push(v as usize);
                    assert(cpus@ =~= before + seq![v as usize]);
                },
                None => return Err(about("Invalid CPU ID: ", part.as_slice())),
            }
        } else if ends.len() != 2 {
            return Err(about("Invalid CPU range format: ", part.as_slice()));
        } else {
            assert(end_views[0] == ends@[0]@);
            assert(end_views[1] == ends@[1]@);
            let a = match parse_unsigned(ends[0].as_slice(), usize::MAX as u64) {
                Some(v) => v as usize,
                None => return Err(about("Invalid CPU ID: ", ends[0].as_slice())),
            };
            let b = match parse_unsigned(ends[1].as_slice(), usize::MAX as u64) {
                Some(v) => v as usize,
                None => return Err(about("Invalid CPU ID: ", ends[1].as_slice())),
            };
            push_run(&mut cpus, a, b);
        }
    }
    Ok(sorted_cpus(&cpus))
}

/// The numbers of a list, ascending, each once.
fn sorted_cpus(cpus: &Vec<usize>) -> (r: Vec<usize>)
    ensures
        sorted_from(r@, cpus@),
{
    let mut wide: Vec<u64> = Vec::new();
    for i in 0..cpus.len()
        invariant
            wide@.len() == i,
            forall|j: int| 0 <= j < i ==> #[trigger] wide@[j] == cpus@[j],
    {
        wide.push(cpus[i] as u64);
    }
    let sorted = sort_dedup(&wide);
    let mut out: Vec<usize> = Vec::new();
    assert forall|x: u64| sorted@.contains(x) implies x <= usize::MAX by {
        assert(wide@.contains(x));
        let c = wide@.index_of(x);
        assert(wide@[c] == cpus@[c]);
    }
    for i in 0..sorted.len()
        invariant
            forall|x: u64| sorted@.contains(x) ==> x <= usize::MAX,
            out@.len() == i,
            forall|j: int| 0 <= j < i ==> #[trigger] out@[j] == sorted@[j],
    {
        assert(sorted@.contains(sorted@[i as int]));
        out.push(sorted[i] as usize);
    }
    proof {
        assert forall|x: usize| #[trigger] out@.contains(x) <==> cpus@.contains(x) by {
            if out@.contains(x) {
                let c = out@.index_of(x);
                assert(sorted@[c] == x);
                assert(sorted@.contains(x as u64));
                assert(wide@.contains(x as u64));
                let d = wide@.index_of(x as u64);
                assert(cpus@[d] == x);
            }
            if cpus@.contains(x) {
                let c = cpus@.index_of(x);
                assert(wide@[c] == x);
                assert(wide@.contains(x as u64));
                assert(sorted@.contains(x as u64));
                let d = sorted@.index_of(x as u64);
                assert(out@[d] == x);
            }
        }
    }
    out
}

// ---- the CPUs of each node ----

/// What was read of one directory: its name, and its CPU list: none where there
/// is no such file, or why it could not be read.
pub struct NodeDir {
    pub name: String,
    pub cpulist: Option<Result<String, String>>,
}

pub struct NodeDirView {
    pub name: Seq<char>,
    pub cpulist: Option<Result<Seq<char>, Seq<char>>>,
}

impl View for NodeDir {
    type V = NodeDirView;

    open spec fn view(&self) -> NodeDirView {
        NodeDirView {
            name: self.name@,
            cpulist: match self.cpulist {
                None => None,
                Some(Ok(s)) => Some(Ok(s@)),
                Some(Err(e)) => Some(Err(e@)),
            },
        }
    }
}

pub open spec fn dir_views(dirs: Seq<NodeDir>) -> Seq<NodeDirView> {
    Seq::new(dirs.len(), |i: int| dirs[i]@)
}

/// What one directory says: nothing, the CPUs of a node, or what is wrong.
pub open spec fn dir_cpus(dir: NodeDirView) -> Result<Option<(u32, Seq<usize>)>, Seq<char>> {
    match text::stripped(dir.name, "node"@) {
        None => Ok(None),
        Some(rest) => match text::unsigned(rest, u32::MAX as nat) {
            None => Err("Invalid node directory name: "@ + dir.name),
            Some(id) => match dir.cpulist {
                None => Ok(None),
                Some(Err(e)) => Err(e),
                Some(Ok(list)) => match strict_cpus(text::trimmed(list)) {
                    Err(e) => Err(e),
                    Ok(cpus) => Ok(Some((id as u32, cpus))),
                },
            },
        },
    }
}

/// What is wrong with the first of the first `n` directories that is wrong.
pub open spec fn dirs_error(dirs: Seq<NodeDirView>, n: nat) -> Option<Seq<char>>
    decreases n,
{
    if n == 0 {
        None
    } else {
        match dirs_error(dirs, (n - 1) as nat) {
            Some(e) => Some(e),
            None => match dir_cpus(dirs[n - 1]) {
                Err(e) => Some(e),
                Ok(_) => None,
            },
        }
    }
}

/// What the first `n` directories say of the CPUs of a node: the last one that
/// names the node counts.
pub open spec fn cpus_said(dirs: Seq<NodeDirView>, node: u32, n: nat) -> Option<Seq<usize>>
    decreases n,
{
    if n == 0 {
        None
    } else {
        match dir_cpus(dirs[n - 1]) {
            Ok(Some((id, cpus))) => if id == node {
                Some(cpus)
            } else {
                cpus_said(dirs, node, (n - 1) as nat)
            },
            _ => cpus_said(dirs, node, (n - 1) as nat),
        }
    }
}

/// Whether any of the first `n` directories says something.
pub open spec fn any_said(dirs: Seq<NodeDirView>, n: nat) -> bool
    decreases n,
{
    n > 0 && (any_said(dirs, (n - 1) as nat) || dir_cpus(dirs[n - 1]) matches Ok(Some(_)))
}

/// Whether a map holds what the first `n` directories say, each list ascending.
pub open spec fn is_cpu_map(m: Map<u32, Vec<usize>>, dirs: Seq<NodeDirView>, n: nat) -> bool {
    forall|node: u32|
        match #[trigger] cpus_said(dirs, node, n) {
            Some(cpus) => m.contains_key(node) && sorted_from(m[node]@, cpus),
            None => !m.contains_key(node),
        }
}

pub proof fn lemma_dirs_error(dirs: Seq<NodeDirView>, n: nat, m: nat)
    requires
        n <= m,
        dirs_error(dirs, n) is Some,
    ensures
        dirs_error(dirs, m) == dirs_error(dirs, n),
    decreases m,
{
    if n < m {
        lemma_dirs_error(dirs, n, (m - 1) as nat);
    }
}

/// The CPU-to-NUMA mapping: NUMA node ID to list of CPU IDs, from what was read
/// of the node directories.
pub fn read_cpu_topology_from_sysfs(dirs: &Vec<NodeDir>) -> (r: Result<
    HashMap<u32, Vec<usize>>,
    String,
>)
    ensures
        match dirs_error(dir_views(dirs@), dirs@.len()) {
            Some(e) => r is Err && r->Err_0@ == e,
            None => if !any_said(dir_views(dirs@), dirs@.len()) {
                r is Err && r->Err_0@ == "No NUMA nodes found"@
            } else {
                r is Ok && is_cpu_map(r->Ok_0@, dir_views(dirs@), dirs@.len())
            },
        },
{
    let ghost views = dir_views(dirs@);
    let mut map: HashMap<u32, Vec<usize>> = HashMap::new();
    let mut any = false;
    for i in 0..dirs.len()
        invariant
            views == dir_views(dirs@),
            dirs_error(views, i as nat) is None,
            is_cpu_map(map@, views, i as nat),
            any == any_said(views, i as nat),
    {
        let dir = &dirs[i];
        assert(views[i as int] == dir@);
        proof {
            if dir_cpus(dir@) is Err {
                lemma_dirs_error(views, (i + 1) as nat, views.len());
            }
        }
        let ghost before = map@;
        let name = chars_of(dir.name.as_str());
        let mut found: Option<(u32, Vec<usize>)> = None;
        if let Some(rest) = strip_prefix(name.as_slice(), "node") {
            let id: u32 = match parse_unsigned(rest.as_slice(), u32::MAX as u64) {
                Some(id) => id as u32,
                None => return Err(about("Invalid node directory name: ", name.as_slice())),
            };
            match &dir.cpulist {
                None => {},
                Some(Err(e)) => return Err(string_of(chars_of(e.as_str()).as_slice())),
                Some(Ok(list)) => {
                    let all = chars_of(list.as_str());
                    let t = string_of(trim(all.as_slice()).as_slice());
                    match parse_cpulist(t.as_str()) {
                        Ok(cpus) => {
                            found = Some((id, cpus));
                        },
                        Err(e) => return Err(e),
                    }
                },
            }
        }
        if let Some((id, cpus)) = found {
            any = true;
            let ghost list = cpus@;
            map.insert(id, cpus);
            proof {
                assert forall|node: u32|
                    match #[trigger] cpus_said(views, node, (i + 1) as nat) {
                        Some(cpus) => map@.contains_key(node) && sorted_from(map@[node]@, cpus),
                        None => !map@.contains_key(node),
                    } by {
                    let old_said = cpus_said(views, node, i as nat);
                }
            }
        } else {
            proof {
                assert forall|node: u32| #[trigger] cpus_said(views, node, (i + 1) as nat)
                    == cpus_said(views, node, i as nat) by {}
            }
        }
    }
    if !any {
        return Err(string_of(chars_of("No NUMA nodes found").as_slice()));
    }
    Ok(map)
}

// ---- thread pinning ----

/// A message with a number behind it.
fn numbered(what: &str, n: u32) -> (r: String)
    ensures
        r@ == what@ + text::decimal(n as nat),
{
    let mut out = String::new();
    out.append(what);
    push_decimal(&mut out, n as u64);
    assert(out@ =~= what@ + text::decimal(n as nat));
    out
}

/// The refusal of a thread that is to run on a node: for the node itself.
pub fn check_pin(node: NumaNode) -> (r: Result<(), String>)
    ensures
        node.0 == u32::MAX ==> r is Err && r->Err_0@ == "Cannot pin to unknown NUMA node"@,
        node.0 != u32::MAX ==> r is Ok,
{
    if node.is_unknown() {
        return Err(string_of(chars_of("Cannot pin to unknown NUMA node").as_slice()));
    }
    Ok(())
}

/// The CPUs to pin a thread to, so that it runs on a node: all of the node's.
pub fn pin_cpus(node: NumaNode, topology: &Result<HashMap<u32, Vec<usize>>, String>) -> (r: Result<
    Vec<usize>,
    String,
>)
    ensures
        if node.0 == u32::MAX {
            r is Err && r->Err_0@ == "Cannot pin to unknown NUMA node"@
        } else {
            match topology {
                Err(e) => r is Err && r->Err_0@ == "Failed to get NUMA topology: "@ + e@,
                Ok(map) => if !map@.contains_key(node.0) {
                    r is Err && r->Err_0@ == "No CPUs found for NUMA node "@ + text::decimal(
                        node.0 as nat,
                    )
                } else if map@[node.0]@.len() == 0 {
                    r is Err && r->Err_0@ == "CPU list is empty for NUMA node "@ + text::decimal(
                        node.0 as nat,
                    )
                } else {
                    r is Ok && r->Ok_0@ == map@[node.0]@
                },
            }
        },
{
    match check_pin(node) {
        Err(e) => return Err(e),
        Ok(_) => {},
    }
    match topology {
        Err(e) => Err(about("Failed to get NUMA topology: ", chars_of(e.as_str()).as_slice())),
        Ok(map) => match map.get(&node.0) {
            None => Err(numbered("No CPUs found for NUMA node ", node.0)),
            Some(cpus) => if cpus.len() == 0 {
                Err(numbered("CPU list is empty for NUMA node ", node.0))
            } else {
                Ok(vstd::slice::slice_to_vec(cpus.as_slice()))
            },
        },
    }
}

// ---- GPU affinity ----

/// What stands before the first line break, or all of it.
pub open spec fn first_line(s: Seq<char>) -> Seq<char> {
    match text::parted(s, '\n') {
        Some((line, _)) => line,
        None => s,
    }
}

/// The node that a report names first: the first number behind the first colon
/// of the first line.
pub open spec fn closest_node(output: Seq<char>) -> NumaNode {
    let fields = text::split_by(first_line(output), ':');
    if fields.len() < 2 {
        NumaNode(u32::MAX)
    } else {
        match text::unsigned(text::trimmed(text::split_by(fields[1], ',')[0]), u32::MAX as nat) {
            Some(v) => NumaNode(v as u32),
            None => NumaNode(u32::MAX),
        }
    }
}

fn line_of(chars: &[char]) -> (r: Vec<char>)
    ensures
        r@ == first_line(chars@),
{
    match split_once(chars, '\n') {
        Some((line, _)) => line,
        None => vstd::slice::slice_to_vec(chars),
    }
}

pub fn parse_closest_cpu_numa_node(output: &str) -> (r: NumaNode)
    ensures
        r == closest_node(output@),
{
    let chars = chars_of(output);
    let line = line_of(chars.as_slice());
    let fields = split(line.as_slice(), ':');
    let ghost views = text::char_views(fields@);
    if fields.len() < 2 {
        return NumaNode::unknown();
    }
    assert(views[1] == fields@[1]@);
    let ids = split(fields[1].as_slice(), ',');
    assert(text::char_views(ids@)[0] == ids@[0]@);
    let id = trim(ids[0].as_slice());
    match parse_unsigned(id.as_slice(), u32::MAX as u64) {
        Some(v) => NumaNode(v as u32),
        None => NumaNode::unknown(),
    }
}

/// The node of a GPU, from the tool's output: unknown where it failed or its
/// output is no text.
pub fn device_numa_node(stdout: Option<&[u8]>) -> (r: NumaNode)
    ensures
        match stdout {
            Some(bytes) => if vstd::utf8::valid_utf8(bytes@) {
                r == closest_node(vstd::utf8::decode_utf8(bytes@))
            } else {
                r == NumaNode(u32::MAX)
            },
            None => r == NumaNode(u32::MAX),
        },
{
    match stdout {
        Some(bytes) => match utf8(bytes) {
            Some(s) => {
                proof {
                    vstd::utf8::encode_utf8_decode_utf8(s@);
                }
                parse_closest_cpu_numa_node(s)
            },
            None => NumaNode::unknown(),
        },
        None => NumaNode::unknown(),
    }
}

/// The number of GPUs that the tool reports in the first line of its output.
pub fn gpu_count(stdout: &str) -> (r: Option<u32>)
    ensures
        match text::unsigned(text::trimmed(first_line(stdout@)), u32::MAX as nat) {
            Some(v) => r == Some(v as u32),
            None => r is None,
        },
{
    let chars = chars_of(stdout);
    let line = line_of(chars.as_slice());
    let t = trim(line.as_slice());
    match parse_unsigned(t.as_slice(), u32::MAX as u64) {
        Some(v) => Some(v as u32),
        None => None,
    }
}

/// GPU-to-NUMA topology for the system.
///
/// Built once during engine initialization. Provides efficient lookup
/// of NUMA affinity for GPU devices.
pub struct NumaTopology {
    gpu_numa_map: HashMap<i32, NumaNode>,
    numa_nodes: Vec<NumaNode>,
}

#[verifier::ext_equal]
pub struct NumaTopologyView {
    pub gpu_numa_map: Map<i32, NumaNode>,
    pub numa_nodes: Seq<NumaNode>,
}

impl View for NumaTopology {
    type V = NumaTopologyView;

    closed spec fn view(&self) -> NumaTopologyView {
        NumaTopologyView { gpu_numa_map: self.gpu_numa_map@, numa_nodes: self.numa_nodes@ }
    }
}

/// A device number as the map holds it.
pub open spec fn device_key(device: u32) -> i32 {
    if device <= i32::MAX {
        device as i32
    } else {
        (device - 0x1_0000_0000) as i32
    }
}

/// The nodes of the first `n` devices; where one is named twice, the later entry
/// holds.
pub open spec fn affinity_map(affinity: Seq<(u32, NumaNode)>, n: nat) -> Map<i32, NumaNode>
    decreases n,
{
    if n == 0 {
        Map::empty()
    } else {
        affinity_map(affinity, (n - 1) as nat).insert(
            device_key(affinity[n - 1].0),
            affinity[n - 1].1,
        )
    }
}

/// Whether a list of nodes ascends and holds those whose number is in a set.
pub open spec fn lists_nodes(list: Seq<NumaNode>, set: Set<u32>) -> bool {
    &&& forall|i: int, j: int|
        0 <= i < j < list.len() ==> (#[trigger] list[i]).0 < (#[trigger] list[j]).0
    &&& forall|k: u32| #[trigger] list.contains(NumaNode(k)) <==> set.contains(k)
}

/// The nodes of an ascending list of numbers.
fn nodes_of(ids: &Vec<u64>, Ghost(set): Ghost<Set<u32>>) -> (r: Vec<NumaNode>)
    requires
        sorted::ascending(ids@),
        forall|x: u64| #[trigger] ids@.contains(x) <==> x <= u32::MAX && set.contains(x as u32),
    ensures
        lists_nodes(r@, set),
{
    let mut out: Vec<NumaNode> = Vec::new();
    for i in 0..ids.len()
        invariant
            forall|x: u64| #[trigger]
                ids@.contains(x) <==> x <= u32::MAX && set.contains(x as u32),
            out@.len() == i,
            forall|j: int| 0 <= j < i ==> (#[trigger] out@[j]).0 == ids@[j],
    {
        assert(ids@.contains(ids@[i as int]));
        out.push(NumaNode(ids[i] as u32));
    }
    proof {
        assert forall|i: int, j: int| 0 <= i < j < out@.len() implies (#[trigger] out@[i]).0 < (
        #[trigger] out@[j]).0 by {
            assert(ids@[i] < ids@[j]);
        }
        assert forall|k: u32| #[trigger] out@.contains(NumaNode(k)) <==> set.contains(k) by {
            if out@.contains(NumaNode(k)) {
                let c = out@.index_of(NumaNode(k));
                assert(ids@.contains(ids@[c]));
            }
            if set.contains(k) {
                assert(ids@.contains(k as u64));
                let c = ids@.index_of(k as u64);
                assert(out@[c] == NumaNode(k));
            }
        }
    }
    out
}

pub proof fn lemma_push_contains(s: Seq<u32>, y: u32, x: u32)
    ensures
        s.push(y).contains(x) <==> s.contains(x) || x == y,
{
    if s.contains(x) {
        let c = s.index_of(x);
        assert(s.push(y)[c] == x);
    }
    if x == y {
        assert(s.push(y)[s.len() as int] == x);
    }
    if s.push(y).contains(x) && x != y {
        let c = s.push(y).index_of(x);
        assert(s[c] == x);
    }
}

impl NumaTopology {
    /// A topology of known parts.
    pub fn from_parts(gpu_numa_map: HashMap<i32, NumaNode>, numa_nodes: Vec<NumaNode>) -> (r: Self)
        ensures
            r@ == (NumaTopologyView { gpu_numa_map: gpu_numa_map@, numa_nodes: numa_nodes@ }),
    {
        NumaTopology { gpu_numa_map, numa_nodes }
    }

    /// Build the GPU-NUMA topology from the affinity of each GPU and the system's
    /// CPU topology; where the latter is not known, there is one node.
    pub fn detect(
        affinity: &Vec<(u32, NumaNode)>,
        topology: &Result<HashMap<u32, Vec<usize>>, String>,
    ) -> (r: Self)
        ensures
            r@.gpu_numa_map == affinity_map(affinity@, affinity@.len()),
            match topology {
                Ok(map) => lists_nodes(r@.numa_nodes, map@.dom()),
                Err(_) => r@.numa_nodes == seq![NumaNode(0)],
            },
    {
        let mut gpu_numa_map: HashMap<i32, NumaNode> = HashMap::new();
        for i in 0..affinity.len()
            invariant
                gpu_numa_map@ == affinity_map(affinity@, i as nat),
        {
            let (device, node) = affinity[i];
            let key: i32 = if device <= 0x7fff_ffff {
                device as i32
            } else {
                (device as i64 - 0x1_0000_0000) as i32
            };
            gpu_numa_map.insert(key, node);
        }
        let numa_nodes = match topology {
            Ok(map) => {
                let ghost dom = map@.dom();
                let mut ids: Vec<u64> = Vec::new();
                let ghost mut done: Seq<u32> = Seq::empty();
                for k in it: map.keys()
                    invariant
                        dom == map@.dom(),
                        it.seq().unref().to_set() == dom,
                        done == it.seq().unref().take(it.index() as int),
                        it.index() == it.seq().len() ==> done == it.seq().unref(),
                        sorted::ascending(ids@),
                        forall|x: u64| #[trigger]
                            ids@.contains(x) <==> x <= u32::MAX && done.contains(x as u32),
                {
                    let ghost before = done;
                    let ghost ids0 = ids@;
                    insert_sorted(&mut ids, *k as u64);
                    proof {
                        done = done.push(*k);
                        assert(done =~= it.seq().unref().take(it.index() as int + 1));
                        assert forall|x: u64| #[trigger]
                            ids@.contains(x) <==> x <= u32::MAX && done.contains(x as u32) by {
                            assert(ids0.contains(x) <==> x <= u32::MAX && before.contains(
                                x as u32,
                            ));
                            if x <= u32::MAX {
                                lemma_push_contains(before, *k, x as u32);
                            }
                        }
                    }
                }
                proof {
                    assert forall|x: u64| #[trigger]
                        ids@.contains(x) <==> x <= u32::MAX && dom.contains(x as u32) by {
                        assert(done.contains(x as u32) <==> done.to_set().contains(x as u32));
                    }
                }
                nodes_of(&ids, Ghost(dom))
            },
            Err(_) => {
                let v = vec![NumaNode(0)];
                assert(v@ =~= seq![NumaNode(0)]);
                v
            },
        };
        NumaTopology { gpu_numa_map, numa_nodes }
    }

    /// Get the preferred NUMA node for a GPU device.
    ///
    /// Returns `NumaNode::unknown()` if the device is not found.
    pub fn numa_for_gpu(&self, device_id: i32) -> (r: NumaNode)
        ensures
            r == if self@.gpu_numa_map.contains_key(device_id) {
                self@.gpu_numa_map[device_id]
            } else {
                NumaNode(u32::MAX)
            },
    {
        match self.gpu_numa_map.get(&device_id) {
            Some(n) => *n,
            None => NumaNode::unknown(),
        }
    }

    /// Get all NUMA nodes in the system.
    pub fn numa_nodes(&self) -> (r: &[NumaNode])
        ensures
            r@ == self@.numa_nodes,
    {
        self.numa_nodes.as_slice()
    }

    /// Get the number of NUMA nodes.
    pub fn num_nodes(&self) -> (r: usize)
        ensures
            r == self@.numa_nodes.len(),
    {
        self.numa_nodes.len()
    }

    /// Check if this is a multi-NUMA system.
    pub fn is_multi_numa(&self) -> (r: bool)
        ensures
            r == (self@.numa_nodes.len() > 1),
    {
        self.numa_nodes.len() > 1
    }
}

impl NumaTopology {
    /// The numbers of the valid nodes that have a GPU.
    pub open spec fn gpu_nodes(map: Map<i32, NumaNode>) -> Set<u32> {
        Set::new(
            |n: u32|
                n != u32::MAX && exists|k: i32| #[trigger] map.contains_key(k) && map[k].0 == n,
        )
    }

    /// Get all valid NUMA nodes that have at least one GPU attached.
    pub fn gpu_numa_nodes(&self) -> (r: Vec<NumaNode>)
        ensures
            lists_nodes(r@, Self::gpu_nodes(self@.gpu_numa_map)),
    {
        let ghost map = self.gpu_numa_map@;
        let mut ids: Vec<u64> = Vec::new();
        let ghost mut done: Seq<i32> = Seq::empty();
        for k in it: self.gpu_numa_map.keys()
            invariant
                map == self.gpu_numa_map@,
                it.seq().unref().to_set() == map.dom(),
                done == it.seq().unref().take(it.index() as int),
                it.index() == it.seq().len() ==> done == it.seq().unref(),
                sorted::ascending(ids@),
                forall|x: u64| #[trigger]
                    ids@.contains(x) <==> x < u32::MAX && exists|j: int|
                        0 <= j < done.len() && map[#[trigger] done[j]].0 == x,
        {
            let ghost before = done;
            let ghost ids0 = ids@;
            proof {
                done = done.push(*k);
                assert(done =~= it.seq().unref().take(it.index() as int + 1));
                let all = it.seq().unref();
                assert(all[it.index() as int] == *k);
                assert(all.contains(*k));
                assert(all.to_set().contains(*k));
                assert(map.contains_key(*k));
            }
            if let Some(node) = self.gpu_numa_map.get(k) {
                if node.is_valid() {
                    insert_sorted(&mut ids, node.0 as u64);
                }
            }
            proof {
                assert forall|x: u64| #[trigger]
                    ids@.contains(x) <==> x < u32::MAX && exists|j: int|
                        0 <= j < done.len() && map[#[trigger] done[j]].0 == x by {
                    assert(ids0.contains(x) <==> x < u32::MAX && exists|j: int|
                        0 <= j < before.len() && map[#[trigger] before[j]].0 == x);
                    if exists|j: int| 0 <= j < before.len() && map[#[trigger] before[j]].0 == x {
                        let j = choose|j: int|
                            0 <= j < before.len() && map[#[trigger] before[j]].0 == x;
                        assert(done[j] == before[j]);
                    }
                    assert(done[before.len() as int] == *k);
                    if exists|j: int| 0 <= j < done.len() && map[#[trigger] done[j]].0 == x {
                        let j = choose|j: int|
                            0 <= j < done.len() && map[#[trigger] done[j]].0 == x;
                        if j < before.len() {
                            assert(before[j] == done[j]);
                        }
                    }
                }
            }
        }
        let ghost set = Self::gpu_nodes(map);
        proof {
            assert forall|x: u64| #[trigger]
                ids@.contains(x) <==> x <= u32::MAX && set.contains(x as u32) by {
                if ids@.contains(x) {
                    let j = choose|j: int|
                        0 <= j < done.len() && map[#[trigger] done[j]].0 == x;
                    assert(done.contains(done[j]));
                    assert(done.to_set().contains(done[j]));
                    assert(map.contains_key(done[j]));
                }
                if x <= u32::MAX && set.contains(x as u32) {
                    let k = choose|k: i32| #[trigger]
                        map.contains_key(k) && map[k].0 == x as u32;
                    assert(map.dom().contains(k));
                    assert(done.to_set().contains(k));
                    let j = done.index_of(k);
                    assert(map[done[j]].0 == x);
                }
            }
        }
        nodes_of(&ids, Ghost(set))
    }
}

// ---- in words ----

/// A number in decimal, with its sign.
pub open spec fn signed_text(n: int) -> Seq<char> {
    if n < 0 {
        "-"@ + text::decimal((-n) as nat)
    } else {
        text::decimal(n as nat)
    }
}

/// Whether a list of devices ascends and holds those that a map knows.
pub open spec fn lists_devices(list: Seq<i32>, map: Map<i32, NumaNode>) -> bool {
    &&& forall|i: int, j: int| 0 <= i < j < list.len() ==> #[trigger] list[i] < #[trigger] list[j]
    &&& forall|k: i32| #[trigger] list.contains(k) <==> map.contains_key(k)
}

/// The line of one device.
pub open spec fn device_line(device: i32, node: NumaNode) -> Seq<char> {
    "  GPU "@ + signed_text(device as int) + " -> "@ + node_text(node)
}

/// The lines of a summary, each with whether it is a warning.
pub open spec fn summary_lines(view: NumaTopologyView, devices: Seq<i32>) -> Seq<
    (bool, Seq<char>),
> {
    seq![
        (false, "=== GPU-NUMA Topology ==="@),
        (false, "NUMA nodes: "@ + text::decimal(view.numa_nodes.len())),
    ] + if devices.len() == 0 {
        seq![(true, "No GPU NUMA affinity detected (nvidia-smi unavailable?)"@)]
    } else {
        Seq::new(
            devices.len(),
            |i: int| (false, device_line(devices[i], view.gpu_numa_map[devices[i]])),
        )
    }
}

/// Whether lines are those of a summary.
pub open spec fn is_summary(view: NumaTopologyView, lines: Seq<(bool, Seq<char>)>) -> bool {
    exists|devices: Seq<i32>| #[trigger]
        lists_devices(devices, view.gpu_numa_map) && lines == summary_lines(view, devices)
}

/// There is one ascending list of the known devices, so there is one summary.
pub proof fn law_devices_are_listed_one_way(a: Seq<i32>, b: Seq<i32>, map: Map<i32, NumaNode>)
    requires
        lists_devices(a, map),
        lists_devices(b, map),
    ensures
        a == b,
{
    let x = Seq::new(a.len(), |i: int| shifted(a[i]));
    let y = Seq::new(b.len(), |i: int| shifted(b[i]));
    assert forall|v: u64| #[trigger] x.contains(v) <==> y.contains(v) by {
        if x.contains(v) {
            let i = x.index_of(v);
            assert(a.contains(a[i]));
            assert(b.contains(a[i]));
            assert(y[b.index_of(a[i])] == v);
        }
        if y.contains(v) {
            let i = y.index_of(v);
            assert(b.contains(b[i]));
            assert(a.contains(b[i]));
            assert(x[a.index_of(b[i])] == v);
        }
    }
    assert(sorted::ascending(x)) by {
        assert forall|i: int, j: int| 0 <= i < j < x.len() implies #[trigger] x[i]
            < #[trigger] x[j] by {
            assert(a[i] < a[j]);
        }
    }
    assert(sorted::ascending(y)) by {
        assert forall|i: int, j: int| 0 <= i < j < y.len() implies #[trigger] y[i]
            < #[trigger] y[j] by {
            assert(b[i] < b[j]);
        }
    }
    sorted::law_ascending_is_canonical(x, y);
    assert(x.len() == a.len() && y.len() == b.len());
    assert(a.len() == b.len());
    assert forall|i: int| 0 <= i < a.len() implies #[trigger] a[i] == b[i] by {
        assert(x[i] == shifted(a[i]));
        assert(y[i] == shifted(b[i]));
    }
    assert(a =~= b);
}

pub open spec fn line_views(lines: Seq<(bool, String)>) -> Seq<(bool, Seq<char>)> {
    Seq::new(lines.len(), |i: int| (lines[i].0, lines[i].1@))
}

fn push_signed(out: &mut String, n: i32)
    ensures
        final(out)@ == old(out)@ + signed_text(n as int),
{
    if n < 0 {
        out.append("-");
        push_decimal(out, (-(n as i64)) as u64);
        assert(out@ =~= old(out)@ + signed_text(n as int));
    } else {
        push_decimal(out, n as u64);
    }
}

/// Devices in a place in which their order is that of unsigned numbers.
spec fn shifted(k: i32) -> u64 {
    (k + 0x8000_0000) as u64
}

/// Whether an ascending list of places holds those of some devices, and no
/// other.
#[verifier::opaque]
spec fn places_of(ids: Seq<u64>, devices: Seq<i32>) -> bool {
    &&& sorted::ascending(ids)
    &&& forall|j: int| 0 <= j < devices.len() ==> ids.contains(shifted(#[trigger] devices[j]))
    &&& forall|j: int|
        0 <= j < ids.len() ==> #[trigger] ids[j] <= u32::MAX && devices.contains(
            (ids[j] - 0x8000_0000) as i32,
        )
}

/// Add the place of a device.
fn insert_device(ids: &mut Vec<u64>, k: i32, Ghost(devices): Ghost<Seq<i32>>)
    requires
        places_of(old(ids)@, devices),
    ensures
        places_of(final(ids)@, devices.push(k)),
{
    reveal(places_of);
    let ghost ids0 = ids@;
    let ghost after = devices.push(k);
    insert_sorted(ids, (k as i64 + 0x8000_0000) as u64);
    proof {
        assert forall|j: int| 0 <= j < after.len() implies ids@.contains(
            shifted(#[trigger] after[j]),
        ) by {
            if j < devices.len() {
                assert(after[j] == devices[j]);
                assert(ids0.contains(shifted(devices[j])));
            }
        }
        assert forall|j: int| 0 <= j < ids@.len() implies #[trigger] ids@[j] <= u32::MAX
            && after.contains((ids@[j] - 0x8000_0000) as i32) by {
            assert(ids@.contains(ids@[j]));
            if ids0.contains(ids@[j]) {
                let c = ids0.index_of(ids@[j]);
                assert(ids0[c] == ids@[j]);
                let d = devices.index_of((ids0[c] - 0x8000_0000) as i32);
                assert(after[d] == devices[d]);
            } else {
                assert(after[devices.len() as int] == k);
            }
        }
    }
}

/// The devices of a list of places.
fn devices_at(ids: &Vec<u64>, Ghost(devices): Ghost<Seq<i32>>) -> (r: Vec<i32>)
    requires
        places_of(ids@, devices),
    ensures
        forall|i: int, j: int| 0 <= i < j < r@.len() ==> #[trigger] r@[i] < #[trigger] r@[j],
        r@.to_set() == devices.to_set(),
{
    reveal(places_of);
    let mut out: Vec<i32> = Vec::new();
    for i in 0..ids.len()
        invariant
            forall|j: int| 0 <= j < ids@.len() ==> #[trigger] ids@[j] <= u32::MAX,
            out@.len() == i,
            forall|j: int| 0 <= j < i ==> #[trigger] out@[j] == ids@[j] - 0x8000_0000,
    {
        assert(ids@[i as int] <= u32::MAX);
        out.push((ids[i] as i64 - 0x8000_0000) as i32);
    }
    proof {
        assert forall|i: int, j: int| 0 <= i < j < out@.len() implies #[trigger] out@[i]
            < #[trigger] out@[j] by {
            assert(ids@[i] < ids@[j]);
        }
        assert forall|k: i32| #[trigger] out@.to_set().contains(k) <==> devices.to_set().contains(
            k,
        ) by {
            if out@.contains(k) {
                let c = out@.index_of(k);
                assert(out@[c] == ids@[c] - 0x8000_0000);
                assert(devices.contains(k));
            }
            if devices.contains(k) {
                let d = devices.index_of(k);
                assert(ids@.contains(shifted(devices[d])));
                let c = ids@.index_of(shifted(k));
                assert(out@[c] == k);
            }
        }
        assert(out@.to_set() =~= devices.to_set());
    }
    out
}

impl NumaTopology {
    /// The known devices, ascending.
    fn devices(&self) -> (r: Vec<i32>)
        ensures
            lists_devices(r@, self@.gpu_numa_map),
    {
        let ghost map = self.gpu_numa_map@;
        let mut ids: Vec<u64> = Vec::new();
        let ghost mut done: Seq<i32> = Seq::empty();
        assert(places_of(ids@, done)) by {
            reveal(places_of);
        }
        for k in it: self.gpu_numa_map.keys()
            invariant
                map == self.gpu_numa_map@,
                it.seq().unref().to_set() == map.dom(),
                done == it.seq().unref().take(it.index() as int),
                it.index() == it.seq().len() ==> done == it.seq().unref(),
                places_of(ids@, done),
        {
            insert_device(&mut ids, *k, Ghost(done));
            proof {
                done = done.push(*k);
                assert(done =~= it.seq().unref().take(it.index() as int + 1));
            }
        }
        let out = devices_at(&ids, Ghost(done));
        proof {
            assert forall|k: i32| #[trigger] out@.contains(k) <==> map.contains_key(k) by {
                assert(out@.to_set().contains(k) <==> map.dom().contains(k));
            }
        }
        out
    }

    /// The lines of a summary, to be logged: those with `true` as warnings.
    pub fn log_summary(&self) -> (r: Vec<(bool, String)>)
        ensures
            is_summary(self@, line_views(r@)),
    {
        let devices = self.devices();
        let mut out: Vec<(bool, String)> = Vec::new();
        let mut title = String::new();
        title.append("=== GPU-NUMA Topology ===");
        assert(title@ =~= "=== GPU-NUMA Topology ==="@);
        out.push((false, title));
        let mut count = String::new();
        count.append("NUMA nodes: ");
        push_decimal(&mut count, self.numa_nodes.len() as u64);
        assert(count@ =~= "NUMA nodes: "@ + text::decimal(self@.numa_nodes.len()));
        out.push((false, count));
        let ghost want = summary_lines(self@, devices@);
        if devices.len() == 0 {
            let mut none = String::new();
            none.append("No GPU NUMA affinity detected (nvidia-smi unavailable?)");
            assert(none@ =~= "No GPU NUMA affinity detected (nvidia-smi unavailable?)"@);
            out.push((true, none));
        } else {
            assert(line_views(out@) =~= want.take(2));
            for i in 0..devices.len()
                invariant
                    devices@.len() > 0,
                    lists_devices(devices@, self@.gpu_numa_map),
                    want == summary_lines(self@, devices@),
                    line_views(out@) == want.take(i + 2),
            {
                let ghost before = line_views(out@);
                let device = devices[i];
                assert(devices@.contains(devices@[i as int]));
                let mut line = String::new();
                line.append("  GPU ");
                push_signed(&mut line, device);
                line.append(" -> ");
                let node = match self.gpu_numa_map.get(&device) {
                    Some(node) => *node,
                    None => NumaNode::unknown(),
                };
                line.append(node.to_string().as_str());
                assert(line@ =~= device_line(device, self@.gpu_numa_map[device]));
                out.push((false, line));
                assert(line_views(out@) =~= before.push((false, line@)));
                assert(want[i + 2] == (false, line@));
                assert(line_views(out@) =~= want.take(i + 3));
            }
        }
        assert(line_views(out@) =~= want);
        out
    }
}

// ---- where pages are ----

/// The start of the page that an address lies in.
pub open spec fn page_start(addr: u64, page: u64) -> u64 {
    (addr - addr % page) as u64
}

/// The starts of the pages that addresses lie in, to ask where those are.
pub fn page_starts(addrs: &[u64], page: u64) -> (r: Vec<u64>)
    requires
        page > 0,
    ensures
        r@ == Seq::new(addrs@.len(), |i: int| page_start(addrs@[i], page)),
{
    let mut out: Vec<u64> = Vec::new();
    for i in 0..addrs.len()
        invariant
            page > 0,
            out@ == Seq::new(i as nat, |j: int| page_start(addrs@[j], page)),
    {
        let a: u64 = addrs[i];
        assert(a % page <= a) by (nonlinear_arith)
            requires
                page > 0,
        ;
        out.push(a - a % page);
        assert(out@ =~= Seq::new((i + 1) as nat, |j: int| page_start(addrs@[j], page)));
    }
    out
}

/// The node that a page's status names: unknown where it is an error.
pub open spec fn status_node(status: i32) -> NumaNode {
    if status >= 0 {
        NumaNode(status as u32)
    } else {
        NumaNode(u32::MAX)
    }
}

/// The nodes of pages, from what the query answered: all unknown where it
/// failed.
pub fn query_pages_numa(answered: bool, status: &[i32]) -> (r: Vec<NumaNode>)
    ensures
        r@ == Seq::new(
            status@.len(),
            |i: int|
                if answered {
                    status_node(status@[i])
                } else {
                    NumaNode(u32::MAX)
                },
        ),
{
    let ghost want = Seq::new(
        status@.len(),
        |i: int|
            if answered {
                status_node(status@[i])
            } else {
                NumaNode(u32::MAX)
            },
    );
    let mut out: Vec<NumaNode> = Vec::new();
    for i in 0..status.len()
        invariant
            want == Seq::new(
                status@.len(),
                |i: int|
                    if answered {
                        status_node(status@[i])
                    } else {
                        NumaNode(u32::MAX)
                    },
            ),
            out@ == want.take(i as int),
    {
        if answered && status[i] >= 0 {
            out.push(NumaNode(status[i] as u32));
        } else {
            out.push(NumaNode::unknown());
        }
        assert(out@ =~= want.take(i + 1));
    }
    assert(out@ =~= want);
    out
}

// ---- what is written can be read ----

proof fn lemma_decimal(n: nat)
    ensures
        text::decimal(n).len() > 0,
        text::all_digits(text::decimal(n)),
        text::digits_value(text::decimal(n)) == n,
    decreases n,
{
    let s = text::decimal(n);
    if n < 10 {
        assert(s.drop_last() =~= Seq::empty());
        assert(s.last() == text::digit(n));
        assert(s.last() as nat == 48 + n);
        assert(text::digits_value(s.drop_last()) == 0);
    } else {
        lemma_decimal(n / 10);
        let before = text::decimal(n / 10);
        assert(s.drop_last() =~= before);
        assert(s.last() == text::digit(n % 10));
        assert(s.last() as nat == 48 + n % 10);
        assert forall|i: int| 0 <= i < s.len() implies text::is_digit(#[trigger] s[i]) by {
            if i < before.len() {
                assert(s[i] == before[i]);
            }
        }
    }
}

proof fn lemma_reads_decimal(n: nat, max: nat)
    requires
        n <= max,
    ensures
        text::unsigned(text::decimal(n), max) == Some(n),
        forall|i: int|
            0 <= i < text::decimal(n).len() ==> text::is_digit(#[trigger] text::decimal(n)[i]),
{
    lemma_decimal(n);
    assert(text::is_digit(text::decimal(n)[0]));
}

proof fn lemma_split_none(s: Seq<char>, sep: char)
    requires
        forall|i: int| 0 <= i < s.len() ==> s[i] != sep,
    ensures
        text::split_by(s, sep) == seq![s],
    decreases s.len(),
{
    if s.len() > 0 {
        lemma_split_none(s.drop_last(), sep);
        assert(s.drop_last().push(s.last()) =~= s);
        assert(text::split_by(s, sep) =~= seq![s]);
    } else {
        assert(s =~= Seq::empty());
        assert(text::split_by(s, sep) =~= seq![s]);
    }
}

proof fn lemma_split_joined(a: Seq<char>, b: Seq<char>, sep: char)
    requires
        forall|i: int| 0 <= i < b.len() ==> b[i] != sep,
    ensures
        text::split_by(a.push(sep) + b, sep) == text::split_by(a, sep).push(b),
    decreases b.len(),
{
    let s = a.push(sep) + b;
    text::lemma_split_nonempty(a, sep);
    if b.len() == 0 {
        assert(s =~= a.push(sep));
        assert(s.drop_last() =~= a);
        assert(b =~= Seq::empty());
    } else {
        lemma_split_joined(a, b.drop_last(), sep);
        assert(s.drop_last() =~= a.push(sep) + b.drop_last());
        assert(s.last() == b.last());
        let before = text::split_by(a, sep).push(b.drop_last());
        assert(before.drop_last() =~= text::split_by(a, sep));
        assert(b.drop_last().push(b.last()) =~= b);
    }
}

/// The numbers of the first `n` runs, one run after the other.
spec fn runs_numbers(runs: Seq<(usize, usize)>, n: nat) -> Seq<usize>
    decreases n,
{
    if n == 0 {
        Seq::empty()
    } else {
        runs_numbers(runs, (n - 1) as nat) + topology::run_of(
            runs[n - 1].0 as nat,
            runs[n - 1].1 as nat,
        )
    }
}

proof fn lemma_runs_prefix(a: Seq<(usize, usize)>, b: Seq<(usize, usize)>, n: nat)
    requires
        n <= a.len(),
        n <= b.len(),
        forall|i: int| 0 <= i < n ==> a[i] == b[i],
    ensures
        runs_numbers(a, n) == runs_numbers(b, n),
    decreases n,
{
    if n > 0 {
        lemma_runs_prefix(a, b, (n - 1) as nat);
    }
}

proof fn lemma_runs(cpus: Seq<usize>, n: nat)
    requires
        n <= cpus.len(),
    ensures
        n > 0 ==> runs_of(cpus, n).len() > 0 && runs_of(cpus, n).last().1 == cpus[n - 1],
        forall|i: int|
            0 <= i < runs_of(cpus, n).len() ==> (#[trigger] runs_of(cpus, n)[i]).0 <= runs_of(
                cpus,
                n,
            )[i].1,
        runs_numbers(runs_of(cpus, n), runs_of(cpus, n).len()) == cpus.take(n as int),
    decreases n,
{
    let now = runs_of(cpus, n);
    if n == 0 {
        assert(cpus.take(0) =~= Seq::empty());
    } else {
        lemma_runs(cpus, (n - 1) as nat);
        let before = runs_of(cpus, (n - 1) as nat);
        let cpu = cpus[n - 1];
        let k = before.len();
        assert(cpus.take(n as int) =~= cpus.take(n - 1).push(cpu));
        if k > 0 && cpu == before.last().1 + 1 {
            lemma_runs_prefix(now, before, (k - 1) as nat);
            let a = before.last().0;
            assert(before[k - 1] == before.last());
            assert(topology::run_of(a as nat, cpu as nat) =~= topology::run_of(
                a as nat,
                before.last().1 as nat,
            ).push(cpu));
            assert(runs_numbers(now, now.len()) =~= cpus.take(n as int));
        } else {
            lemma_runs_prefix(now, before, k);
            assert(topology::run_of(cpu as nat, cpu as nat) =~= seq![cpu]);
            assert(runs_numbers(now, now.len()) =~= cpus.take(n as int));
        }
    }
}

proof fn lemma_run_text(run: (usize, usize))
    requires
        run.0 <= run.1,
    ensures
        strict_part(run_text(run)) == Ok::<Seq<usize>, Seq<char>>(
            topology::run_of(run.0 as nat, run.1 as nat),
        ),
        forall|i: int| 0 <= i < run_text(run).len() ==> #[trigger] run_text(run)[i] != ',',
        run_text(run).len() > 0,
{
    let a = text::decimal(run.0 as nat);
    let b = text::decimal(run.1 as nat);
    let s = run_text(run);
    lemma_reads_decimal(run.0 as nat, usize::MAX as nat);
    lemma_reads_decimal(run.1 as nat, usize::MAX as nat);
    lemma_decimal(run.0 as nat);
    if run.0 == run.1 {
        lemma_split_none(s, '-');
        assert(topology::run_of(run.0 as nat, run.1 as nat) =~= seq![run.0]);
    } else {
        lemma_split_none(a, '-');
        lemma_split_joined(a, b, '-');
        assert(text::split_by(s, '-') =~= seq![a, b]);
    }
    assert forall|i: int| 0 <= i < s.len() implies #[trigger] s[i] != ',' by {
        if i < a.len() {
            assert(text::is_digit(a[i]));
            assert(s[i] == a[i]);
        } else if i > a.len() {
            assert(text::is_digit(b[i - a.len() - 1]));
            assert(s[i] == b[i - a.len() - 1]);
        }
    }
}

proof fn lemma_runs_text(runs: Seq<(usize, usize)>, n: nat)
    requires
        0 < n <= runs.len(),
        forall|i: int| 0 <= i < runs.len() ==> (#[trigger] runs[i]).0 <= runs[i].1,
    ensures
        text::split_by(runs_text(runs, n), ',') == Seq::new(n, |i: int| run_text(runs[i])),
        runs_text(runs, n).len() > 0,
    decreases n,
{
    lemma_run_text(runs[n - 1]);
    let want = Seq::new(n, |i: int| run_text(runs[i]));
    if n == 1 {
        lemma_split_none(run_text(runs[0]), ',');
        assert(want =~= seq![run_text(runs[0])]);
    } else {
        lemma_runs_text(runs, (n - 1) as nat);
        lemma_split_joined(runs_text(runs, (n - 1) as nat), run_text(runs[n - 1]), ',');
        assert(want =~= Seq::new((n - 1) as nat, |i: int| run_text(runs[i])).push(
            run_text(runs[n - 1]),
        ));
    }
}

proof fn lemma_parts_numbers(runs: Seq<(usize, usize)>, parts: Seq<Seq<char>>, n: nat)
    requires
        n <= runs.len(),
        parts.len() == runs.len(),
        forall|i: int| 0 <= i < runs.len() ==> (#[trigger] runs[i]).0 <= runs[i].1,
        forall|i: int| 0 <= i < runs.len() ==> #[trigger] parts[i] == run_text(runs[i]),
    ensures
        strict_parts(parts, n) == Ok::<Seq<usize>, Seq<char>>(runs_numbers(runs, n)),
    decreases n,
{
    if n > 0 {
        lemma_parts_numbers(runs, parts, (n - 1) as nat);
        assert(parts[n - 1] == run_text(runs[n - 1]));
        lemma_run_text(runs[n - 1]);
    }
}

/// A CPU list that was written reads as the CPUs it was written from.
pub proof fn law_cpu_list_reads_as_written(cpus: Seq<usize>)
    ensures
        ({
            let runs = runs_of(cpus, cpus.len());
            strict_cpus(runs_text(runs, runs.len())) == Ok::<Seq<usize>, Seq<char>>(cpus)
        }),
{
    let runs = runs_of(cpus, cpus.len());
    lemma_runs(cpus, cpus.len());
    assert(cpus.take(cpus.len() as int) =~= cpus);
    if cpus.len() == 0 {
        assert(cpus =~= Seq::empty());
    } else {
        lemma_runs_text(runs, runs.len());
        lemma_parts_numbers(
            runs,
            text::split_by(runs_text(runs, runs.len()), ','),
            runs.len(),
        );
    }
}

} // verus!
