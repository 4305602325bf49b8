//! NUMA nodes, CPU lists, devices and their links.
use std::collections::HashMap;

use pegastore::rdma::nics::{
    detect_gpus, enumerate_rdma_nics, format_pci_device, get_pcie_path, gts_to_pcie_gen,
    nic_has_active_port, nic_numa_node, normalize_lowercase, normalize_pci_addr, parse_gpu_list,
    read_numa_node, read_pcie_link_info, GpuInfo, NicDir, RdmaNicInfo, SystemTopology,
};
use pegastore::rdma::summary::{DeviceFiles, GroupFiles};
use pegastore::rdma::numa::{
    check_pin, device_numa_node, format_cpu_list, gpu_count, page_starts,
    parse_closest_cpu_numa_node, parse_cpulist, pin_cpus, query_pages_numa,
    read_cpu_topology_from_sysfs, NodeDir, NumaNode, NumaTopology,
};

fn some(s: &str) -> Option<String> {
    Some(s.to_string())
}

#[test]
fn test_numa_node_display() {
    assert_eq!(NumaNode(0).to_string(), "NUMA0");
    assert_eq!(NumaNode(7).to_string(), "NUMA7");
    assert_eq!(NumaNode::unknown().to_string(), "UNKNOWN");
}

#[test]
fn test_pin_unknown_node_fails() {
    let result = check_pin(NumaNode::unknown());
    assert!(result.is_err());
    assert!(result.unwrap_err().contains("unknown"));
}

#[test]
fn test_format_cpu_list() {
    assert_eq!(format_cpu_list(&[]), "");
    assert_eq!(format_cpu_list(&[0]), "0");
    assert_eq!(format_cpu_list(&[0, 1, 2, 3]), "0-3");
    assert_eq!(format_cpu_list(&[0, 2, 4]), "0,2,4");
    assert_eq!(format_cpu_list(&[0, 1, 2, 4, 5]), "0-2,4-5");
    assert_eq!(format_cpu_list(&[0, 1, 2, 4, 6, 7, 8]), "0-2,4,6-8");
}

#[test]
fn test_parse_cpulist_range() {
    let cpus = parse_cpulist("0-3").unwrap();
    assert_eq!(cpus, vec![0, 1, 2, 3]);
}

#[test]
fn test_parse_cpulist_list() {
    let cpus = parse_cpulist("0,4,8").unwrap();
    assert_eq!(cpus, vec![0, 4, 8]);
}

#[test]
fn test_parse_cpulist_mixed() {
    let cpus = parse_cpulist("0-2,8,16-17").unwrap();
    assert_eq!(cpus, vec![0, 1, 2, 8, 16, 17]);
}

#[test]
fn test_parse_cpulist_hyperthreading() {
    let cpus = parse_cpulist("0-15,32-47").unwrap();
    assert_eq!(cpus.len(), 32);
    assert_eq!(cpus[0], 0);
    assert_eq!(cpus[15], 15);
    assert_eq!(cpus[16], 32);
    assert_eq!(cpus[31], 47);
}

#[test]
fn test_parse_cpulist_empty() {
    let cpus = parse_cpulist("").unwrap();
    assert!(cpus.is_empty());
}

#[test]
fn test_parse_cpulist_single_cpu() {
    let cpus = parse_cpulist("5").unwrap();
    assert_eq!(cpus, vec![5]);
}

#[test]
fn test_gpu_numa_nodes_are_valid_sorted_unique() {
    let topology = NumaTopology::from_parts(
        HashMap::from([
            (0, NumaNode(3)),
            (1, NumaNode(3)),
            (2, NumaNode::unknown()),
            (3, NumaNode(0)),
            (4, NumaNode(5)),
        ]),
        vec![
            NumaNode(0),
            NumaNode(1),
            NumaNode(2),
            NumaNode(3),
            NumaNode(4),
            NumaNode(5),
        ],
    );

    assert_eq!(topology.gpu_numa_nodes(), vec![NumaNode(0), NumaNode(3), NumaNode(5)]);
}

#[test]
fn closest_cpu_numa_node_uses_first_reported_id() {
    assert_eq!(parse_closest_cpu_numa_node("NUMA ID of closest CPU: 3\n"), NumaNode(3));
    assert_eq!(parse_closest_cpu_numa_node("NUMA IDs of closest CPU: 1,18-33\n"), NumaNode(1));
}

#[test]
fn test_query_pages_numa_empty() {
    let result = query_pages_numa(true, &[]);
    assert!(result.is_empty());
}

#[test]
fn pages_answer_with_their_node_or_unknown() {
    assert_eq!(
        query_pages_numa(true, &[0, 3, -14]),
        vec![NumaNode(0), NumaNode(3), NumaNode::unknown()]
    );
    assert_eq!(query_pages_numa(false, &[0, 3]), vec![NumaNode::unknown(); 2]);
    assert_eq!(page_starts(&[0x1234, 0x2000, 0xfff], 4096), vec![0x1000, 0x2000, 0]);
}

#[test]
fn cpu_lists_are_refused_part_by_part() {
    assert_eq!(parse_cpulist("3,1,2,1").unwrap(), vec![1, 2, 3]);
    assert_eq!(parse_cpulist("x").unwrap_err(), "Invalid CPU ID: x");
    assert_eq!(parse_cpulist("1, 2").unwrap_err(), "Invalid CPU ID:  2");
    assert_eq!(parse_cpulist("1-y").unwrap_err(), "Invalid CPU ID: y");
    assert_eq!(parse_cpulist("1-2-3").unwrap_err(), "Invalid CPU range format: 1-2-3");
    assert_eq!(parse_cpulist("4-2").unwrap(), Vec::<usize>::new());
}

#[test]
fn cpu_list_reads_as_written() {
    let cpus: Vec<usize> = vec![0, 1, 2, 9, 11, 12, 40];
    assert_eq!(parse_cpulist(&format_cpu_list(&cpus)).unwrap(), cpus);
}

#[test]
fn cpu_topology_is_read_from_node_directories() {
    let dirs = vec![
        NodeDir { name: "node1".to_string(), cpulist: Some(Ok("4-5\n".to_string())) },
        NodeDir { name: "node0".to_string(), cpulist: Some(Ok("0-3\n".to_string())) },
        NodeDir { name: "possible".to_string(), cpulist: Some(Ok("junk".to_string())) },
    ];
    let map = read_cpu_topology_from_sysfs(&dirs).unwrap();
    assert_eq!(map.len(), 2);
    assert_eq!(map[&0], vec![0, 1, 2, 3]);
    assert_eq!(map[&1], vec![4, 5]);
    assert_eq!(read_cpu_topology_from_sysfs(&vec![]).unwrap_err(), "No NUMA nodes found");
    assert_eq!(pin_cpus(NumaNode(1), &Ok(map)).unwrap(), vec![4, 5]);
    assert_eq!(
        pin_cpus(NumaNode(9), &Ok(HashMap::new())).unwrap_err(),
        "No CPUs found for NUMA node 9"
    );
    assert_eq!(
        pin_cpus(NumaNode(9), &Err("gone".to_string())).unwrap_err(),
        "Failed to get NUMA topology: gone"
    );
    assert_eq!(
        pin_cpus(NumaNode(2), &Ok(HashMap::from([(2, vec![])]))).unwrap_err(),
        "CPU list is empty for NUMA node 2"
    );
}

#[test]
fn gpu_nodes_come_from_text_alone() {
    assert_eq!(device_numa_node(Some("closest: 2\n".as_bytes())), NumaNode(2));
    assert_eq!(device_numa_node(Some(&[0xff, 0xfe])), NumaNode::unknown());
    assert_eq!(device_numa_node(None), NumaNode::unknown());
    assert_eq!(parse_closest_cpu_numa_node("no colon"), NumaNode::unknown());
    assert_eq!(gpu_count(" 8\nmore\n"), Some(8));
    assert_eq!(gpu_count(""), None);
}

#[test]
fn numa_topology_of_gpus() {
    let cpus: HashMap<u32, Vec<usize>> = HashMap::from([(1, vec![2]), (0, vec![0])]);
    let topo = NumaTopology::detect(&vec![(0, NumaNode(1)), (1, NumaNode(0))], &Ok(cpus));
    assert_eq!(topo.numa_for_gpu(0), NumaNode(1));
    assert_eq!(topo.numa_for_gpu(5), NumaNode::unknown());
    assert_eq!(topo.numa_nodes().to_vec(), vec![NumaNode(0), NumaNode(1)]);
    assert_eq!(topo.num_nodes(), 2);
    assert!(topo.is_multi_numa());
    let bare = NumaTopology::detect(&vec![], &Err("none".to_string()));
    assert_eq!(bare.numa_nodes().to_vec(), vec![NumaNode(0)]);
    assert!(!bare.is_multi_numa());
}

// ---- devices ----

fn gpu(device_id: u32, numa: u32) -> GpuInfo {
    GpuInfo {
        device_id,
        pci_addr: format!("0000:{device_id:02x}:00.0"),
        numa_node: NumaNode(numa),
    }
}

fn nic(name: &str, numa: u32) -> RdmaNicInfo {
    RdmaNicInfo {
        name: name.to_string(),
        pci_addr: "0000:2a:00.0".to_string(),
        numa_node: NumaNode(numa),
    }
}

#[test]
fn detect_does_not_panic() {
    let topo = SystemTopology::detect(&vec![], &vec![], &HashMap::new());
    let _ = topo.groups();
}

#[test]
fn nics_for_nonexistent_gpu_returns_empty() {
    let topo = SystemTopology::detect(
        &vec![gpu(0, 0)],
        &vec![nic("mlx5_0", 0)],
        &HashMap::from([(0, vec![0])]),
    );
    assert!(topo.nics_for_gpu(9999).is_empty());
}

#[test]
fn groups_are_by_node_and_nics_share_it() {
    let topo = SystemTopology::detect(
        &vec![gpu(0, 1), gpu(1, 0), gpu(2, u32::MAX)],
        &vec![nic("mlx5_0", 0), nic("mlx5_1", 1), nic("mlx5_2", 1)],
        &HashMap::from([(0, vec![0, 1]), (1, vec![2, 3])]),
    );
    let nodes: Vec<NumaNode> = topo.groups().iter().map(|g| g.node).collect();
    assert_eq!(nodes[..2], [NumaNode(0), NumaNode(1)]);
    assert_eq!(topo.groups()[1].cpus, vec![2, 3]);
    let names: Vec<&str> = topo.nics_for_gpu(0).iter().map(|n| n.name.as_str()).collect();
    assert_eq!(names, vec!["mlx5_1", "mlx5_2"]);
}

#[test]
fn normalize_8digit_domain() {
    assert_eq!(normalize_pci_addr("00000000:19:00.0"), "0000:19:00.0");
}

#[test]
fn normalize_4digit_domain() {
    assert_eq!(normalize_pci_addr("0000:19:00.0"), "0000:19:00.0");
}

#[test]
fn normalize_no_domain() {
    assert_eq!(normalize_pci_addr("19:00.0"), "0000:19:00.0");
}

#[test]
fn normalize_uppercase() {
    assert_eq!(normalize_pci_addr("00000000:2A:00.0"), "0000:2a:00.0");
}

#[test]
fn normalize_whitespace() {
    assert_eq!(normalize_pci_addr("  00000000:19:00.0 "), "0000:19:00.0");
}

#[test]
fn normalize_lower_case_alone() {
    assert_eq!(normalize_lowercase("19:00.0"), "0000:19:00.0");
    assert_eq!(normalize_lowercase("00000000:2a:00.0"), "0000:2a:00.0");
}

#[test]
fn gts_to_pcie_gen_known_speeds() {
    assert_eq!(gts_to_pcie_gen("2.5 GT/s PCIe"), "1.0");
    assert_eq!(gts_to_pcie_gen("5.0 GT/s PCIe"), "2.0");
    assert_eq!(gts_to_pcie_gen("8.0 GT/s PCIe"), "3.0");
    assert_eq!(gts_to_pcie_gen("16.0 GT/s PCIe"), "4.0");
    assert_eq!(gts_to_pcie_gen("32.0 GT/s PCIe"), "5.0");
    assert_eq!(gts_to_pcie_gen("64.0 GT/s PCIe"), "6.0");
}

#[test]
fn gts_to_pcie_gen_unknown_speed() {
    assert_eq!(gts_to_pcie_gen("unknown"), "?");
    assert_eq!(gts_to_pcie_gen(""), "?");
}

#[test]
fn read_pcie_link_info_nonexistent_device() {
    // A device whose files cannot be read has no link information.
    assert!(read_pcie_link_info(&None, &None).is_none());
}

#[test]
fn link_info_needs_both_files() {
    let link = read_pcie_link_info(&some("16.0 GT/s PCIe\n"), &some("16\n"));
    assert_eq!(link.as_deref(), Some("PCIe 4.0 x16"));
    assert!(read_pcie_link_info(&some("16.0 GT/s PCIe\n"), &None).is_none());
    assert!(read_pcie_link_info(&some("Unknown\n"), &some("16\n")).is_none());
    assert!(read_pcie_link_info(&some("8.0 GT/s PCIe"), &some(" \n")).is_none());
    assert_eq!(format_pci_device("GPU 0", "a", &link), "GPU 0 (a, PCIe 4.0 x16)");
    assert_eq!(format_pci_device("GPU 0", "a", &None), "GPU 0 (a)");
}

#[test]
fn pcie_paths_hold_devices_alone() {
    let path = "/sys/devices/pci0000:16/0000:16:01.0/0000:17:00.0/0000:18:00.0/0000:19:00.0";
    assert_eq!(
        get_pcie_path(Some(path)),
        vec!["0000:16:01.0", "0000:17:00.0", "0000:18:00.0", "0000:19:00.0"]
    );
    assert!(get_pcie_path(None).is_empty());
}

#[test]
fn node_files_say_a_node_or_nothing() {
    assert_eq!(read_numa_node(&some("1\n")), NumaNode(1));
    assert_eq!(read_numa_node(&some("-1\n")), NumaNode::unknown());
    assert_eq!(read_numa_node(&some("x")), NumaNode::unknown());
    assert_eq!(read_numa_node(&None), NumaNode::unknown());
    assert_eq!(nic_numa_node(&some("0000:19:00.0"), &some("1")), NumaNode(1));
    assert_eq!(nic_numa_node(&None, &some("1")), NumaNode::unknown());
}

#[test]
fn gpus_are_listed_by_number() {
    let list = parse_gpu_list("1, 00000000:2A:00.0\nnonsense\n0, 00000000:19:00.0\n");
    assert_eq!(list.len(), 2);
    let gpus = detect_gpus(&list, &vec![some("1"), None]);
    assert_eq!(gpus[0].device_id, 0);
    assert_eq!(gpus[0].pci_addr, "0000:19:00.0");
    assert_eq!(gpus[0].numa_node, NumaNode::unknown());
    assert_eq!(gpus[1].device_id, 1);
    assert_eq!(gpus[1].pci_addr, "0000:2a:00.0");
    assert_eq!(gpus[1].numa_node, NumaNode(1));
}

#[test]
fn active_nics_are_listed_by_name() {
    assert!(nic_has_active_port(&Some(vec![some("1: DOWN\n"), some("4: ACTIVE\n")])));
    assert!(!nic_has_active_port(&Some(vec![some("1: DOWN\n"), None])));
    assert!(!nic_has_active_port(&None));
    let dir = |name: &str, state: &str| NicDir {
        name: some(name),
        port_states: Some(vec![some(state)]),
        pci_addr: some("0000:19:00.0"),
        numa: some("1\n"),
    };
    let nics = enumerate_rdma_nics(&vec![
        dir("mlx5_1", "4: ACTIVE"),
        dir("mlx5_down", "1: DOWN"),
        dir("mlx5_0", "4: ACTIVE"),
        dir("mlx5_bond_0", "4: ACTIVE"),
    ]);
    let names: Vec<&str> = nics.iter().map(|n| n.name.as_str()).collect();
    assert_eq!(names, vec!["mlx5_0", "mlx5_1", "mlx5_bond_0"]);
    assert_eq!(nics[0].numa_node, NumaNode(1));
}

// ---- in words ----

#[test]
fn numa_topology_in_words() {
    let topology = NumaTopology::from_parts(
        HashMap::from([(2, NumaNode::unknown()), (-1, NumaNode(1)), (10, NumaNode(0))]),
        vec![NumaNode(0), NumaNode(1)],
    );
    let lines: Vec<String> = topology.log_summary().into_iter().map(|(_, l)| l).collect();
    assert_eq!(
        lines,
        vec![
            "=== GPU-NUMA Topology ===",
            "NUMA nodes: 2",
            "  GPU -1 -> NUMA1",
            "  GPU 2 -> UNKNOWN",
            "  GPU 10 -> NUMA0",
        ]
    );
    let bare = NumaTopology::from_parts(HashMap::new(), vec![NumaNode(0)]).log_summary();
    assert_eq!(bare.len(), 3);
    assert!(bare[2].0);
    assert_eq!(bare[2].1, "No GPU NUMA affinity detected (nvidia-smi unavailable?)");
}

#[test]
fn system_topology_in_words() {
    let topo = SystemTopology::detect(
        &vec![gpu(0, 0), gpu(1, 0)],
        &vec![nic("mlx5_0", 0)],
        &HashMap::from([(0, vec![0, 1, 2, 5]), (1, vec![])]),
    );
    let files = |path: Option<&str>| DeviceFiles {
        path: path.map(str::to_string),
        speed: some("32.0 GT/s PCIe"),
        width: path.map(|_| "16".to_string()),
    };
    let group = GroupFiles {
        gpus: vec![
            files(Some("/sys/devices/pci0000:16/0000:16:01.0/0000:00:00.0")),
            files(None),
        ],
        nics: vec![files(Some("/sys/devices/pci0000:16/0000:16:01.0/0000:2a:00.0"))],
    };
    let empty = GroupFiles { gpus: vec![], nics: vec![] };
    let count = topo.groups().len();
    let all: Vec<GroupFiles> = if count == 2 { vec![group, empty] } else { vec![group] };
    let lines = topo.log_summary(&all);
    assert_eq!(
        lines[..9],
        [
            "=== PegaFlow System Topology ===",
            "",
            "NUMA0:",
            "  GPUs: 0, 1",
            "  NICs: mlx5_0 (0000:2a:00.0)",
            "  CPUs: 0-2,5",
            "  PCIe:",
            "    [0000:16:01.0] GPU 0 (0000:00:00.0, PCIe 5.0 x16), \
             mlx5_0 (0000:2a:00.0, PCIe 5.0 x16)",
            "    [?] GPU 1 (0000:01:00.0)",
        ]
    );
    assert_eq!(lines[9], "");
    if count == 2 {
        assert_eq!(lines[10..], ["NUMA1:", "  GPUs: (none)", "  NICs: (none)", "  CPUs: (none)", ""]);
    }
}
