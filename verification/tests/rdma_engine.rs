//! Handshakes, connections and batches of the transfer engine.
use pegastore::rdma::batch::{
    NicTally, NumaRoundRobin, PlannedOp, Registration, Registrations, Tally,
};
use pegastore::rdma::descriptor::{
    HandshakeMetadata, NicHandshake, RcEndpoint, RegionDescriptor, TransferDesc,
};
use pegastore::rdma::engine::{Completion, ConnectionStatus, TransferEngine};
use pegastore::rdma::numa::NumaNode;
use pegastore::rdma::ports::{
    choose_port_and_gid, chosen_gid, pick_gid, GidEntry, GidType, LinkLayer, Mtu, PortAttr,
};
use pegastore::rdma::transfer::TransferError;

fn text(e: TransferError) -> String {
    match e {
        TransferError::InvalidArgument(what) => format!("invalid: {what}"),
        TransferError::Backend(what) => format!("backend: {what}"),
        TransferError::MemoryNotRegistered { ptr } => format!("not registered: {ptr:#x}"),
        TransferError::DeviceNotFound(what) => format!("no device: {what}"),
    }
}

#[test]
fn handshake_metadata_roundtrip() {
    let meta = HandshakeMetadata {
        nics: vec![NicHandshake {
            endpoints: vec![RcEndpoint { gid: [7u8; 16], lid: 0, qp_num: 200, psn: 0x1111 }],
        }],
    };
    let bytes = meta.to_bytes();
    let decoded = HandshakeMetadata::from_bytes(&bytes).expect("decode");
    assert_eq!(decoded.nics.len(), 1);
    assert_eq!(decoded.nics[0].endpoints, meta.nics[0].endpoints);
}

#[test]
fn handshake_metadata_multi_nic_multi_qp_roundtrip() {
    let ep = |gid: u8, qp_num: u32| RcEndpoint { gid: [gid; 16], lid: 0, qp_num, psn: qp_num };
    let meta = HandshakeMetadata {
        nics: vec![
            NicHandshake { endpoints: vec![ep(1, 100), ep(1, 101)] },
            NicHandshake { endpoints: vec![ep(2, 200), ep(2, 201)] },
        ],
    };
    let bytes = meta.to_bytes();
    let decoded = HandshakeMetadata::from_bytes(&bytes).expect("decode");
    assert_eq!(decoded.nics.len(), 2);
    assert_eq!(decoded.nics[0].endpoints.len(), 2);
    assert_eq!(decoded.nics[0].endpoints[1].qp_num, 101);
    assert_eq!(decoded.nics[1].endpoints[0].qp_num, 200);
}

#[test]
fn handshake_metadata_rejects_garbage() {
    assert!(HandshakeMetadata::from_bytes(&[1, 2, 3]).is_err());
}

#[test]
fn region_descriptor_roundtrip_and_contains() {
    let desc = RegionDescriptor { addr: 0x1000, len: 0x2000, rkeys: vec![10, 20] };
    let decoded = RegionDescriptor::from_bytes(&desc.to_bytes()).expect("decode");
    assert_eq!(decoded, desc);
    assert!(desc.contains(0x1000, 0x2000));
    assert!(desc.contains(0x2fff, 1));
    assert!(!desc.contains(0x0fff, 1));
    assert!(!desc.contains(0x2fff, 2));
    assert!(!desc.contains(u64::MAX, 1));
    assert!(RegionDescriptor::from_bytes(&[9]).is_err());
}

#[test]
fn descriptors_have_their_documented_bytes() {
    // Numbers are variable-length: below 251 one byte, then 251 and two bytes.
    let desc = RegionDescriptor { addr: 0x1000, len: 7, rkeys: vec![10, 20] };
    assert_eq!(desc.to_bytes(), vec![251, 0x00, 0x10, 7, 2, 10, 20]);
    let meta = HandshakeMetadata {
        nics: vec![NicHandshake {
            endpoints: vec![RcEndpoint { gid: [7u8; 16], lid: 5, qp_num: 200, psn: 9 }],
        }],
    };
    let mut want = vec![1, 1];
    want.extend_from_slice(&[7; 16]);
    want.extend_from_slice(&[5, 200, 9]);
    assert_eq!(meta.to_bytes(), want);
}

#[test]
fn trailing_bytes_are_refused() {
    let mut bytes = RegionDescriptor { addr: 1, len: 2, rkeys: vec![3] }.to_bytes();
    bytes.push(0);
    assert_eq!(
        text(RegionDescriptor::from_bytes(&bytes).unwrap_err()),
        "invalid: trailing bytes in region descriptor"
    );
    assert_eq!(
        text(RegionDescriptor::from_bytes(&[]).unwrap_err()),
        "invalid: invalid region descriptor"
    );
    let mut bytes = HandshakeMetadata { nics: vec![] }.to_bytes();
    bytes.push(0);
    assert_eq!(
        text(HandshakeMetadata::from_bytes(&bytes).unwrap_err()),
        "invalid: trailing bytes in handshake metadata"
    );
    assert_eq!(
        text(HandshakeMetadata::from_bytes(&[]).unwrap_err()),
        "invalid: invalid handshake metadata"
    );
    assert!(RegionDescriptor::from_parsed(Some(((1, 2, vec![3]), 4)), 4).is_ok());
    assert!(RegionDescriptor::from_parsed(Some(((1, 2, vec![3]), 4)), 5).is_err());
    assert!(HandshakeMetadata::from_parsed(None, 0).is_err());
}

#[test]
fn descriptor_at_the_end_of_memory() {
    let desc = RegionDescriptor { addr: u64::MAX - 10, len: 100, rkeys: vec![] };
    assert!(desc.contains(u64::MAX - 10, 10));
    assert!(!desc.contains(u64::MAX - 10, 11));
}

// ---- round robin ----

#[test]
fn nics_take_turns_on_their_node() {
    let mut rr = NumaRoundRobin::from_nodes(&vec![
        NumaNode(0),
        NumaNode(1),
        NumaNode(0),
        NumaNode::unknown(),
    ]);
    let on0: Vec<usize> = (0..4).map(|_| rr.pick(NumaNode(0))).collect();
    assert_eq!(on0, vec![0, 2, 0, 2]);
    assert_eq!(rr.pick(NumaNode(1)), 1);
    // Unknown or unmatched nodes go over all NICs.
    let all: Vec<usize> = (0..3).map(|_| rr.pick(NumaNode::unknown())).collect();
    assert_eq!(all, vec![0, 1, 2]);
    assert_eq!(rr.pick(NumaNode(9)), 3);
}

// ---- the engine ----

fn names() -> Vec<String> {
    vec!["mlx5_0".to_string(), "mlx5_1".to_string()]
}

fn engine(qps: usize) -> TransferEngine {
    TransferEngine::new(names(), qps, vec![Ok(NumaNode(0)), Ok(NumaNode(1))]).ok().unwrap()
}

fn meta(first: u32, nics: usize, qps: usize) -> HandshakeMetadata {
    let ep = |qp_num: u32| RcEndpoint { gid: [1; 16], lid: 0, qp_num, psn: qp_num };
    HandshakeMetadata {
        nics: (0..nics)
            .map(|n| NicHandshake {
                endpoints: (0..qps).map(|q| ep(first + (10 * n + q) as u32)).collect(),
            })
            .collect(),
    }
}

fn connect(engine: &mut TransferEngine, addr: &str, qps: usize, first: u32) {
    assert!(engine.get_or_prepare(addr).is_none());
    let local = meta(first, 2, qps);
    engine.prepared(addr, Ok(local.nics.clone())).unwrap();
    let remote = meta(1000, 2, qps);
    match engine.complete_handshake(addr, &local, &remote).unwrap() {
        Completion::Connect(todo) => {
            assert_eq!(todo.len(), 2 * qps);
            assert_eq!(todo[0].nic, 0);
            assert_eq!(todo[0].qp_num, first);
            assert_eq!(todo[0].remote.qp_num, 1000);
            assert_eq!(todo[qps].nic, 1);
            assert_eq!(todo[qps].qp_num, first + 10);
            assert_eq!(todo[qps].remote.qp_num, 1010);
        }
        Completion::Done => panic!("nothing to connect"),
    }
    engine.connected(addr, &local, Ok(())).unwrap();
}

#[test]
fn engines_need_named_nics_that_open() {
    let refusal = |names: Vec<String>, qps, opened| {
        text(TransferEngine::new(names, qps, opened).err().unwrap())
    };
    assert_eq!(refusal(vec![], 1, vec![]), "invalid: nic_names is empty");
    assert_eq!(refusal(names(), 0, vec![]), "invalid: qps_per_peer must be > 0");
    assert_eq!(
        refusal(vec!["a".to_string(), " ".to_string()], 1, vec![Ok(NumaNode(0))]),
        "invalid: nic_name is empty"
    );
    assert_eq!(
        refusal(names(), 1, vec![Err(TransferError::DeviceNotFound("mlx5_0".to_string()))]),
        "no device: mlx5_0"
    );
    assert_eq!(engine(3).num_nics(), 2);
    assert_eq!(engine(3).qps_per_peer(), 3);
    assert_eq!(engine(3).num_qps(), 0);
}

#[test]
fn one_handshake_at_a_time() {
    let mut engine = engine(1);
    assert!(engine.get_or_prepare("a").is_none());
    assert!(matches!(engine.get_or_prepare("a"), Some(ConnectionStatus::Connecting)));
    assert!(engine.get_or_prepare("b").is_none());
    // A failure ends it.
    let failed = engine.creation_failed(1, 0, "no memory");
    let e = engine.prepared("a", Err(failed)).unwrap_err();
    assert_eq!(text(e), "backend: QP creation failed on nic=mlx5_1 qp_idx=0: no memory");
    assert!(engine.get_or_prepare("a").is_none());
    // So does an abort, and the queue pairs are gone.
    let local = meta(5, 2, 1);
    match engine.prepared("a", Ok(local.nics.clone())).unwrap() {
        ConnectionStatus::Prepared(m) => assert_eq!(m.nics[1].endpoints[0].qp_num, 15),
        _ => panic!("not prepared"),
    }
    engine.abort_handshake("a", &local);
    assert!(engine.get_or_prepare("a").is_none());
    let e = engine.complete_handshake("a", &local, &meta(0, 2, 1)).unwrap_err();
    assert_eq!(text(e), "backend: no pending session to complete");
}

#[test]
fn packet_numbers_count_up() {
    let mut engine = engine(1);
    assert_eq!((engine.next_psn(), engine.next_psn(), engine.next_psn()), (1, 2, 3));
}

#[test]
fn completed_handshakes_connect() {
    let mut engine = engine(2);
    connect(&mut engine, "peer", 2, 100);
    assert!(matches!(engine.get_or_prepare("peer"), Some(ConnectionStatus::Existing)));
    assert_eq!(engine.num_qps(), 4);
    assert_eq!(engine.local_meta_for("peer").unwrap().nics[0].endpoints[1].qp_num, 101);
    assert!(engine.local_meta_for("other").is_none());
    // A second completion finds the first.
    assert!(matches!(
        engine.complete_handshake("peer", &meta(100, 2, 2), &meta(0, 2, 2)).unwrap(),
        Completion::Done
    ));
    assert!(engine.invalidate_connection("peer"));
    assert!(!engine.invalidate_connection("peer"));
    assert_eq!(engine.num_qps(), 0);
    assert!(engine.get_or_prepare("peer").is_none());
}

#[test]
fn peers_must_agree_on_their_shape() {
    let mut engine = engine(2);
    assert!(engine.get_or_prepare("p").is_none());
    let local = meta(100, 2, 2);
    engine.prepared("p", Ok(local.nics.clone())).unwrap();
    let e = engine.complete_handshake("p", &local, &meta(0, 1, 2)).unwrap_err();
    assert_eq!(text(e), "invalid: remote NIC count mismatch in handshake");
    let e = engine.complete_handshake("p", &local, &meta(0, 2, 3)).unwrap_err();
    assert_eq!(text(e), "backend: remote qps_per_peer mismatch on nic=0: local=2, remote=3");
    // The queue pairs still wait.
    assert!(engine.complete_handshake("p", &local, &meta(0, 2, 2)).is_ok());
    // One that could not be connected stays in progress.
    let e = engine.connected("p", &local, Err(TransferError::Backend("x".to_string())));
    assert_eq!(text(e.unwrap_err()), "backend: x");
    assert!(matches!(engine.get_or_prepare("p"), Some(ConnectionStatus::Connecting)));
}

#[test]
fn interleaved_handshakes_find_their_own() {
    let mut engine = engine(1);
    assert!(engine.get_or_prepare("a").is_none());
    assert!(engine.get_or_prepare("b").is_none());
    let (a, b) = (meta(1, 2, 1), meta(2, 2, 1));
    engine.prepared("a", Ok(a.nics.clone())).unwrap();
    engine.prepared("b", Ok(b.nics.clone())).unwrap();
    match engine.complete_handshake("b", &b, &meta(0, 2, 1)).unwrap() {
        Completion::Connect(todo) => assert_eq!(todo[0].qp_num, 2),
        Completion::Done => panic!("nothing to connect"),
    }
    match engine.complete_handshake("a", &a, &meta(0, 2, 1)).unwrap() {
        Completion::Connect(todo) => assert_eq!(todo[0].qp_num, 1),
        Completion::Done => panic!("nothing to connect"),
    }
}

/// Register `len` bytes at `addr` with both NICs.
fn register(engine: &mut TransferEngine, addr: u64, len: usize, node: u32) {
    engine.register_with(addr, len, NumaNode(node), "host", &vec![Ok(3), Ok(4)]).unwrap();
}

#[test]
fn registration_needs_every_nic() {
    let mut engine = engine(1);
    let on = NumaNode(0);
    let d = engine.register_with(0x1000, 64, on, "host", &vec![Ok(3), Ok(4)]).unwrap();
    assert_eq!(d, RegionDescriptor { addr: 0x1000, len: 64, rkeys: vec![3, 4] });
    let full = vec![Ok(3), Err("full".to_string())];
    let e = engine.register_with(0x2000, 64, on, "dmabuf", &full);
    assert_eq!(
        text(e.unwrap_err()),
        "backend: dmabuf MR registration failed on nic=mlx5_1: full"
    );
    let e = engine.register_with(0x2000, 0, on, "host", &vec![]);
    assert_eq!(text(e.unwrap_err()), "invalid: len must be non-zero");
    assert!(engine.find_entry(0x2000, 1).is_none());
    // One registration per base address.
    let e = engine.register_with(0x1000, 32, on, "host", &vec![Ok(5), Ok(6)]);
    assert_eq!(text(e.unwrap_err()), "invalid: memory is already registered");
    assert_eq!(engine.find_entry(0x1000, 64).unwrap().len, 64);
    assert!(engine.unregister(0x1000).is_ok());
    assert_eq!(text(engine.unregister(0x1000).unwrap_err()), "not registered: 0x1000");
    assert!(engine.register_with(0x1000, 32, on, "host", &vec![Ok(5), Ok(6)]).is_ok());
}

#[test]
fn unregistered_memory_is_refused() {
    let mut engine = engine(1);
    connect(&mut engine, "peer", 1, 100);
    register(&mut engine, 0x1000, 0x100, 0);
    register(&mut engine, 0x2000, 0x100, 0);
    let region = RegionDescriptor { addr: 0, len: 1 << 20, rkeys: vec![7, 8] };
    let desc = |local| TransferDesc { local, remote: 0, len: 16, region: &region };
    assert_eq!(engine.batch_transfer_async("peer", &[desc(0x1010)]).unwrap().len(), 1);
    engine.unregister(0x1000).unwrap();
    let e = engine.batch_transfer_async("peer", &[desc(0x1010)]).err().unwrap();
    assert_eq!(text(e), "not registered: 0x1010");
    let e = engine.batch_transfer_async("peer", &[desc(0x2000), desc(0x1010)]).err().unwrap();
    assert_eq!(text(e), "not registered: 0x1010");
    assert_eq!(engine.batch_transfer_async("peer", &[desc(0x2000)]).unwrap().len(), 1);
}

#[test]
fn batches_spread_over_nics_and_queue_pairs() {
    let mut engine = engine(2);
    connect(&mut engine, "peer", 2, 100);
    register(&mut engine, 0, 0x1000, 1);
    register(&mut engine, 0x1000, 0x1000, 0);
    let region = RegionDescriptor { addr: 0, len: 1 << 20, rkeys: vec![7, 8] };
    let desc = |i: u64| TransferDesc { local: i, remote: i * 2, len: 16, region: &region };
    let descs: Vec<TransferDesc<'_>> = (1..4).map(desc).collect();
    let work = engine.batch_transfer_async("peer", &descs).unwrap();
    let op = |i: u64| PlannedOp { local: i, remote: i * 2, len: 16, remote_rkey: 8 };
    // All on the NIC of their node, dealt to its two queue pairs in turn.
    assert_eq!(work.len(), 1);
    assert_eq!((work[0].nic, work[0].bytes, work[0].parts.len()), (1, 48, 2));
    assert_eq!(work[0].parts[0].pair, 0);
    assert_eq!(work[0].parts[0].ops, vec![op(1), op(3)]);
    assert_eq!(work[0].parts[1].pair, 1);
    assert_eq!(work[0].parts[1].ops, vec![op(2)]);
    // The next batch starts at the other queue pair.
    let work = engine.batch_transfer_async("peer", &descs[..1]).unwrap();
    assert_eq!((work.len(), work[0].nic, work[0].parts.len()), (1, 1, 1));
    assert_eq!(work[0].parts[0].pair, 1);
    // One entry per NIC, with its bytes.
    let work = engine.batch_transfer_async("peer", &[desc(1), desc(0x1000), desc(3)]).unwrap();
    let bytes: Vec<(usize, u128)> = work.iter().map(|w| (w.nic, w.bytes)).collect();
    assert_eq!(bytes, vec![(0, 16), (1, 32)]);
    // Nothing to send is nothing to do, connected or not.
    assert!(engine.batch_transfer_async("nobody", &[]).unwrap().is_empty());
}

#[test]
fn batches_are_refused_as_a_whole() {
    let mut engine = engine(1);
    connect(&mut engine, "peer", 1, 100);
    register(&mut engine, 0x100, 0x100, 0);
    register(&mut engine, 0x200, 0x100, 1);
    let region = RegionDescriptor { addr: 0x1000, len: 0x100, rkeys: vec![7] };
    let desc = |local, remote, len| TransferDesc { local, remote, len, region: &region };
    let mut refusal = |addr: &str, d: TransferDesc<'_>| {
        text(engine.batch_transfer_async(addr, &[d]).err().unwrap())
    };
    assert_eq!(
        refusal("nobody", desc(0x100, 0x1000, 1)),
        "backend: no connection for remote addr nobody"
    );
    assert_eq!(refusal("peer", desc(0x100, 0x1000, 0)), "invalid: len must be non-zero");
    assert_eq!(refusal("peer", desc(1, 0x1000, 1)), "not registered: 0x1");
    assert_eq!(
        refusal("peer", desc(0x100, 0x10f0, 0x11)),
        "invalid: remote range not covered by its region descriptor"
    );
    assert_eq!(
        refusal("peer", desc(0x200, 0x1000, 1)),
        "invalid: region descriptor has no rkey for paired NIC"
    );
}

#[test]
fn registered_memory_is_found_by_range() {
    let mut table = Registrations::new();
    let one = Registration { base: 0x1000, len: 0x100, numa: NumaNode(0) };
    let two = Registration { base: 0x2000, len: 0x100, numa: NumaNode(1) };
    let top = Registration { base: u64::MAX - 0xf, len: 0x10, numa: NumaNode(2) };
    for e in [one, two, top] {
        table.insert(e).unwrap();
    }
    assert_eq!(table.find_entry(0x1000, 0x100), Some(one));
    assert_eq!(table.find_entry(0x20ff, 1), Some(two));
    assert_eq!(table.find_entry(0x20ff, 2), None);
    assert_eq!(table.find_entry(0xfff, 1), None);
    assert_eq!(table.find_entry(u64::MAX, 1), Some(top));
    assert_eq!(table.find_entry(u64::MAX, 2), None);
    let region = RegionDescriptor { addr: 0, len: 1, rkeys: vec![] };
    let desc = |local| TransferDesc { local, remote: 0, len: 1, region: &region };
    assert_eq!(
        table.find_nodes(&[desc(0x2000), desc(0x3000)]),
        vec![Some(NumaNode(1)), None]
    );
    // A removed range is found no more, and the others are.
    assert_eq!(text(table.insert(two).unwrap_err()), "invalid: memory is already registered");
    assert!(table.remove(0x2000));
    assert!(!table.remove(0x2000));
    assert_eq!(table.find_entry(0x20ff, 1), None);
    assert_eq!(table.find_entry(0x1000, 1), Some(one));
    assert_eq!(table.find_entry(u64::MAX, 1), Some(top));
}

#[test]
fn nics_report_their_bytes_or_their_first_failure() {
    let wait = |t: Tally| match t {
        Tally::Waiting(t) => t,
        Tally::Done(_) => panic!("done"),
    };
    let done = |t: Tally| match t {
        Tally::Waiting(_) => panic!("waiting"),
        Tally::Done(total) => total,
    };
    assert_eq!(done(NicTally::new(1).report(Ok(7))).ok(), Some(7));
    let t = wait(wait(NicTally::new(3).report(Ok(usize::MAX))).report(Ok(1)));
    assert_eq!(done(t.report(Ok(2))).ok(), Some(usize::MAX as u128 + 3));
    let failed = |what: &str| Err(TransferError::Backend(what.to_string()));
    let t = wait(wait(NicTally::new(3).report(Ok(1))).report(failed("first")));
    assert_eq!(text(done(t.report(failed("second"))).err().unwrap()), "backend: first");
    let t = wait(NicTally::new(2).report(failed("only")));
    assert_eq!(text(done(t.report(Ok(5))).err().unwrap()), "backend: only");
}

// ---- ports ----

fn gid(first: u8, second: u8) -> [u8; 16] {
    let mut g = [0; 16];
    g[0] = first;
    g[1] = second;
    g[15] = 1;
    g
}

fn entry(port_num: u32, gid_index: u32, gid_type: GidType, gid: [u8; 16]) -> GidEntry {
    GidEntry { port_num, gid_index, gid_type, gid }
}

fn port(active: bool, link_layer: LinkLayer, lid: u16) -> Result<PortAttr, String> {
    Ok(PortAttr { active, link_layer, lid, mtu: Mtu::Mtu4096 })
}

#[test]
fn the_first_active_port_decides() {
    let entries = vec![
        entry(2, 0, GidType::RoceV1, gid(0xfe, 0x80)),
        entry(2, 1, GidType::RoceV2, gid(0xfe, 0x80)),
        entry(1, 2, GidType::RoceV2, gid(0, 0)),
        entry(2, 3, GidType::RoceV2, gid(0, 0)),
    ];
    let ports =
        vec![port(false, LinkLayer::Ethernet, 0), port(true, LinkLayer::Ethernet, 9)];
    let choice = choose_port_and_gid("mlx5_0", &ports, &entries).unwrap();
    assert_eq!((choice.port_num, choice.lid, choice.entry), (2, 0, Some(3)));
    assert_eq!(choice.link_layer, LinkLayer::Ethernet);
    assert_eq!(choice.mtu, Mtu::Mtu4096);
    let unused = Err("unused".to_string());
    assert_eq!(chosen_gid(&choice, &entries, unused).unwrap(), (3, gid(0, 0)));
}

#[test]
fn ports_are_refused_in_order() {
    let refusal = |ports| text(choose_port_and_gid("mlx5_0", &ports, &vec![]).unwrap_err());
    assert_eq!(refusal(vec![]), "backend: no active port found on selected NIC");
    assert_eq!(
        refusal(vec![port(true, LinkLayer::InfiniBand, 0)]),
        "backend: invalid zero LID for InfiniBand nic=mlx5_0, port=1"
    );
    assert_eq!(
        refusal(vec![port(false, LinkLayer::Ethernet, 0), port(true, LinkLayer::Unspecified, 0)]),
        "backend: unsupported link layer on nic=mlx5_0, port=2: Unspecified"
    );
    assert_eq!(refusal(vec![Err("gone".to_string())]), "backend: gone");
    let choice =
        choose_port_and_gid("x", &vec![port(true, LinkLayer::InfiniBand, 4)], &vec![]).unwrap();
    assert_eq!((choice.lid, choice.entry), (4, None));
    assert_eq!(chosen_gid(&choice, &vec![], Ok(gid(1, 2))).unwrap(), (0, gid(1, 2)));
    let e = chosen_gid(&choice, &vec![], Err("no gid".to_string())).unwrap_err();
    assert_eq!(text(e), "backend: no gid");
}

#[test]
fn gids_are_picked_by_rank() {
    let ib = entry(1, 0, GidType::InfiniBand, gid(0xfe, 0x80));
    let v1 = entry(1, 1, GidType::RoceV1, gid(0, 0));
    let v2 = entry(1, 2, GidType::RoceV2, gid(0, 0));
    let zero = entry(1, 3, GidType::RoceV2, [0; 16]);
    assert!(zero.is_zero() && !v2.is_zero());
    assert!(ib.is_unicast_link_local() && !v2.is_unicast_link_local());
    assert_eq!(pick_gid(&vec![v1, ib, zero, v2], 1), Some(3));
    assert_eq!(pick_gid(&vec![v1, ib, zero], 1), Some(1));
    assert_eq!(pick_gid(&vec![zero, v1], 1), Some(1));
    assert_eq!(pick_gid(&vec![zero], 1), None);
    assert_eq!(pick_gid(&vec![v2], 2), None);
}

#[test]
fn what_a_refused_peer_sent_is_looked_at_first() {
    let mut engine = engine(1);
    // Local metadata of another engine is not looked at.
    let foreign = meta(1, 5, 9);
    assert!(!engine.accepts(&meta(0, 1, 1)));
    let e = engine.complete_handshake("p", &foreign, &meta(0, 1, 1)).unwrap_err();
    assert_eq!(text(e), "invalid: remote NIC count mismatch in handshake");
    assert!(!engine.accepts(&meta(0, 2, 2)));
    let e = engine.complete_handshake("p", &foreign, &meta(0, 2, 2)).unwrap_err();
    assert_eq!(text(e), "backend: remote qps_per_peer mismatch on nic=0: local=1, remote=2");
    assert!(engine.accepts(&meta(0, 2, 1)));
    let e = engine.complete_handshake("p", &meta(1, 2, 9), &meta(0, 2, 1)).unwrap_err();
    assert_eq!(text(e), "backend: no pending session to complete");
    let e = engine.connected("p", &foreign, Err(TransferError::Backend("x".to_string())));
    assert_eq!(text(e.unwrap_err()), "backend: x");
}

#[test]
fn queue_pairs_wait_until_they_are_taken() {
    let mut engine = engine(1);
    assert!(engine.get_or_prepare("p").is_none());
    let local = meta(5, 2, 1);
    engine.prepared("p", Ok(local.nics.clone())).unwrap();
    assert!(engine.is_pending(0, 5) && engine.is_pending(1, 15));
    assert!(!engine.is_pending(0, 15) && !engine.is_pending(2, 5));
    // The first is taken, the second is not found.
    let mut wrong = meta(5, 2, 1);
    wrong.nics[1].endpoints[0].qp_num = 99;
    let e = engine.complete_handshake("p", &wrong, &meta(0, 2, 1)).unwrap_err();
    assert_eq!(text(e), "backend: no pending session to complete");
    assert!(!engine.is_pending(0, 5) && engine.is_pending(1, 15));
}

#[test]
fn only_nics_with_work_need_queue_pairs() {
    let mut engine = engine(1);
    assert!(engine.get_or_prepare("p").is_none());
    let mut local = meta(5, 2, 1);
    local.nics[1].endpoints.clear();
    engine.prepared("p", Ok(local.nics.clone())).unwrap();
    assert!(engine.complete_handshake("p", &local, &meta(0, 2, 1)).is_ok());
    engine.connected("p", &local, Ok(())).unwrap();
    assert_eq!((engine.num_qps(), engine.count_qps()), (1, Some(1)));
    let region = RegionDescriptor { addr: 0, len: 1 << 20, rkeys: vec![7, 8] };
    let desc = |local| TransferDesc { local, remote: 2, len: 16, region: &region };
    register(&mut engine, 0x100, 0x100, 0);
    register(&mut engine, 0x200, 0x100, 1);
    let work = engine.batch_transfer_async("p", &[desc(0x100)]).unwrap();
    assert_eq!((work.len(), work[0].nic, work[0].bytes), (1, 0, 16));
    assert!(engine.batch_if_carried("p", &[desc(0x200)]).unwrap().is_none());
    // A batch that is refused needs none.
    let e = engine.batch_transfer_async("p", &[desc(1)]).err().unwrap();
    assert_eq!(text(e), "not registered: 0x1");
    let none = engine.batch_if_carried("p", &[]).unwrap().unwrap();
    assert!(none.is_empty());
}
