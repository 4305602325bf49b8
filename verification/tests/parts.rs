//! Types, errors, operations, memory pools, copies and topology, one by one.
use std::collections::HashMap;

use pegastore::copy::{iov_segs, pick_engine, zip_copy, Engine, Piece, Seg};
use pegastore::error::{Error, ErrorKind, ErrorStatus};
use pegastore::index::Index;
use pegastore::ops::{validate_iovs, OpGet, OpPublish, OpPut, PutSlot, RpPut};
use pegastore::pinned::{pool_len, touch_ranges, PinnedBuf, PinnedPool, ALIGN};
use pegastore::region::{gather, scatter, HostMemory, MemoryRegion, RegionIds};
use pegastore::sorted::sort_dedup;
use pegastore::text::chars_of;
use pegastore::topology::{normalize_domain, parse_cpulist, pci_numa, GpuFiles, Topology};
use pegastore::types::{
    Capability, Device, Key, Location, NodeId, ObjectInfo, Placement, Replica, Retention, SlotIdx,
    SlotInfo, SlotSpec, Tier,
};

const CPU0: Device = Device::Cpu { numa: 0 };
const CPU1: Device = Device::Cpu { numa: 1 };
const GPU0: Device = Device::Gpu { index: 0 };
const GPU1: Device = Device::Gpu { index: 1 };

// ---- types ----

#[test]
fn keys_render_as_text_or_hex() {
    assert_eq!(Key::from("a/b").debug_text(), "Key(\"a/b\")");
    assert_eq!(Key::from("q\"\\").debug_text(), "Key(\"q\\\"\\\\\")");
    assert_eq!(Key::from(vec![0xff, 0x0a]).debug_text(), "Key(0xff0a)");
    assert_eq!(Key::from("\n").debug_text(), "Key(0x0a)");
    assert_eq!(Key::from("abc").as_bytes(), b"abc");
    assert!(Key::from("m1/x").starts_with(b"m1/"));
    assert!(!Key::from("m10/x").starts_with(b"m1/"));
    assert!(Key::from("x").starts_with(b""));
    let key = Key::from(String::from("shared"));
    assert!(key.clone().same(&key));
    assert!(!Key::from(&b"other"[..]).same(&key));
    assert!(Key::new(vec![1, 2]).same(&Key::from(bytes::Bytes::from(vec![1, 2]))));
}

#[test]
fn devices_render_and_classify() {
    assert_eq!(Device::cpu(3).to_string(), "cpu:3");
    assert_eq!(Device::gpu(12).to_string(), "gpu:12");
    assert!(GPU0.is_gpu() && !CPU0.is_gpu());
    assert!(Tier::External != Tier::Dram);
}

#[test]
fn residency_is_per_slot() {
    let replica = Replica {
        location: Location { node: NodeId(0), device: CPU0, tier: Tier::Dram },
        misplaced: false,
    };
    let info = |resident: [bool; 3]| ObjectInfo {
        retention: Retention::Cache,
        slots: resident
            .iter()
            .map(|&r| SlotInfo { len: 1, replicas: if r { vec![replica] } else { vec![] } })
            .collect(),
    };
    assert_eq!(info([true, false, true]).resident_slots(), vec![SlotIdx(0), SlotIdx(2)]);
    assert!(!info([true, false, true]).is_fully_resident());
    assert!(info([true; 3]).is_fully_resident());
    assert!(info([false; 3]).resident_slots().is_empty());
}

#[test]
fn capabilities_are_all_or_none() {
    let (all, none) = (Capability::all(), Capability::none());
    assert!(all.publish && all.remove_prefix && all.gpu_memory && all.placement_each);
    assert!(!none.publish && !none.remove_prefix && !none.gpu_memory && !none.placement_each);
    assert_eq!(all.max_iov, None);
}

// ---- errors ----

#[test]
fn errors_know_their_status() {
    for kind in [ErrorKind::NoSpace, ErrorKind::Unavailable] {
        assert_eq!(kind.default_status(), ErrorStatus::Temporary);
        assert!(Error::new(kind, "x").is_temporary());
    }
    for kind in [
        ErrorKind::NotFound,
        ErrorKind::Evicted,
        ErrorKind::AlreadyExists,
        ErrorKind::SpecMismatch,
        ErrorKind::Unsupported,
        ErrorKind::InvalidInput,
        ErrorKind::Unexpected,
    ] {
        assert_eq!(kind.default_status(), ErrorStatus::Permanent);
        assert!(!Error::new(kind, "x").is_temporary());
    }
    assert!(Error::new(ErrorKind::NotFound, "x").set_temporary().is_temporary());
    assert!(!Error::new(ErrorKind::NoSpace, "x").set_permanent().is_temporary());
}

#[test]
fn errors_render_in_one_line() {
    let e = Error::new(ErrorKind::NoSpace, "pool full");
    assert_eq!(e.to_string(), "NoSpace (temporary) => pool full");
    let e = Error::new(ErrorKind::NotFound, "no such key")
        .with_operation("get")
        .with_context("key", "\"k\"".to_string())
        .with_context("slot", "1".to_string());
    assert_eq!(e.operation(), Some("get"));
    assert_eq!(e.kind().as_str(), "NotFound");
    assert_eq!(e.message(), "no such key");
    assert_eq!(e.context().len(), 2);
    assert_eq!(
        e.to_string(),
        "NotFound at get => no such key {key: \"k\", slot: 1}"
    );
    let e = Error::new(ErrorKind::Unexpected, "copy").set_source("cuda: 700".to_string());
    assert_eq!(e.source(), Some("cuda: 700"));
    assert_eq!(Error::new(ErrorKind::Unexpected, "copy").source(), None);
    assert_eq!(e.to_string(), "Unexpected => copy: cuda: 700");
}

#[test]
fn the_innermost_operation_is_kept() {
    let e = Error::new(ErrorKind::Evicted, "gone").with_operation("get").with_operation("stat");
    assert_eq!(e.operation(), Some("get"));
    assert!(e.context().is_empty());
    assert_eq!(Error::new(ErrorKind::Evicted, "").to_string(), "Evicted");
}

// ---- regions and operations ----

#[test]
fn region_ids_are_fresh() {
    let mut ids = RegionIds::new();
    let a = MemoryRegion::new(&mut ids, 0x1000, 64, CPU0);
    let b = MemoryRegion::new(&mut ids, 0x1000, 64, CPU0);
    assert!(a.id() != b.id());
    assert_eq!((a.as_ptr(), a.len(), a.device(), a.is_empty()), (0x1000, 64, CPU0, false));
    let iov = a.iov(16, 8);
    assert_eq!((iov.as_ptr(), iov.end(), iov.device()), (0x1010, 24, CPU0));
    assert!(iov.in_bounds());
    assert!(!a.iov(60, 8).in_bounds());
    assert!(!a.iov(u64::MAX, 8).in_bounds());
    assert_eq!(a.iov_all().len, 64);
}

#[test]
fn iovs_are_checked_in_order() {
    let mut ids = RegionIds::new();
    let a = MemoryRegion::new(&mut ids, 0x1000, 64, CPU0);
    let b = MemoryRegion::new(&mut ids, 0x2000, 64, CPU1);
    let message = |r: Result<(Device, u64), Error>| r.unwrap_err().message().to_string();
    assert_eq!(message(validate_iovs(&[], None)), "empty iov list");
    assert_eq!(message(validate_iovs(&[a.iov(1, 64)], None)), "iov out of region bounds");
    assert_eq!(
        message(validate_iovs(&[a.iov(0, 1), b.iov(0, 1)], None)),
        "iov list spans multiple devices"
    );
    assert_eq!(
        message(validate_iovs(&[a.iov(0, 8)], Some(9))),
        "iov total length mismatch"
    );
    let huge = MemoryRegion::with_id(9, 0, u64::MAX, CPU0);
    assert_eq!(
        message(validate_iovs(&[huge.iov_all(), huge.iov_all()], None)),
        "iov total length overflows"
    );
    assert_eq!(validate_iovs(&[a.iov(0, 8), a.iov(40, 2)], Some(10)).unwrap(), (CPU0, 10));
}

#[test]
fn operations_validate_what_they_carry() {
    let mut ids = RegionIds::new();
    let a = MemoryRegion::new(&mut ids, 0x1000, 64, GPU0);
    let iov = [a.iov_all()];
    let e = OpPut::new(vec![]).validate().unwrap_err();
    assert_eq!(e.message(), "object needs at least one slot");
    let op = OpPut::new(vec![PutSlot::new(SlotSpec::new(64, Placement::Anywhere), &iov)])
        .with_retention(Retention::Explicit);
    assert!(op.validate().is_ok());
    assert_eq!(op.spec().retention, Retention::Explicit);
    assert_eq!(op.spec().slots[0].len, 64);
    assert_eq!(OpGet::new(SlotIdx(0), &iov).with_src_offset(3).validate().unwrap(), (GPU0, 64));
    assert_eq!(OpPublish::new(SlotIdx(0), &iov).validate().unwrap(), (GPU0, 64));
}

#[test]
fn replies_give_their_first_error() {
    let rp = RpPut {
        slots: vec![
            Ok(()),
            Err(Error::new(ErrorKind::NoSpace, "first")),
            Err(Error::new(ErrorKind::AlreadyExists, "second")),
        ],
    };
    assert!(!rp.all_ok());
    assert_eq!(rp.into_result().unwrap_err().message(), "first");
    assert!(RpPut { slots: vec![Ok(())] }.into_result().is_ok());
}

#[test]
fn gathering_and_scattering_are_inverse() {
    let mut mem = HostMemory::new();
    mem.write(0x100, b"hello ");
    mem.write(0x200, b"world");
    let mut ids = RegionIds::new();
    let a = MemoryRegion::new(&mut ids, 0x100, 6, CPU0);
    let b = MemoryRegion::new(&mut ids, 0x200, 5, CPU0);
    assert_eq!(gather(&mem, &[b.iov_all(), a.iov(0, 2)]), b"worldhe");
    scatter(&mut mem, b"HELLO", &[a.iov(0, 2), b.iov(1, 3)]);
    assert_eq!(mem.read(0x100, 6), b"HEllo ");
    assert_eq!(mem.read(0x200, 5), b"wLLOd");
}

// ---- the index ----

#[test]
fn index_keeps_keys_in_order() {
    let mut index: Index<u32> = Index::new();
    for (k, v) in [("b", 2), ("a/2", 12), ("a", 1), ("a/1", 11), ("a0", 5)] {
        index.insert(Key::from(k), v);
    }
    let keys: Vec<&[u8]> = (0..index.len()).map(|i| index.key_at(i).as_bytes()).collect();
    assert_eq!(keys, vec![&b"a"[..], b"a/1", b"a/2", b"a0", b"b"]);
    assert_eq!(index.prefix_range(b"a/"), (1, 2));
    assert_eq!(index.prefix_range(b""), (0, 5));
    let at = index.find(&Key::from("a/2")).unwrap();
    assert_eq!(*index.at(at), 12);
    *index.at_mut(at) = 13;
    assert_eq!(index.remove_at(at), 13);
    assert!(index.find(&Key::from("a/2")).is_none());
}

// ---- pinned pools ----

#[test]
fn pinned_pools_align_and_coalesce() {
    assert_eq!(ALIGN, 2 << 20);
    assert_eq!(pool_len(1), Some(ALIGN));
    assert_eq!(pool_len(usize::MAX), None);
    let mut pool = PinnedPool::new(1, 0x1000_0000, 7 * ALIGN + 1);
    assert_eq!((pool.numa(), pool.capacity(), pool.free_bytes()), (1, 8 * ALIGN, 8 * ALIGN));
    let a = pool.allocate(100).unwrap();
    let b = pool.allocate(ALIGN + 1).unwrap();
    assert_eq!((a.as_ptr(), a.len(), a.numa(), a.is_empty()), (0x1000_0000, 100, 1, false));
    assert_eq!((a.off, a.reserved), (0, ALIGN));
    assert_eq!((b.off, b.reserved, b.len()), (ALIGN, 2 * ALIGN, ALIGN + 1));
    assert_eq!(pool.free_bytes(), 5 * ALIGN);
    assert!(pool.allocate(5 * ALIGN + 1).is_none());
    let c = pool.allocate(5 * ALIGN).unwrap();
    assert_eq!(pool.free_bytes(), 0);
    assert!(pool.allocate(1).is_none());
    // Freed out of order, the stretches join again.
    pool.release(a.off, a.reserved);
    pool.release(c.off, c.reserved);
    assert_eq!(pool.largest_free(), 5 * ALIGN);
    pool.release(b.off, b.reserved);
    assert_eq!((pool.free_bytes(), pool.largest_free()), (8 * ALIGN, 8 * ALIGN));
    assert_eq!(pool.allocate(8 * ALIGN).unwrap().off, 0);
    // Whatever is asked for, an allocation starts and ends at a multiple.
    let mut pool = PinnedPool::new(0, 0x4000_0000, 8 * ALIGN);
    for bytes in [1, ALIGN - 1, ALIGN, ALIGN + 1] {
        let buf = pool.allocate(bytes).unwrap();
        assert_eq!((buf.off % ALIGN, buf.reserved % ALIGN), (0, 0));
        assert!(buf.reserved >= bytes);
    }
}

#[test]
fn free_and_allocated_bytes_add_up() {
    let mut pool = PinnedPool::new(0, 0x4000_0000, 16 * ALIGN);
    let mut live: Vec<PinnedBuf> = Vec::new();
    for round in 0..40usize {
        if round % 3 == 2 && !live.is_empty() {
            let buf = live.remove(round % live.len());
            pool.release(buf.off, buf.reserved);
        } else if let Some(buf) = pool.allocate(1 + (round * 700_001) % (3 * ALIGN)) {
            live.push(buf);
        }
        let held: usize = live.iter().map(|b| b.reserved).sum();
        assert_eq!(pool.free_bytes() + held, pool.capacity());
        for (i, a) in live.iter().enumerate() {
            for b in &live[i + 1..] {
                assert!(a.off + a.reserved <= b.off || b.off + b.reserved <= a.off);
            }
        }
    }
}

#[test]
fn pages_are_touched_once() {
    for (cpus, len) in [(None, 4096 * 5), (Some(4), 4096 * 10), (Some(64), 4096 * 3)] {
        let ranges = touch_ranges(cpus, len);
        let mut at = 0;
        for (from, to) in ranges {
            assert_eq!(from, at);
            assert!(to > from);
            at = to;
        }
        assert_eq!(at, len);
    }
}

// ---- copies ----

#[test]
fn copies_zip_two_lists() {
    let src = [Seg { addr: 100, len: 10 }, Seg { addr: 200, len: 10 }];
    let dst = [Seg { addr: 1000, len: 4 }, Seg { addr: 2000, len: 8 }];
    let (pieces, r) = zip_copy(&src, 5, &dst, 12);
    assert!(r.is_ok());
    assert_eq!(
        pieces,
        vec![
            Piece { src: 105, dst: 1000, len: 4 },
            Piece { src: 109, dst: 2000, len: 1 },
            Piece { src: 200, dst: 2001, len: 7 },
        ]
    );
    let (_, r) = zip_copy(&src, 15, &dst, 12);
    assert_eq!(r.unwrap_err().message(), "copy ran past a segment list");
    let region = MemoryRegion::with_id(1, 0x500, 64, CPU0);
    assert_eq!(
        iov_segs(&[region.iov(4, 8), region.iov(32, 1)]),
        vec![Seg { addr: 0x504, len: 8 }, Seg { addr: 0x520, len: 1 }]
    );
}

#[test]
fn engines_follow_the_devices() {
    let gpus = vec![0, 1];
    assert_eq!(pick_engine(&gpus, CPU0, CPU1).unwrap(), Engine::Host);
    assert_eq!(pick_engine(&gpus, CPU0, GPU1).unwrap(), Engine::HostToDevice { gpu: 1 });
    assert_eq!(pick_engine(&gpus, GPU0, CPU0).unwrap(), Engine::DeviceToHost { gpu: 0 });
    assert_eq!(pick_engine(&gpus, GPU0, GPU1).unwrap(), Engine::Peer { from: 0, to: 1 });
    let e = pick_engine(&gpus, CPU0, Device::gpu(7)).unwrap_err();
    assert_eq!(e.message(), "gpu not served");
}

// ---- topology ----

fn files(index: u16, plain: Option<&str>, short: Option<&str>) -> GpuFiles {
    GpuFiles {
        index,
        plain: plain.map(str::to_string),
        short: short.map(str::to_string),
    }
}

#[test]
fn topology_is_put_together_from_files() {
    let nodes = vec![
        ("node1".to_string(), "4-5,7\n".to_string()),
        ("node0".to_string(), "0-3\n".to_string()),
        ("node2".to_string(), "\n".to_string()),
        ("power".to_string(), "1".to_string()),
    ];
    let gpus =
        vec![files(0, Some("1\n"), None), files(1, Some("-1\n"), Some("0\n")), files(2, None, None)];
    let topo = Topology::detect(&nodes, 8, &gpus);
    assert_eq!(topo.numa_nodes, vec![0, 1]);
    assert_eq!(topo.cpus_by_numa[&1], vec![4, 5, 7]);
    assert_eq!(topo.numa_of_gpu(0), Some(1));
    assert_eq!(topo.numa_of_gpu(2), None);
    assert_eq!(topo.distance(GPU0, GPU0), 0);
    assert_eq!(topo.distance(GPU0, CPU1), topo.distance(CPU1, GPU0));
    assert!(topo.distance(GPU0, CPU1) < topo.distance(GPU0, CPU0));
    assert!(topo.distance(CPU0, CPU0) < topo.distance(CPU0, CPU1));
    let alone = Topology::detect(&vec![], 2, &vec![]);
    assert_eq!(alone.numa_nodes, vec![0]);
    assert_eq!(alone.cpus_by_numa, HashMap::from([(0, vec![0, 1])]));
}

#[test]
fn topology_helpers() {
    let cpus = |s: &str| parse_cpulist(&chars_of(s));
    assert_eq!(cpus("0-2,8,x,5-4"), vec![0, 1, 2, 8]);
    assert_eq!(normalize_domain("00000000:19:00.0"), "0000:19:00.0");
    assert_eq!(normalize_domain("19"), "19");
    assert_eq!(pci_numa(&files(0, Some("3\n"), None)), Some(3));
    assert_eq!(pci_numa(&files(0, None, Some("2"))), Some(2));
    assert_eq!(pci_numa(&files(0, None, None)), None);
    assert_eq!(sort_dedup(&vec![3, 1, 3, 2]), vec![1, 2, 3]);
}

#[test]
fn topology_describes_itself() {
    let topo = Topology {
        numa_nodes: vec![0, 1],
        cpus_by_numa: HashMap::new(),
        gpu_numa: HashMap::from([(1, 0), (0, 1)]),
    };
    assert_eq!(topo.describe(), "numa nodes: [0, 1]; gpu0→numa1; gpu1→numa0");
}
