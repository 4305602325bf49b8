//! The single-node backend, its copies carried out on host memory.
use std::collections::HashMap;

use pegastore::copy::{iov_segs, zip_copy, Engine, Piece, Seg};
use pegastore::error::{Error, ErrorKind};
use pegastore::local::backend::{check_numa, Hold, Local, ReadPlan, Step, Target};
use pegastore::ops::{OpGet, OpPublish, OpPut, PutSlot, RpPut};
use pegastore::region::{HostMemory, MemoryRegion, RegionIds};
use pegastore::services::memory::Memory;
use pegastore::topology::Topology;
use pegastore::types::{Device, Key, NodeId, Placement, Retention, SlotIdx, SlotSpec, Tier};

const CPU0: Device = Device::Cpu { numa: 0 };
const CPU1: Device = Device::Cpu { numa: 1 };
const GPU0: Device = Device::Gpu { index: 0 };

const BASE0: u64 = 0x1000_0000;
const BASE1: u64 = 0x2000_0000;

/// What an allocation takes at least.
const UNIT: usize = 2 << 20;

fn topology() -> Topology {
    Topology {
        numa_nodes: vec![0, 1],
        cpus_by_numa: HashMap::from([(0, vec![0]), (1, vec![1])]),
        gpu_numa: HashMap::from([(0, 1)]),
    }
}

struct Host {
    mem: HostMemory,
    ids: RegionIds,
    local: Local,
    next: u64,
    /// Whether copies are carried out.
    moves: bool,
}

impl Host {
    /// A backend with a pool of some units on each of two nodes, and one GPU.
    fn new(units: usize) -> Self {
        let local = Local::builder()
            .node(NodeId(7))
            .dram(0, units * UNIT)
            .dram(1, units * UNIT)
            .build(topology(), vec![0], vec![BASE0, BASE1])
            .ok()
            .unwrap();
        Host { mem: HostMemory::new(), ids: RegionIds::new(), local, next: 0x1000, moves: true }
    }

    /// Memory that is never looked at.
    fn unread(&mut self, device: Device, len: usize) -> MemoryRegion {
        self.moves = false;
        self.local.register(&mut self.ids, 0x7000_0000, len as u64, device).unwrap()
    }

    fn buffer(&mut self, device: Device, bytes: &[u8]) -> MemoryRegion {
        let addr = self.next;
        self.next += bytes.len() as u64 + 64;
        self.mem.write(addr, bytes);
        self.local.register(&mut self.ids, addr, bytes.len() as u64, device).unwrap()
    }

    fn carry_out(&mut self, pieces: &[Piece]) {
        if !self.moves {
            return;
        }
        for p in pieces {
            let bytes = self.mem.read(p.src, p.len);
            self.mem.write(p.dst, &bytes);
        }
    }

    fn put(&mut self, key: &str, op: OpPut<'_>) -> Result<RpPut, Error> {
        let run = self.local.begin_put(Key::from(key), &op)?;
        loop {
            match self.local.advance(run) {
                Step::Copy { slot, targets } => {
                    let src = iov_segs(op.slots[slot].src);
                    for t in targets {
                        let dst = [Seg { addr: t.addr, len: t.len }];
                        let (pieces, r) = zip_copy(&src, 0, &dst, t.len);
                        r.unwrap();
                        self.carry_out(&pieces);
                    }
                    assert!(self.local.copied(run, Ok(())));
                }
                Step::Done => return Ok(self.local.end_put(run).unwrap()),
            }
        }
    }

    fn get(&mut self, key: &str, op: OpGet<'_>) -> Result<ReadPlan, Error> {
        let plan = self.local.begin_get(Key::from(key), &op)?;
        self.carry_out(&plan.pieces);
        assert!(self.local.finish_read(plan.hold));
        Ok(plan)
    }

    fn free(&self, numa: u16) -> usize {
        self.local.pool_stats()[numa as usize].2
    }
}

fn bytes(n: usize, seed: u8) -> Vec<u8> {
    (0..n).map(|i| (i as u8).wrapping_mul(7).wrapping_add(seed)).collect()
}

fn slot<'a>(len: u64, placement: Placement, iov: &'a [pegastore::region::Iov<'a>]) -> PutSlot<'a> {
    PutSlot::new(SlotSpec::new(len, placement), iov)
}

#[test]
fn local_reads_what_was_written() {
    let mut host = Host::new(2);
    let data = bytes(1000, 3);
    let src = host.buffer(CPU0, &data);
    let iov = [src.iov(0, 400), src.iov(400, 600)];
    let rp = host
        .put("k", OpPut::new(vec![slot(1000, Placement::Strict(CPU1), &iov)]))
        .unwrap();
    assert!(rp.all_ok());
    // The bytes are in the pool of node 1.
    assert_eq!(host.mem.read(BASE1, 1000), data);
    let dst = host.buffer(GPU0, &[0; 300]);
    let plan = host
        .get("k", OpGet::new(SlotIdx(0), &[dst.iov(100, 200), dst.iov(0, 100)]).with_src_offset(50))
        .unwrap();
    assert_eq!(plan.from.node, NodeId(7));
    assert_eq!(plan.from.device, CPU1);
    assert_eq!(plan.from.tier, Tier::Dram);
    assert_eq!(plan.engine, Engine::HostToDevice { gpu: 0 });
    let mut want = data[250..350].to_vec();
    want.extend_from_slice(&data[50..250]);
    assert_eq!(host.mem.read(dst.as_ptr(), 300), want);
    let info = host.local.stat(&[Key::from("k"), Key::from("none")]);
    assert!(info[0].as_ref().unwrap().is_fully_resident());
    assert!(info[1].is_none());
}

#[test]
fn local_slots_are_write_once() {
    let mut host = Host::new(2);
    let src = host.buffer(CPU0, &[1; 64]);
    let iov = [src.iov_all()];
    assert!(host.put("k", OpPut::new(vec![slot(64, Placement::Anywhere, &iov)])).unwrap().all_ok());
    let rp = host.put("k", OpPut::new(vec![slot(64, Placement::Anywhere, &iov)])).unwrap();
    assert_eq!(rp.slots[0].as_ref().unwrap_err().kind(), ErrorKind::AlreadyExists);
    let e = host.put("k", OpPut::new(vec![slot(64, Placement::Strict(CPU0), &iov)])).unwrap_err();
    assert_eq!(e.kind(), ErrorKind::SpecMismatch);
}

#[test]
fn local_claims_are_exclusive() {
    let mut host = Host::new(2);
    let src = host.buffer(CPU0, &[1; 64]);
    let iov = [src.iov_all()];
    let op = OpPut::new(vec![slot(64, Placement::Strict(CPU0), &iov)]);
    let first = host.local.begin_put(Key::from("k"), &op).unwrap();
    assert!(matches!(host.local.advance(first), Step::Copy { slot: 0, .. }));
    // A second writer finds the slot claimed.
    let rp = host.put("k", OpPut::new(vec![slot(64, Placement::Strict(CPU0), &iov)])).unwrap();
    assert_eq!(rp.slots[0].as_ref().unwrap_err().kind(), ErrorKind::AlreadyExists);
    // A failed copy gives the claim and the memory back.
    let failed = Error::new(ErrorKind::Unexpected, "copy failed");
    assert!(host.local.copied(first, Err(failed)));
    assert!(!host.local.copied(first, Ok(())));
    assert!(matches!(host.local.advance(first), Step::Done));
    let rp = host.local.end_put(first).unwrap();
    assert_eq!(rp.slots[0].as_ref().unwrap_err().message(), "copy failed");
    assert!(host.local.end_put(first).is_none());
    assert_eq!(host.free(0), 2 * UNIT);
    assert!(host
        .put("k", OpPut::new(vec![slot(64, Placement::Strict(CPU0), &iov)]))
        .unwrap()
        .all_ok());
}

#[test]
fn local_objects_removed_while_written_stay_removed() {
    let mut host = Host::new(2);
    let src = host.buffer(CPU0, &[1; 64]);
    let iov = [src.iov_all()];
    let op = OpPut::new(vec![slot(64, Placement::Strict(CPU0), &iov)]);
    let run = host.local.begin_put(Key::from("k"), &op).unwrap();
    assert!(matches!(host.local.advance(run), Step::Copy { .. }));
    host.local.remove(&[Key::from("k")]);
    assert!(host.local.copied(run, Ok(())));
    let rp = host.local.end_put(run).unwrap();
    let e = rp.slots[0].as_ref().unwrap_err();
    assert_eq!((e.kind(), e.message()), (ErrorKind::NotFound, "object removed during put"));
    assert!(host.local.stat(&[Key::from("k")])[0].is_none());
    assert_eq!(host.free(0), 2 * UNIT);
}

#[test]
fn local_evicts_first_in_first_out_and_never_explicit() {
    let mut host = Host::new(2);
    let src = host.unread(CPU0, UNIT);
    let iov = [src.iov_all()];
    let mut put = |key: &str, retention| {
        host.put(
            key,
            OpPut::new(vec![slot(UNIT as u64, Placement::Strict(CPU0), &iov)]).with_retention(retention),
        )
        .unwrap()
    };
    assert!(put("a", Retention::Cache).all_ok());
    assert!(put("b", Retention::Explicit).all_ok());
    assert!(put("c", Retention::Cache).all_ok());
    assert!(put("d", Retention::Explicit).all_ok());
    // Only explicit objects are left.
    let rp = put("e", Retention::Cache);
    let e = rp.slots[0].as_ref().unwrap_err();
    assert_eq!(e.kind(), ErrorKind::NoSpace);
    assert!(e.is_temporary());
    let keys: Vec<Key> = ["a", "b", "c", "d"].map(Key::from).into_iter().collect();
    let there: Vec<bool> = host.local.stat(&keys).iter().map(|i| i.is_some()).collect();
    assert_eq!(there, vec![false, true, false, true]);
}

#[test]
fn local_reads_outlive_eviction() {
    let mut host = Host::new(2);
    let data = bytes(4096, 9);
    let src = host.buffer(CPU0, &data);
    let iov = [src.iov_all()];
    let full = host.free(0);
    host.put("a", OpPut::new(vec![slot(4096, Placement::Strict(CPU0), &iov)])).unwrap();
    let dst = host.buffer(CPU0, &[0; 4096]);
    let dst_iov = [dst.iov_all()];
    let plan = host.local.begin_get(Key::from("a"), &OpGet::new(SlotIdx(0), &dst_iov)).unwrap();
    // The object goes while it is read: its memory stays until the read ends.
    host.local.remove(&[Key::from("a")]);
    assert!(host.local.stat(&[Key::from("a")])[0].is_none());
    assert_eq!(host.free(0), full - UNIT);
    host.carry_out(&plan.pieces);
    assert_eq!(host.mem.read(dst.as_ptr(), 4096), data);
    assert!(host.local.finish_read(plan.hold));
    assert!(!host.local.finish_read(plan.hold));
    assert_eq!(host.free(0), full);
}

#[test]
fn local_places_as_asked() {
    let mut host = Host::new(2);
    let src = host.unread(CPU0, 2 * UNIT);
    let iov = [src.iov_all()];
    let half = [src.iov(0, UNIT as u64)];
    let each = Placement::Each(vec![CPU0, CPU1]);
    assert!(host.put("each", OpPut::new(vec![slot(UNIT as u64, each, &half)])).unwrap().all_ok());
    assert_eq!((host.free(0), host.free(1)), (UNIT, UNIT));
    let devices = |host: &Host, key: &str| -> Vec<(Device, bool)> {
        host.local.stat(&[Key::from(key)])[0].as_ref().unwrap().slots[0]
            .replicas
            .iter()
            .map(|r| (r.location.device, r.misplaced))
            .collect()
    };
    assert_eq!(devices(&host, "each"), vec![(CPU0, false), (CPU1, false)]);
    host.local.remove(&[Key::from("each")]);
    // The preferred pool is full of what cannot go: the next one takes it.
    host.put(
        "fill",
        OpPut::new(vec![slot(2 * UNIT as u64, Placement::Strict(CPU0), &iov)])
            .with_retention(Retention::Explicit),
    )
    .unwrap();
    assert!(host
        .put("spill", OpPut::new(vec![slot(2 * UNIT as u64, Placement::Prefer(CPU0), &iov)]))
        .unwrap()
        .all_ok());
    assert_eq!(devices(&host, "spill"), vec![(CPU1, true)]);
    let rp =
        host.put("gpu", OpPut::new(vec![slot(2 * UNIT as u64, Placement::Strict(GPU0), &iov)])).unwrap();
    assert_eq!(rp.slots[0].as_ref().unwrap_err().kind(), ErrorKind::InvalidInput);
}

#[test]
fn local_published_memory_serves_until_it_is_retired() {
    let mut host = Host::new(2);
    let data = bytes(128, 4);
    let src = host.buffer(CPU0, &data);
    let iov = [src.iov_all()];
    host.put("w", OpPut::new(vec![slot(128, Placement::Strict(CPU0), &iov)])).unwrap();
    let gpu = host.buffer(GPU0, &data);
    let gpu_iov = [gpu.iov_all()];
    host.local.publish(Key::from("w"), &OpPublish::new(SlotIdx(0), &gpu_iov)).unwrap();
    let out = host.buffer(GPU0, &[0; 128]);
    let out_iov = [out.iov_all()];
    let plan = host.get("w", OpGet::new(SlotIdx(0), &out_iov)).unwrap();
    assert_eq!(plan.from.tier, Tier::External);
    assert_eq!(plan.engine, Engine::Peer { from: 0, to: 0 });
    assert_eq!(plan.hold, Hold::Lent(0));
    assert_eq!(host.mem.read(out.as_ptr(), 128), data);
    host.local.retire_region(gpu.id());
    let plan = host.get("w", OpGet::new(SlotIdx(0), &out_iov)).unwrap();
    assert_eq!(plan.from.tier, Tier::Dram);
    let e = host.local.publish(Key::from("x"), &OpPublish::new(SlotIdx(0), &gpu_iov)).unwrap_err();
    assert_eq!(e.kind(), ErrorKind::NotFound);
    let e = host.local.publish(Key::from("w"), &OpPublish::new(SlotIdx(1), &gpu_iov)).unwrap_err();
    assert_eq!((e.kind(), e.message()), (ErrorKind::NotFound, "no such slot"));
    let short = [gpu.iov(0, 64)];
    let e = host.local.publish(Key::from("w"), &OpPublish::new(SlotIdx(0), &short)).unwrap_err();
    assert_eq!(e.kind(), ErrorKind::InvalidInput);
}

#[test]
fn local_reads_are_refused_like_any_other() {
    let mut host = Host::new(2);
    let src = host.buffer(CPU0, &[1; 64]);
    let iov = [src.iov_all()];
    host.put("k", OpPut::new(vec![slot(64, Placement::Strict(CPU0), &iov)])).unwrap();
    let kind = |host: &mut Host, key: &str, op: OpGet<'_>| host.get(key, op).err().unwrap().kind();
    assert_eq!(kind(&mut host, "no", OpGet::new(SlotIdx(0), &iov)), ErrorKind::NotFound);
    assert_eq!(kind(&mut host, "k", OpGet::new(SlotIdx(1), &iov)), ErrorKind::InvalidInput);
    assert_eq!(
        kind(&mut host, "k", OpGet::new(SlotIdx(0), &iov).with_src_offset(1)),
        ErrorKind::InvalidInput
    );
    assert_eq!(kind(&mut host, "k", OpGet::new(SlotIdx(0), &[])), ErrorKind::InvalidInput);
}

#[test]
fn local_prefixes_go_together() {
    let mut host = Host::new(4);
    let src = host.buffer(CPU0, &[1; 64]);
    let iov = [src.iov_all()];
    for k in ["m1/x", "m1/y", "m2/x", "m10/x"] {
        let rp = host.put(k, OpPut::new(vec![slot(64, Placement::Anywhere, &iov)])).unwrap();
        assert!(rp.all_ok(), "{rp:?}");
    }
    assert_eq!(host.local.remove_prefix(b"m1/"), 2);
    assert_eq!(host.local.remove_prefix(b"m1/"), 0);
    assert!(host.local.stat(&[Key::from("m10/x")])[0].is_some());
}

#[test]
fn local_builders_check_their_nodes() {
    assert!(check_numa(&topology(), 1).is_ok());
    assert_eq!(check_numa(&topology(), 5).unwrap_err().message(), "unknown NUMA node");
    let e = Local::builder().dram(5, 4096).build(topology(), vec![], vec![0]).err().unwrap();
    assert_eq!(e.kind(), ErrorKind::InvalidInput);
    let builder = Local::builder().dram(1, 4096).dram(0, 8192);
    assert_eq!(builder.reservations().to_vec(), vec![(1, 4096), (0, 8192)]);
    assert_eq!(builder.gpu_indices(2), vec![0, 1]);
    assert_eq!(Local::builder().gpus(vec![3]).gpu_indices(2), vec![3]);
    let local = builder.build(topology(), vec![0], vec![BASE0, BASE1]).ok().unwrap();
    assert_eq!(local.info().name, "local");
    assert_eq!(local.info().devices, vec![CPU0, CPU1, GPU0]);
    assert_eq!(local.topology().numa_nodes, vec![0, 1]);
    assert_eq!(local.pool_stats(), vec![(0, UNIT, UNIT), (1, UNIT, UNIT)]);
    let mut ids = RegionIds::new();
    let e = local.register(&mut ids, 0, 0, Device::gpu(9)).unwrap_err();
    assert_eq!(e.message(), "gpu not served");
}

#[test]
fn local_answers_as_memory_does() {
    let mut host = Host::new(2);
    let mut memory =
        Memory::builder().node(NodeId(7)).device(CPU0).device(CPU1).gpu_affinity(0, 1).build();
    let data = bytes(96, 5);
    let src = host.buffer(CPU0, &data);
    let iov = [src.iov_all()];
    let op = || {
        OpPut::new(vec![
            slot(96, Placement::Each(vec![CPU0, CPU1]), &iov),
            slot(96, Placement::Strict(CPU1), &iov),
        ])
    };
    assert!(memory.put(&host.mem, Key::from("k"), op()).unwrap().all_ok());
    assert!(host.put("k", op()).unwrap().all_ok());
    let keys = [Key::from("k"), Key::from("other")];
    assert_eq!(memory.stat(&keys), host.local.stat(&keys));
    // The same writes are refused.
    let a = memory.put(&host.mem, Key::from("k"), op()).unwrap().into_result().unwrap_err();
    let b = host.put("k", op()).unwrap().into_result().unwrap_err();
    assert_eq!(a.to_string(), b.to_string());
    // The same replica is read, and the same reads are refused.
    let out = host.buffer(GPU0, &[0; 96]);
    let out_iov = [out.iov_all()];
    for (key, slot, offset) in [("k", 0, 0), ("k", 1, 0), ("k", 2, 0), ("k", 0, 1), ("x", 0, 0)] {
        let get = || OpGet::new(SlotIdx(slot), &out_iov).with_src_offset(offset);
        let a = memory.get(&mut host.mem, Key::from(key), get()).map(|r| r.from);
        let b = host.get(key, get()).map(|p| p.from);
        match (a, b) {
            (Ok(a), Ok(b)) => assert_eq!(a, b),
            (Err(a), Err(b)) => assert_eq!(a.to_string(), b.to_string()),
            _ => panic!("answers differ"),
        }
    }
    // Published, retired and removed alike.
    let lent = [out.iov_all()];
    memory.publish(Key::from("k"), OpPublish::new(SlotIdx(1), &lent)).unwrap();
    host.local.publish(Key::from("k"), &OpPublish::new(SlotIdx(1), &lent)).unwrap();
    assert_eq!(memory.stat(&keys), host.local.stat(&keys));
    memory.retire_region(out.id());
    host.local.retire_region(out.id());
    assert_eq!(memory.stat(&keys), host.local.stat(&keys));
    memory.remove(&keys);
    host.local.remove(&keys);
    assert_eq!(memory.stat(&keys), host.local.stat(&keys));
}

#[test]
fn local_evicts_no_more_than_it_must() {
    let mut host = Host::new(3);
    let src = host.unread(CPU0, 3 * UNIT);
    let one = [src.iov(0, UNIT as u64)];
    for key in ["a", "b", "c"] {
        let op = OpPut::new(vec![slot(UNIT as u64, Placement::Strict(CPU0), &one)]);
        assert!(host.put(key, op).unwrap().all_ok());
    }
    // What never fits evicts nothing.
    let four = host.local.register(&mut host.ids, 0x7000_0000, 4 * UNIT as u64, CPU0).unwrap();
    let four_iov = [four.iov_all()];
    let op = OpPut::new(vec![slot(4 * UNIT as u64, Placement::Strict(CPU0), &four_iov)]);
    let rp = host.put("big", op).unwrap();
    assert_eq!(rp.slots[0].as_ref().unwrap_err().kind(), ErrorKind::NoSpace);
    let keys: Vec<Key> = ["a", "b", "c"].map(Key::from).into_iter().collect();
    assert!(host.local.stat(&keys).iter().all(|i| i.is_some()));
    // Two units take the first two.
    let two = [src.iov(0, 2 * UNIT as u64)];
    let op = OpPut::new(vec![slot(2 * UNIT as u64, Placement::Strict(CPU0), &two)]);
    assert!(host.put("d", op).unwrap().all_ok());
    let there: Vec<bool> = host.local.stat(&keys).iter().map(|i| i.is_some()).collect();
    assert_eq!(there, vec![false, false, true]);
}

#[test]
fn local_publications_go_with_any_of_their_regions() {
    let mut host = Host::new(2);
    let data = bytes(128, 5);
    let src = host.buffer(CPU0, &data);
    let iov = [src.iov_all()];
    host.put("w", OpPut::new(vec![slot(128, Placement::Strict(CPU0), &iov)])).unwrap();
    let one = host.buffer(GPU0, &data[..64]);
    let two = host.buffer(GPU0, &data[64..]);
    let lent = [one.iov_all(), two.iov_all()];
    for gone in [one.id(), two.id()] {
        host.local.publish(Key::from("w"), &OpPublish::new(SlotIdx(0), &lent)).unwrap();
        let info = host.local.stat(&[Key::from("w")])[0].take().unwrap();
        assert_eq!(info.slots[0].replicas.len(), 2);
        host.local.retire_region(gone + 100);
        let info = host.local.stat(&[Key::from("w")])[0].take().unwrap();
        assert_eq!(info.slots[0].replicas.len(), 2);
        host.local.retire_region(gone);
        let info = host.local.stat(&[Key::from("w")])[0].take().unwrap();
        assert_eq!(info.slots[0].replicas.len(), 1);
        assert_eq!(info.slots[0].replicas[0].location.tier, Tier::Dram);
    }
}

#[test]
fn local_regions_are_busy_while_they_are_read() {
    let mut host = Host::new(2);
    let data = bytes(128, 6);
    let src = host.buffer(CPU0, &data);
    let iov = [src.iov_all()];
    host.put("w", OpPut::new(vec![slot(128, Placement::Strict(CPU0), &iov)])).unwrap();
    let one = host.buffer(GPU0, &data[..64]);
    let two = host.buffer(GPU0, &data[64..]);
    let lent = [one.iov_all(), two.iov_all()];
    host.local.publish(Key::from("w"), &OpPublish::new(SlotIdx(0), &lent)).unwrap();
    let out = host.buffer(GPU0, &[0; 128]);
    let out_iov = [out.iov_all()];
    assert!(!host.local.region_busy(one.id()));
    let first = host.local.begin_get(Key::from("w"), &OpGet::new(SlotIdx(0), &out_iov)).unwrap();
    let second = host.local.begin_get(Key::from("w"), &OpGet::new(SlotIdx(0), &out_iov)).unwrap();
    assert_eq!((first.hold, second.hold), (Hold::Lent(0), Hold::Lent(1)));
    // Retirement lets nobody begin, and leaves those that have begun.
    host.local.retire_region(two.id());
    let other = host.local.begin_get(Key::from("w"), &OpGet::new(SlotIdx(0), &out_iov)).unwrap();
    assert_eq!(other.from.tier, Tier::Dram);
    assert!(host.local.finish_read(other.hold));
    assert!(host.local.region_busy(one.id()));
    assert!(host.local.region_busy(two.id()));
    assert!(host.local.finish_read(first.hold));
    assert!(!host.local.finish_read(first.hold));
    assert!(host.local.region_busy(two.id()));
    assert!(host.local.finish_read(second.hold));
    assert!(!host.local.region_busy(one.id()));
    assert!(!host.local.region_busy(two.id()));
    assert!(!host.local.finish_read(Hold::Lent(9)));
}

#[test]
fn local_eviction_is_by_age_after_a_removal() {
    let mut host = Host::new(3);
    let src = host.unread(CPU0, UNIT);
    let iov = [src.iov_all()];
    let put = |host: &mut Host, key: &str| {
        let op = OpPut::new(vec![slot(UNIT as u64, Placement::Strict(CPU0), &iov)]);
        assert!(host.put(key, op).unwrap().slots[0].is_ok());
    };
    let there = |host: &mut Host, key: &str| host.local.stat(&[Key::from(key)])[0].is_some();
    put(&mut host, "a");
    put(&mut host, "b");
    put(&mut host, "c");
    // Stored anew, `a` is the youngest.
    host.local.remove(&[Key::from("a")]);
    put(&mut host, "a");
    put(&mut host, "d");
    assert!(!there(&mut host, "b"));
    assert!(there(&mut host, "a") && there(&mut host, "c") && there(&mut host, "d"));
    put(&mut host, "e");
    assert!(!there(&mut host, "c"));
    assert!(there(&mut host, "a"));
}

#[test]
fn local_copies_of_a_slot_go_together() {
    let mut host = Host::new(4);
    let src = host.unread(CPU0, UNIT);
    let iov = [src.iov_all()];
    let one = |iov| OpPut::new(vec![slot(UNIT as u64, Placement::Strict(CPU0), iov)]);
    let op = OpPut::new(vec![slot(UNIT as u64, Placement::Each(vec![CPU0, CPU0]), &iov)]);
    assert!(host.put("a", op).unwrap().slots[0].is_ok());
    assert!(host.put("x", one(&iov).with_retention(Retention::Explicit)).unwrap().slots[0].is_ok());
    assert!(host.put("b", one(&iov)).unwrap().slots[0].is_ok());
    assert_eq!(host.free(0), 0);
    // A slot goes from a pool as a whole, before anything younger.
    assert!(host.put("c", one(&iov)).unwrap().slots[0].is_ok());
    assert_eq!(host.free(0), UNIT);
    assert!(host.put("d", one(&iov)).unwrap().slots[0].is_ok());
    assert!(host.put("e", one(&iov)).unwrap().slots[0].is_ok());
    let keys = ["a", "b", "c", "x"].map(Key::from);
    let found = host.local.stat(&keys);
    let there: Vec<bool> = found.iter().map(|i| i.is_some()).collect();
    assert_eq!(there, vec![false, false, true, true]);
}

#[test]
fn local_copies_are_planned_for_every_target() {
    let mut host = Host::new(2);
    let data = bytes(96, 2);
    let one = host.buffer(GPU0, &data[..32]);
    let two = host.buffer(GPU0, &data[32..]);
    let src = [one.iov_all(), two.iov_all()];
    let targets = [
        Target { device: CPU0, addr: 0x5000, len: 96 },
        Target { device: CPU1, addr: 0x6000, len: 96 },
    ];
    let plans = host.local.plan_copies(&src, &targets).ok().unwrap();
    assert_eq!(plans.len(), 2);
    for (plan, target) in plans.iter().zip(&targets) {
        assert_eq!(plan.engine, Engine::DeviceToHost { gpu: 0 });
        let want = vec![
            Piece { src: one.as_ptr(), dst: target.addr, len: 32 },
            Piece { src: two.as_ptr(), dst: target.addr + 32, len: 64 },
        ];
        assert_eq!(plan.pieces, want);
    }
    // A GPU that is not served has no engine.
    let far = MemoryRegion::with_id(77, 0x7000, 96, Device::Gpu { index: 5 });
    let e = host.local.plan_copies(&[far.iov_all()], &targets).err().unwrap();
    assert_eq!((e.kind(), e.message()), (ErrorKind::InvalidInput, "gpu not served"));
    assert!(host.local.plan_copies(&src, &[]).ok().unwrap().is_empty());
}

#[test]
fn local_bytes_outlast_other_calls() {
    let mut host = Host::new(2);
    let data = bytes(256, 3);
    let src = host.buffer(CPU0, &data);
    let iov = [src.iov_all()];
    let kept = OpPut::new(vec![slot(256, Placement::Strict(CPU0), &iov)])
        .with_retention(Retention::Explicit);
    host.put("a", kept).unwrap();
    // Others come, are evicted and go; lent memory comes and goes.
    let noise = host.buffer(CPU0, &[9; 256]);
    let noise_iov = [noise.iov_all()];
    for key in ["b", "c"] {
        let op = OpPut::new(vec![slot(256, Placement::Strict(CPU0), &noise_iov)]);
        assert!(host.put(key, op).unwrap().slots[0].is_ok());
    }
    assert!(host.local.stat(&[Key::from("b")])[0].is_none());
    host.local.remove(&[Key::from("c")]);
    host.local.publish(Key::from("a"), &OpPublish::new(SlotIdx(0), &noise_iov)).unwrap();
    host.local.retire_region(noise.id());
    let dst = host.buffer(CPU1, &[0; 100]);
    let dst_iov = [dst.iov_all()];
    host.get("a", OpGet::new(SlotIdx(0), &dst_iov).with_src_offset(50)).unwrap();
    assert_eq!(host.mem.read(dst.as_ptr(), 100), data[50..150].to_vec());
}
