//! What the in-memory backend keeps, on concrete values.
use pegastore::access::Access;
use pegastore::error::ErrorKind;
use pegastore::ops::{OpGet, OpPublish, OpPut, PutSlot};
use pegastore::region::{HostMemory, MemoryRegion, RegionIds};
use pegastore::services::memory::{Memory, MemoryBuilder};
use pegastore::types::{Device, Key, NodeId, Placement, Retention, SlotIdx, SlotSpec, Tier};

const CPU0: Device = Device::Cpu { numa: 0 };
const CPU1: Device = Device::Cpu { numa: 1 };
const GPU0: Device = Device::Gpu { index: 0 };
const GPU1: Device = Device::Gpu { index: 1 };

struct World {
    memory: Memory,
    mem: HostMemory,
    ids: RegionIds,
    next: u64,
}

impl World {
    fn new(builder: MemoryBuilder) -> Self {
        World { memory: builder.build(), mem: HostMemory::new(), ids: RegionIds::new(), next: 64 }
    }

    fn region(&mut self, device: Device, bytes: &[u8]) -> MemoryRegion {
        let addr = self.next;
        self.next += bytes.len() as u64;
        self.mem.write(addr, bytes);
        Access::register(&self.memory, &mut self.ids, addr, bytes.len() as u64, device).unwrap()
    }

    fn put(&mut self, key: &str, len: usize, placement: Placement, retention: Retention) -> Option<ErrorKind> {
        let region = self.region(CPU0, &vec![7; len]);
        let iov = [region.iov_all()];
        let slots = vec![PutSlot::new(SlotSpec::new(len as u64, placement), &iov)];
        let op = OpPut::new(slots).with_retention(retention);
        assert!(self.memory.can_count(&op));
        let rp = self.memory.put(&self.mem, Key::from(key), op).unwrap();
        rp.into_result().err().map(|e| e.kind())
    }

    fn there(&self, keys: &[&str]) -> Vec<bool> {
        let keys: Vec<Key> = keys.iter().map(|k| Key::from(*k)).collect();
        self.memory.stat(&keys).iter().map(|i| i.is_some()).collect()
    }
}

fn strict() -> Placement {
    Placement::Strict(CPU0)
}

#[test]
fn eviction_is_first_in_first_out_and_no_more_than_needed() {
    let mut w = World::new(Memory::builder().device_with_capacity(CPU0, 100));
    for k in ["a", "b", "c", "d"] {
        assert_eq!(w.put(k, 25, strict(), Retention::Cache), None);
    }
    assert_eq!(w.memory.used(CPU0), 100);
    // 30 more bytes take two of 25.
    assert_eq!(w.put("e", 30, strict(), Retention::Cache), None);
    assert_eq!(w.there(&["a", "b", "c", "d", "e"]), vec![false, false, true, true, true]);
    assert_eq!(w.memory.used(CPU0), 80);
    // What never fits evicts nothing.
    assert_eq!(w.put("f", 101, strict(), Retention::Cache), Some(ErrorKind::NoSpace));
    assert_eq!(w.there(&["c", "d", "e"]), vec![true, true, true]);
}

#[test]
fn refused_writes_change_nothing() {
    let mut w = World::new(Memory::builder().device(CPU0).device(CPU1));
    assert_eq!(w.put("k", 10, strict(), Retention::Cache), None);
    assert_eq!(w.put("k", 10, strict(), Retention::Cache), Some(ErrorKind::AlreadyExists));
    assert_eq!(w.memory.used(CPU0), 10);
    let region = w.region(CPU0, &[1; 10]);
    let iov = [region.iov_all()];
    let op = OpPut::new(vec![PutSlot::new(SlotSpec::new(10, Placement::Strict(CPU1)), &iov)]);
    let e = w.memory.put(&w.mem, Key::from("k"), op).unwrap_err();
    assert_eq!(e.kind(), ErrorKind::SpecMismatch);
    assert_eq!((w.memory.used(CPU0), w.memory.used(CPU1)), (10, 0));
    // A device without a pool is no place.
    assert_eq!(
        w.put("g", 10, Placement::Strict(GPU1), Retention::Cache),
        Some(ErrorKind::InvalidInput)
    );
}

#[test]
fn removing_everything_frees_everything() {
    let mut w = World::new(Memory::builder().device(CPU0).device(CPU1));
    w.put("a", 10, Placement::Each(vec![CPU0, CPU1]), Retention::Explicit);
    w.put("b", 20, strict(), Retention::Cache);
    assert_eq!((w.memory.used(CPU0), w.memory.used(CPU1)), (30, 10));
    w.memory.remove(&[Key::from("a")]);
    assert_eq!((w.memory.used(CPU0), w.memory.used(CPU1)), (20, 0));
    w.memory.remove(&[Key::from("a"), Key::from("none")]);
    assert_eq!(w.memory.used(CPU0), 20);
    assert_eq!(w.memory.remove_prefix(b""), 1);
    assert_eq!(w.memory.used(CPU0), 0);
    assert_eq!(w.memory.remove_prefix(b""), 0);
}

#[test]
fn publications_take_no_room_and_end_with_their_region() {
    let mut w = World::new(Memory::builder().device_with_capacity(CPU0, 20).gpu_affinity(0, 1));
    w.put("k", 10, strict(), Retention::Cache);
    let gpu = w.region(GPU0, &[7; 10]);
    let iov = [gpu.iov_all()];
    w.memory.publish(Key::from("k"), OpPublish::new(SlotIdx(0), &iov)).unwrap();
    assert_eq!(w.memory.used(CPU0), 10);
    let tiers = |w: &World| -> Vec<Tier> {
        w.memory.stat(&[Key::from("k")])[0].as_ref().unwrap().slots[0]
            .replicas
            .iter()
            .map(|r| r.location.tier)
            .collect()
    };
    assert_eq!(tiers(&w), vec![Tier::Dram, Tier::External]);
    // The store's own copy goes, the lent one stays.
    assert_eq!(w.put("other", 20, strict(), Retention::Cache), None);
    assert_eq!(tiers(&w), vec![Tier::External]);
    w.memory.retire_region(gpu.id());
    assert!(tiers(&w).is_empty());
    let out = w.region(CPU0, &[0; 10]);
    let iov = [out.iov_all()];
    let e = w.memory.get(&mut w.mem, Key::from("k"), OpGet::new(SlotIdx(0), &iov)).unwrap_err();
    assert_eq!(e.kind(), ErrorKind::Evicted);
}

#[test]
fn the_nearest_replica_is_read() {
    let mut w = World::new(
        Memory::builder().node(NodeId(3)).device(CPU0).device(CPU1).gpu_affinity(1, 1),
    );
    w.put("k", 10, Placement::Each(vec![CPU0, CPU1]), Retention::Cache);
    for (reader, want) in [(CPU0, CPU0), (CPU1, CPU1), (GPU1, CPU1), (GPU0, CPU0)] {
        let out = w.region(reader, &[0; 10]);
        let iov = [out.iov_all()];
        let key = Key::from("k");
        let near = w.memory.source(&key, &OpGet::new(SlotIdx(0), &iov)).is_ok();
        assert!(near);
        let rp = w.memory.get(&mut w.mem, key, OpGet::new(SlotIdx(0), &iov)).unwrap();
        assert_eq!((rp.from.device, rp.from.node), (want, NodeId(3)));
        assert_eq!(w.mem.read(out.as_ptr(), 10), vec![7; 10]);
    }
    assert_eq!(w.memory.distance(CPU0, CPU0), 0);
    assert_eq!(w.memory.distance(GPU1, CPU1), w.memory.distance(CPU1, GPU1));
    assert!(w.memory.distance(GPU1, CPU1) < w.memory.distance(GPU1, CPU0));
}

#[test]
fn bytes_can_be_handed_over() {
    let mut w = World::new(Memory::builder().device(CPU0));
    let region = w.region(CPU0, &[1, 2, 3]);
    let iov = [region.iov_all()];
    let op = OpPut::new(vec![PutSlot::new(SlotSpec::new(3, strict()), &iov)]);
    let rp = w.memory.put_bytes(Key::from("k"), &op, vec![vec![9, 8, 7]]).unwrap();
    assert!(rp.all_ok());
    let out = w.region(CPU0, &[0; 2]);
    let iov = [out.iov_all()];
    w.memory
        .get(&mut w.mem, Key::from("k"), OpGet::new(SlotIdx(0), &iov).with_src_offset(1))
        .unwrap();
    assert_eq!(w.mem.read(out.as_ptr(), 2), vec![8, 7]);
}

#[test]
fn what_cannot_be_counted_is_seen_beforehand() {
    let mut w = World::new(Memory::builder().device(CPU0));
    w.put("k", 10, strict(), Retention::Cache);
    let huge = MemoryRegion::with_id(99, 0, u64::MAX, CPU0);
    let iov = [huge.iov_all()];
    let op = OpPut::new(vec![PutSlot::new(SlotSpec::new(u64::MAX, strict()), &iov)]);
    assert!(!w.memory.can_count(&op));
}

#[test]
fn info_lists_devices_and_capability() {
    let memory = Memory::builder().node(NodeId(2)).device(CPU1).device(GPU0).build();
    let info = memory.info();
    assert_eq!((info.name, info.node), ("memory", NodeId(2)));
    assert_eq!(info.devices, vec![CPU1, GPU0]);
    assert!(info.capability.publish);
}

#[test]
fn copies_on_one_device_need_room_together() {
    let mut w = World::new(Memory::builder().device_with_capacity(CPU0, 100));
    let twice = || Placement::Each(vec![CPU0, CPU0]);
    assert_eq!(w.put("a", 60, twice(), Retention::Cache), Some(ErrorKind::NoSpace));
    assert_eq!(w.memory.used(CPU0), 0);
    assert_eq!(w.put("b", 50, twice(), Retention::Cache), None);
    assert_eq!(w.memory.used(CPU0), 100);
    // A slot goes from a device as a whole.
    assert_eq!(w.put("c", 40, strict(), Retention::Cache), None);
    assert_eq!(w.memory.used(CPU0), 40);
    assert_eq!(w.there(&["b", "c"]), vec![false, true]);
    assert_eq!(w.put("b", 30, twice(), Retention::Cache), None);
    assert_eq!(w.memory.used(CPU0), 100);
    // It has one turn, behind those that were stored before it.
    assert_eq!(w.put("d", 30, strict(), Retention::Cache), None);
    assert_eq!(w.there(&["b", "c", "d"]), vec![true, false, true]);
    assert_eq!(w.put("e", 20, strict(), Retention::Cache), None);
    assert_eq!(w.there(&["b", "d", "e"]), vec![false, true, true]);
    assert_eq!(w.memory.used(CPU0), 50);
}

#[test]
fn eviction_is_by_age_after_a_removal() {
    let mut w = World::new(Memory::builder().device_with_capacity(CPU0, 75));
    for k in ["a", "b", "c"] {
        assert_eq!(w.put(k, 25, strict(), Retention::Cache), None);
    }
    // Stored anew, `a` is the youngest.
    w.memory.remove(&[Key::from("a")]);
    assert_eq!(w.put("a", 25, strict(), Retention::Cache), None);
    assert_eq!(w.put("d", 25, strict(), Retention::Cache), None);
    assert_eq!(w.there(&["a", "b", "c", "d"]), vec![true, false, true, true]);
    assert_eq!(w.memory.remove_prefix(b"c"), 1);
    assert_eq!(w.put("c", 25, strict(), Retention::Cache), None);
    assert_eq!(w.put("e", 25, strict(), Retention::Cache), None);
    assert_eq!(w.there(&["a", "c", "d", "e"]), vec![false, true, true, true]);
}

#[test]
fn publications_end_with_any_of_their_regions() {
    let mut w = World::new(Memory::builder().device(CPU0));
    w.put("k", 10, strict(), Retention::Cache);
    let one = w.region(GPU0, &[7; 4]);
    let two = w.region(GPU0, &[7; 6]);
    let iov = [one.iov_all(), two.iov_all()];
    let count = |w: &World| {
        w.memory.stat(&[Key::from("k")])[0].as_ref().unwrap().slots[0].replicas.len()
    };
    for gone in [one.id(), two.id()] {
        w.memory.publish(Key::from("k"), OpPublish::new(SlotIdx(0), &iov)).unwrap();
        assert_eq!(count(&w), 2);
        w.memory.retire_region(gone);
        assert_eq!(count(&w), 1);
    }
    let e = w.memory.publish(Key::from("k"), OpPublish::new(SlotIdx(1), &iov)).unwrap_err();
    assert_eq!((e.kind(), e.message()), (ErrorKind::NotFound, "no such slot"));
}

#[test]
fn bytes_outlast_other_calls() {
    let mut w = World::new(
        Memory::builder().device_with_capacity(CPU0, 30).device_with_capacity(CPU1, 30),
    );
    assert_eq!(w.put("k", 10, Placement::Each(vec![CPU0, CPU1]), Retention::Cache), None);
    let lent = w.region(GPU0, &[7; 10]);
    let iov = [lent.iov_all()];
    w.memory.publish(Key::from("k"), OpPublish::new(SlotIdx(0), &iov)).unwrap();
    // One copy is evicted, a stranger comes and goes, the lent memory goes.
    assert_eq!(w.put("l", 30, strict(), Retention::Cache), None);
    assert_eq!(w.put("k", 10, Placement::Each(vec![CPU0, CPU1]), Retention::Cache), Some(ErrorKind::AlreadyExists));
    w.memory.remove(&[Key::from("l")]);
    w.memory.retire_region(lent.id());
    let out = w.region(CPU0, &[0; 4]);
    let iov = [out.iov_all()];
    let op = OpGet::new(SlotIdx(0), &iov).with_src_offset(3);
    let rp = w.memory.get(&mut w.mem, Key::from("k"), op).unwrap();
    assert_eq!(rp.from.device, CPU1);
    assert_eq!(w.mem.read(out.as_ptr(), 4), vec![7; 4]);
}

#[test]
fn reads_fill_segments_that_share_no_byte() {
    let mut w = World::new(Memory::builder().device(CPU0));
    let data: Vec<u8> = (0..8).collect();
    let src = w.region(CPU0, &data);
    let iov = [src.iov_all()];
    let op = OpPut::new(vec![PutSlot::new(SlotSpec::new(8, strict()), &iov)]);
    assert!(w.memory.put(&w.mem, Key::from("k"), op).unwrap().all_ok());
    // An empty segment inside another one takes nothing.
    let out = w.region(CPU0, &[9; 8]);
    let dst = [out.iov(4, 4), out.iov(6, 0), out.iov(0, 4)];
    w.memory.get(&mut w.mem, Key::from("k"), OpGet::new(SlotIdx(0), &dst)).unwrap();
    assert_eq!(w.mem.read(out.as_ptr(), 8), vec![4, 5, 6, 7, 0, 1, 2, 3]);
}
