//! Behavior tests: the contract every backend must satisfy. Run against
//! `Memory` here.
use pegastore::error::ErrorKind;
use pegastore::ops::{OpGet, PutSlot};
use pegastore::region::{HostMemory, Iov, MemoryRegion, RegionIds};
use pegastore::services::memory::Memory;
use pegastore::store::Store;
use pegastore::types::{
    Capability, Device, Key, Placement, Retention, SlotIdx, SlotSpec, Tier,
};

const CPU0: Device = Device::Cpu { numa: 0 };
const CPU1: Device = Device::Cpu { numa: 1 };
const GPU0: Device = Device::Gpu { index: 0 };

/// Mapped memory, and what hands out addresses and region ids in it.
struct Host {
    mem: HostMemory,
    ids: RegionIds,
    next: u64,
}

impl Host {
    fn new() -> Self {
        Host { mem: HostMemory::new(), ids: RegionIds::new(), next: 0x1000 }
    }

    fn filled(&mut self, store: &Store<Memory>, device: Device, len: usize, seed: u8) -> Buf {
        let bytes: Vec<u8> =
            (0..len).map(|i| (i as u8).wrapping_mul(31).wrapping_add(seed)).collect();
        self.from_vec(store, device, bytes)
    }

    fn zeroed(&mut self, store: &Store<Memory>, device: Device, len: usize) -> Buf {
        self.from_vec(store, device, vec![0; len])
    }

    fn from_vec(&mut self, store: &Store<Memory>, device: Device, bytes: Vec<u8>) -> Buf {
        let addr = self.next;
        let len = bytes.len() as u64;
        self.next += len + 64;
        self.mem.write(addr, &bytes);
        let region = store.register(&mut self.ids, addr, len, device).expect("register");
        Buf { region }
    }

    fn bytes(&self, buf: &Buf) -> Vec<u8> {
        self.mem.read(buf.region.as_ptr(), buf.region.len())
    }
}

struct Buf {
    region: MemoryRegion,
}

impl Buf {
    fn region(&self) -> &MemoryRegion {
        &self.region
    }

    fn iov(&self) -> [Iov<'_>; 1] {
        [self.region().iov_all()]
    }
}

fn two_numa() -> Store<Memory> {
    Store::new(
        Memory::builder().device(CPU0).device(CPU1).device(GPU0).gpu_affinity(0, 0).build(),
    )
}

fn slot(len: u64, placement: Placement) -> SlotSpec {
    SlotSpec::new(len, placement)
}

#[test]
fn put_get_roundtrip_multi_slot() {
    let mut store = two_numa();
    let mut host = Host::new();
    let a = host.filled(&store, CPU0, 4096, 1);
    let b = host.filled(&store, CPU0, 1024, 2);
    let key = Key::from("ns/obj1");

    let rp = store
        .put(
            &host.mem,
            key.clone(),
            vec![
                PutSlot::new(slot(4096, Placement::Prefer(CPU0)), &a.iov()),
                PutSlot::new(slot(1024, Placement::Prefer(CPU1)), &b.iov()),
            ],
        )
        .unwrap();
    assert!(rp.all_ok(), "{rp:?}");

    let info = store.stat(std::slice::from_ref(&key)).unwrap().remove(0).unwrap();
    assert_eq!(info.retention, Retention::Cache);
    assert_eq!(info.slots.len(), 2);
    assert!(info.is_fully_resident());
    assert_eq!(info.slots[0].replicas[0].location.device, CPU0);
    assert_eq!(info.slots[1].replicas[0].location.device, CPU1);
    assert!(!info.slots[0].replicas[0].misplaced);

    let out = host.zeroed(&store, CPU1, 1024);
    let rp = store.get(&mut host.mem, key.clone(), SlotIdx(1), &out.iov()).unwrap();
    assert_eq!(rp.from.device, CPU1);
    assert_eq!(rp.from.tier, Tier::Dram);
    assert_eq!(host.bytes(&out), host.bytes(&b));

    // Ranged read of slot 0 via the builder form.
    let part = host.zeroed(&store, CPU0, 100);
    store
        .get_with(key.clone(), SlotIdx(0), &part.iov())
        .src_offset(1000)
        .send(&store, &mut host.mem)
        .unwrap();
    assert_eq!(host.bytes(&part), host.bytes(&a)[1000..1100]);
}

#[test]
fn write_once_and_spec_mismatch() {
    let mut store = two_numa();
    let mut host = Host::new();
    let a = host.filled(&store, CPU0, 256, 1);
    let key = Key::from("k");

    let rp = store
        .put(
            &host.mem,
            key.clone(),
            vec![PutSlot::new(slot(256, Placement::Anywhere), &a.iov())],
        )
        .unwrap();
    assert!(rp.all_ok());

    // Same spec again: per-slot AlreadyExists, not an object-level error.
    let rp = store
        .put(
            &host.mem,
            key.clone(),
            vec![PutSlot::new(slot(256, Placement::Anywhere), &a.iov())],
        )
        .unwrap();
    assert_eq!(rp.slots[0].as_ref().unwrap_err().kind(), ErrorKind::AlreadyExists);

    // Different spec: object-level SpecMismatch.
    let err = store
        .put(
            &host.mem,
            key.clone(),
            vec![PutSlot::new(slot(256, Placement::Strict(CPU0)), &a.iov())],
        )
        .unwrap_err();
    assert_eq!(err.kind(), ErrorKind::SpecMismatch);

    // Different retention is also a spec mismatch.
    let err = store
        .put_with(key.clone(), vec![PutSlot::new(slot(256, Placement::Anywhere), &a.iov())])
        .retention(Retention::Explicit)
        .send(&mut store, &host.mem)
        .unwrap_err();
    assert_eq!(err.kind(), ErrorKind::SpecMismatch);
}

#[test]
fn partial_put_then_repair() {
    // CPU0 holds 1000 bytes: slot 0 (600) fits, slot 1 (600) does not.
    let mut store = Store::new(Memory::builder().device_with_capacity(CPU0, 1000).build());
    let mut host = Host::new();
    let a = host.filled(&store, CPU0, 600, 1);
    let b = host.filled(&store, CPU0, 600, 2);
    let key = Key::from("partial");
    let (a_iov, b_iov) = (a.iov(), b.iov());
    let slots = || {
        vec![
            PutSlot::new(slot(600, Placement::Strict(CPU0)), &a_iov),
            PutSlot::new(slot(600, Placement::Strict(CPU0)), &b_iov),
        ]
    };

    let rp = store
        .put_with(key.clone(), slots())
        .retention(Retention::Explicit)
        .send(&mut store, &host.mem)
        .unwrap();
    assert!(rp.slots[0].is_ok());
    assert_eq!(rp.slots[1].as_ref().unwrap_err().kind(), ErrorKind::NoSpace);

    let info = store.stat(std::slice::from_ref(&key)).unwrap().remove(0).unwrap();
    assert!(info.slots[0].is_resident());
    assert!(!info.slots[1].is_resident());

    let out = host.zeroed(&store, CPU0, 600);
    let err = store.get(&mut host.mem, key.clone(), SlotIdx(1), &out.iov()).unwrap_err();
    assert_eq!(err.kind(), ErrorKind::Evicted);

    // Free space, put again: slot 0 AlreadyExists, slot 1 now lands.
    // (Explicit bytes only leave via remove, so remove the object entirely.)
    store.remove(std::slice::from_ref(&key)).unwrap();
    let rp = store
        .put_with(key.clone(), slots())
        .retention(Retention::Explicit)
        .send(&mut store, &host.mem)
        .unwrap();
    assert!(rp.slots[0].is_ok());
    assert_eq!(rp.slots[1].as_ref().unwrap_err().kind(), ErrorKind::NoSpace);

    // Repair path proper: a Cache object elsewhere gets evicted to make room.
    let mut store = Store::new(Memory::builder().device_with_capacity(CPU0, 1300).build());
    let a = host.filled(&store, CPU0, 600, 1);
    let b = host.filled(&store, CPU0, 600, 2);
    let filler = host.filled(&store, CPU0, 500, 9);
    store
        .put(
            &host.mem,
            Key::from("filler"),
            vec![PutSlot::new(slot(500, Placement::Strict(CPU0)), &filler.iov())],
        )
        .unwrap()
        .into_result()
        .unwrap();
    let key = Key::from("repair");
    let (a_iov, b_iov) = (a.iov(), b.iov());
    let slots = || {
        vec![
            PutSlot::new(slot(600, Placement::Strict(CPU0)), &a_iov),
            PutSlot::new(slot(600, Placement::Strict(CPU0)), &b_iov),
        ]
    };
    // 500 + 600 = 1100 fits; the second 600 evicts "filler" (Cache): both land.
    let rp = store
        .put_with(key.clone(), slots())
        .retention(Retention::Explicit)
        .send(&mut store, &host.mem)
        .unwrap();
    assert!(rp.all_ok(), "{rp:?}");
    assert!(store.stat(&[Key::from("filler")]).unwrap()[0].is_none());
}

#[test]
fn cache_evicts_fifo_explicit_never() {
    let mut store = Store::new(Memory::builder().device_with_capacity(CPU0, 1000).build());
    let mut host = Host::new();
    let buf = host.filled(&store, CPU0, 400, 1);
    let buf_iov = buf.iov();
    let mk = || PutSlot::new(slot(400, Placement::Strict(CPU0)), &buf_iov);

    store.put(&host.mem, Key::from("c1"), vec![mk()]).unwrap().into_result().unwrap();
    store.put(&host.mem, Key::from("c2"), vec![mk()]).unwrap().into_result().unwrap();
    // Third 400 exceeds 1000: c1 evicted (FIFO).
    store.put(&host.mem, Key::from("c3"), vec![mk()]).unwrap().into_result().unwrap();

    let infos = store.stat(&[Key::from("c1"), Key::from("c2"), Key::from("c3")]).unwrap();
    assert!(infos[0].is_none(), "c1 should be gone");
    assert!(infos[1].as_ref().unwrap().is_fully_resident());
    assert!(infos[2].as_ref().unwrap().is_fully_resident());

    // Explicit objects fill the pool; a further Cache put gets NoSpace.
    let mut store = Store::new(Memory::builder().device_with_capacity(CPU0, 1000).build());
    let buf = host.filled(&store, CPU0, 400, 1);
    for k in ["e1", "e2"] {
        store
            .put_with(
                Key::from(k),
                vec![PutSlot::new(slot(400, Placement::Strict(CPU0)), &buf.iov())],
            )
            .retention(Retention::Explicit)
            .send(&mut store, &host.mem)
            .unwrap()
            .into_result()
            .unwrap();
    }
    let rp = store
        .put(
            &host.mem,
            Key::from("c"),
            vec![PutSlot::new(slot(400, Placement::Strict(CPU0)), &buf.iov())],
        )
        .unwrap();
    let err = rp.slots[0].as_ref().unwrap_err();
    assert_eq!(err.kind(), ErrorKind::NoSpace);
    assert!(err.is_temporary(), "NoSpace is backpressure, hence retryable");
    // Nothing Explicit was evicted.
    let infos = store.stat(&[Key::from("e1"), Key::from("e2")]).unwrap();
    assert!(infos.iter().all(|i| i.as_ref().unwrap().is_fully_resident()));
}

#[test]
fn placement_each_and_distance_selection() {
    let mut store = two_numa();
    let mut host = Host::new();
    let a = host.filled(&store, CPU0, 2048, 3);
    let key = Key::from("weights/layer0");
    store
        .put_with(
            key.clone(),
            vec![PutSlot::new(slot(2048, Placement::Each(vec![CPU0, CPU1])), &a.iov())],
        )
        .retention(Retention::Explicit)
        .send(&mut store, &host.mem)
        .unwrap()
        .into_result()
        .unwrap();

    let info = store.stat(std::slice::from_ref(&key)).unwrap().remove(0).unwrap();
    let devs: Vec<Device> = info.slots[0].replicas.iter().map(|r| r.location.device).collect();
    assert_eq!(devs, vec![CPU0, CPU1]);

    // Reader on CPU1 is served by the CPU1 replica; reader on GPU0 (numa 0) by CPU0.
    let out1 = host.zeroed(&store, CPU1, 2048);
    assert_eq!(
        store.get(&mut host.mem, key.clone(), SlotIdx(0), &out1.iov()).unwrap().from.device,
        CPU1
    );
    let out0 = host.zeroed(&store, GPU0, 2048);
    assert_eq!(
        store.get(&mut host.mem, key.clone(), SlotIdx(0), &out0.iov()).unwrap().from.device,
        CPU0
    );
    assert_eq!(host.bytes(&out0), host.bytes(&a));
}

#[test]
fn prefer_spills_and_marks_misplaced() {
    let mut store =
        Store::new(Memory::builder().device_with_capacity(CPU0, 100).device(CPU1).build());
    let mut host = Host::new();
    let a = host.filled(&store, CPU0, 500, 4);
    let key = Key::from("spill");
    store
        .put(
            &host.mem,
            key.clone(),
            vec![PutSlot::new(slot(500, Placement::Prefer(CPU0)), &a.iov())],
        )
        .unwrap()
        .into_result()
        .unwrap();
    let info = store.stat(std::slice::from_ref(&key)).unwrap().remove(0).unwrap();
    let r = &info.slots[0].replicas[0];
    assert_eq!(r.location.device, CPU1);
    assert!(r.misplaced);

    // Strict would have refused.
    let err = store
        .put(
            &host.mem,
            Key::from("strict"),
            vec![PutSlot::new(slot(500, Placement::Strict(CPU0)), &a.iov())],
        )
        .unwrap()
        .into_result()
        .unwrap_err();
    assert_eq!(err.kind(), ErrorKind::NoSpace);
}

#[test]
fn publish_external_replica_lives_with_region() {
    let mut store = two_numa();
    let mut host = Host::new();
    let a = host.filled(&store, CPU1, 1024, 5);
    let key = Key::from("w");
    store
        .put(
            &host.mem,
            key.clone(),
            vec![PutSlot::new(slot(1024, Placement::Strict(CPU1)), &a.iov())],
        )
        .unwrap()
        .into_result()
        .unwrap();

    // A GPU-side consumer fetches, then publishes its copy.
    let gpu_copy = host.zeroed(&store, GPU0, 1024);
    store.get(&mut host.mem, key.clone(), SlotIdx(0), &gpu_copy.iov()).unwrap();
    store.publish(key.clone(), SlotIdx(0), &gpu_copy.iov()).unwrap();

    let info = store.stat(std::slice::from_ref(&key)).unwrap().remove(0).unwrap();
    assert_eq!(info.slots[0].replicas.len(), 2);
    assert!(info.slots[0]
        .replicas
        .iter()
        .any(|r| r.location.tier == Tier::External && r.location.device == GPU0));

    // Another GPU reader is now served from the GPU replica (distance 0), not DRAM.
    let out = host.zeroed(&store, GPU0, 1024);
    let rp = store.get(&mut host.mem, key.clone(), SlotIdx(0), &out.iov()).unwrap();
    assert_eq!(rp.from.tier, Tier::External);
    assert_eq!(host.bytes(&out), host.bytes(&a));

    // Length mismatch is rejected.
    let short = host.zeroed(&store, GPU0, 512);
    let err = store.publish(key.clone(), SlotIdx(0), &short.iov()).unwrap_err();
    assert_eq!(err.kind(), ErrorKind::InvalidInput);

    // Dropping the region retires the external replica.
    let mut memory = store.into_inner();
    memory.retire_region(gpu_copy.region().id());
    let store = Store::new(memory);
    let info = store.stat(std::slice::from_ref(&key)).unwrap().remove(0).unwrap();
    assert_eq!(info.slots[0].replicas.len(), 1);
    assert_eq!(info.slots[0].replicas[0].location.tier, Tier::Dram);
}

#[test]
fn remove_and_remove_prefix() {
    let mut store = two_numa();
    let mut host = Host::new();
    let a = host.filled(&store, CPU0, 64, 6);
    for k in ["m1/x", "m1/y", "m2/x", "m10/x"] {
        store
            .put(
                &host.mem,
                Key::from(k),
                vec![PutSlot::new(slot(64, Placement::Anywhere), &a.iov())],
            )
            .unwrap()
            .into_result()
            .unwrap();
    }
    assert_eq!(store.remove_prefix(b"m1/").unwrap(), 2);
    let infos = store.stat(&[Key::from("m1/x"), Key::from("m2/x"), Key::from("m10/x")]).unwrap();
    assert!(infos[0].is_none());
    assert!(infos[1].is_some());
    assert!(infos[2].is_some(), "prefix match is byte-wise, m10/ is not m1/");

    store.remove(&[Key::from("m2/x")]).unwrap();
    let out = host.zeroed(&store, CPU0, 64);
    let err =
        store.get(&mut host.mem, Key::from("m2/x"), SlotIdx(0), &out.iov()).unwrap_err();
    assert_eq!(err.kind(), ErrorKind::NotFound);
    assert!(!err.is_temporary());
    // Removing again is a no-op.
    store.remove(&[Key::from("m2/x")]).unwrap();
}

#[test]
fn invalid_input_is_rejected_before_the_backend() {
    let mut store = two_numa();
    let mut host = Host::new();
    let a = host.filled(&store, CPU0, 100, 7);
    let key = Key::from("bad");

    // Declared len != iov total.
    let err = store
        .put(
            &host.mem,
            key.clone(),
            vec![PutSlot::new(slot(200, Placement::Anywhere), &a.iov())],
        )
        .unwrap_err();
    assert_eq!(err.kind(), ErrorKind::InvalidInput);

    // Iov out of region bounds.
    let oob = [a.region().iov(50, 100)];
    let err = store
        .put(&host.mem, key.clone(), vec![PutSlot::new(slot(100, Placement::Anywhere), &oob)])
        .unwrap_err();
    assert_eq!(err.kind(), ErrorKind::InvalidInput);

    // Empty iov list.
    let err = store
        .put(&host.mem, key.clone(), vec![PutSlot::new(slot(0, Placement::Anywhere), &[])])
        .unwrap_err();
    assert_eq!(err.kind(), ErrorKind::InvalidInput);

    store
        .put(
            &host.mem,
            key.clone(),
            vec![PutSlot::new(slot(100, Placement::Anywhere), &a.iov())],
        )
        .unwrap()
        .into_result()
        .unwrap();

    // Read past the slot.
    let out = host.zeroed(&store, CPU0, 60);
    let err = store
        .get_with(key.clone(), SlotIdx(0), &out.iov())
        .src_offset(50)
        .send(&store, &mut host.mem)
        .unwrap_err();
    assert_eq!(err.kind(), ErrorKind::InvalidInput);

    // Unknown slot.
    let err = store.get(&mut host.mem, key.clone(), SlotIdx(7), &out.iov()).unwrap_err();
    assert_eq!(err.kind(), ErrorKind::InvalidInput);
}

#[test]
fn capability_gates_unsupported_features() {
    let cap = Capability {
        publish: false,
        placement_each: false,
        retention_explicit: false,
        remove_prefix: false,
        gpu_memory: false,
        max_iov: Some(1),
        ..Capability::all()
    };
    let mut store = Store::new(Memory::builder().device(CPU0).capability(cap).build());
    let mut host = Host::new();
    let a = host.filled(&store, CPU0, 32, 8);

    let err = store.register(&mut host.ids, 0, 0, GPU0).unwrap_err();
    assert_eq!(err.kind(), ErrorKind::Unsupported);
    assert_eq!(
        store
            .put(
                &host.mem,
                Key::from("k"),
                vec![PutSlot::new(slot(32, Placement::Each(vec![CPU0])), &a.iov())]
            )
            .unwrap_err()
            .kind(),
        ErrorKind::Unsupported
    );
    assert_eq!(
        store
            .put_with(
                Key::from("k"),
                vec![PutSlot::new(slot(32, Placement::Anywhere), &a.iov())]
            )
            .retention(Retention::Explicit)
            .send(&mut store, &host.mem)
            .unwrap_err()
            .kind(),
        ErrorKind::Unsupported
    );
    assert_eq!(store.remove_prefix(b"k").unwrap_err().kind(), ErrorKind::Unsupported);
    assert_eq!(
        store.publish(Key::from("k"), SlotIdx(0), &a.iov()).unwrap_err().kind(),
        ErrorKind::Unsupported
    );
    let two = [a.region().iov(0, 16), a.region().iov(16, 16)];
    assert_eq!(
        store
            .put(
                &host.mem,
                Key::from("k"),
                vec![PutSlot::new(slot(32, Placement::Anywhere), &two)]
            )
            .unwrap_err()
            .kind(),
        ErrorKind::Unsupported
    );
}

#[test]
fn get_many_streams_in_completion_order() {
    let mut store = two_numa();
    let mut host = Host::new();
    let bufs: Vec<Buf> = (0..8).map(|i| host.filled(&store, CPU0, 512, i as u8)).collect();
    let key = Key::from("layers");
    let iovs: Vec<[Iov<'_>; 1]> = bufs.iter().map(|b| b.iov()).collect();
    let slots: Vec<PutSlot<'_>> =
        iovs.iter().map(|iov| PutSlot::new(slot(512, Placement::Anywhere), iov)).collect();
    store.put(&host.mem, key.clone(), slots).unwrap().into_result().unwrap();

    let outs: Vec<Buf> = (0..8).map(|_| host.zeroed(&store, CPU1, 512)).collect();
    let out_iovs: Vec<[Iov<'_>; 1]> = outs.iter().map(|o| o.iov()).collect();
    let reqs = out_iovs
        .iter()
        .enumerate()
        .map(|(i, iov)| (key.clone(), OpGet::new(SlotIdx(i as u32), iov)))
        .collect();

    let mut seen = [false; 8];
    for (i, r) in store.get_many(&mut host.mem, reqs) {
        r.unwrap();
        seen[i] = true;
    }
    assert!(seen.iter().all(|s| *s));
    for (o, b) in outs.iter().zip(&bufs) {
        assert_eq!(host.bytes(o), host.bytes(b));
    }
}
