//! What a backend's capability keeps from it.
use pegastore::error::{Error, ErrorKind};
use pegastore::ops::{OpGet, OpPublish, OpPut, PutSlot};
use pegastore::region::MemoryRegion;
use pegastore::services::memory::Memory;
use pegastore::store::{
    check_get, check_iov_count, check_publish, check_put, check_register, check_remove_prefix,
    check_stat, Store,
};
use pegastore::types::{Capability, Device, Key, Placement, Retention, SlotIdx, SlotSpec};

const CPU0: Device = Device::Cpu { numa: 0 };

fn refusal(r: Result<(), Error>) -> String {
    let e = r.unwrap_err();
    assert_eq!(e.kind(), ErrorKind::Unsupported);
    assert!(!e.is_temporary());
    e.to_string()
}

fn put(region: &MemoryRegion, slots: usize, placement: Placement) -> (usize, Placement, &MemoryRegion) {
    (slots, placement, region)
}

fn checked(cap: Capability, what: (usize, Placement, &MemoryRegion), retention: Retention) -> Result<(), Error> {
    let (slots, placement, region) = what;
    let iov = [region.iov_all()];
    let slots = (0..slots)
        .map(|_| PutSlot::new(SlotSpec::new(region.len(), placement.clone()), &iov))
        .collect();
    check_put(&cap, &OpPut::new(slots).with_retention(retention))
}

#[test]
fn puts_are_checked_before_the_backend() {
    let region = MemoryRegion::with_id(1, 0x1000, 32, CPU0);
    let all = Capability::all();
    let cache = Retention::Cache;
    assert!(checked(all, put(&region, 2, Placement::Anywhere), Retention::Explicit).is_ok());
    assert_eq!(
        refusal(checked(
            Capability { retention_explicit: false, ..all },
            put(&region, 1, Placement::Anywhere),
            Retention::Explicit
        )),
        "Unsupported => backend does not support retention explicit"
    );
    assert_eq!(
        refusal(checked(
            Capability { max_slots: Some(1), ..all },
            put(&region, 2, Placement::Anywhere),
            cache
        )),
        "Unsupported => backend does not support too many slots {max_slots: 1}"
    );
    assert_eq!(
        refusal(checked(
            Capability { placement_strict: false, ..all },
            put(&region, 1, Placement::Strict(CPU0)),
            cache
        )),
        "Unsupported => backend does not support placement strict {slot: 0}"
    );
    assert_eq!(
        refusal(checked(
            Capability { placement_each: false, ..all },
            put(&region, 1, Placement::Each(vec![CPU0])),
            cache
        )),
        "Unsupported => backend does not support placement each {slot: 0}"
    );
    assert_eq!(
        refusal(checked(
            Capability { max_slot_len: Some(31), ..all },
            put(&region, 1, Placement::Anywhere),
            cache
        )),
        "Unsupported => backend does not support slot too large {slot: 0, max_slot_len: 31}"
    );
    assert_eq!(
        refusal(check_iov_count(&Capability { max_iov: Some(0), ..all }, 1)),
        "Unsupported => backend does not support too many iov segments {max_iov: 0}"
    );
    // A malformed request is malformed before it is unsupported.
    let e = checked(Capability::none(), put(&region, 0, Placement::Anywhere), cache).unwrap_err();
    assert_eq!(e.kind(), ErrorKind::InvalidInput);
}

#[test]
fn other_requests_are_checked_too() {
    let region = MemoryRegion::with_id(1, 0x1000, 32, CPU0);
    let iov = [region.iov_all()];
    let (all, none) = (Capability::all(), Capability::none());
    assert!(check_register(&none, CPU0).is_ok());
    refusal(check_register(&none, Device::gpu(0)));
    assert!(check_get(&all, &OpGet::new(SlotIdx(0), &iov)).is_ok());
    refusal(check_get(&Capability { max_iov: Some(0), ..all }, &OpGet::new(SlotIdx(0), &iov)));
    refusal(check_publish(&none, &OpPublish::new(SlotIdx(0), &iov)));
    assert!(check_publish(&all, &OpPublish::new(SlotIdx(0), &[])).is_err());
    assert!(check_stat(&all, 1000).is_ok());
    assert_eq!(
        refusal(check_stat(&Capability { max_stat_batch: Some(2), ..all }, 3)),
        "Unsupported => backend does not support stat batch too large {max_stat_batch: 2}"
    );
    assert!(check_remove_prefix(&all).is_ok());
    refusal(check_remove_prefix(&none));
}

#[test]
fn refusals_name_their_operation() {
    let cap = Capability { max_stat_batch: Some(0), ..Capability::all() };
    let store = Store::new(Memory::builder().capability(cap).build());
    let e = store.stat(&[Key::from("k")]).unwrap_err();
    assert_eq!(e.operation(), Some("stat"));
    assert_eq!(store.info().devices, vec![CPU0]);
    assert_eq!(store.servicer().used(CPU0), 0);
}
