use protostar_works::external_interface::{InnerValue, RunAllocator, RunIndex};

#[test]
fn normal_usage() {
    let mut x = InnerValue::new();

    x.set(&RunIndex { muid: 0, slot: 0 }, 0);
    x.set(&RunIndex { muid: 1, slot: 1 }, 1);
    x.set(&RunIndex { muid: 2, slot: 2 }, 2);
    assert_eq!(x.get(&RunIndex { muid: 0, slot: 0 }), Some(0));
    assert_eq!(x.get(&RunIndex { muid: 1, slot: 1 }), Some(1));
    assert_eq!(x.get(&RunIndex { muid: 2, slot: 2 }), Some(2));
    assert_eq!(x.get(&RunIndex { muid: 3, slot: 0 }), None);
    x.set(&RunIndex { muid: 3, slot: 0 }, 3);
    assert_eq!(x.get(&RunIndex { muid: 3, slot: 0 }), Some(3));
    assert_eq!(x.replace(&RunIndex { muid: 1, slot: 1 }, 5), Some(1))
}

#[test]
fn allocator_reuses_freed_slots_with_fresh_muids() {
    let mut a = RunAllocator::new();
    let r0 = a.allocate();
    let r1 = a.allocate();
    assert_eq!((r0.muid, r0.slot), (0, 0));
    assert_eq!((r1.muid, r1.slot), (1, 1));
    a.deallocate(r0);
    let r2 = a.allocate();
    assert_eq!(r2.slot, 0);
    assert_eq!(r2.muid, 2);
}

#[test]
fn read_after_write_and_stale_runs() {
    let mut x: InnerValue<u64> = InnerValue::new();
    x.set(&RunIndex { muid: 4, slot: 1 }, 10);
    assert_eq!(x.get(&RunIndex { muid: 4, slot: 1 }), Some(10));
    assert_eq!(x.get(&RunIndex { muid: 5, slot: 1 }), None);
    assert_eq!(x.get(&RunIndex { muid: 4, slot: 0 }), None);
    assert_eq!(x.replace(&RunIndex { muid: 6, slot: 1 }, 11), None);
    assert_eq!(x.get(&RunIndex { muid: 6, slot: 1 }), Some(11));
}
