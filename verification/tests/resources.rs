use vd_pipeline::collections::NameMap;
use vd_pipeline::resources::{can_lease, default_capacity, effective_capacity, ResourcePool};

fn one(class: &str, n: u32) -> NameMap<u32> {
    let mut m = NameMap::new();
    m.insert(class.to_string(), n);
    m
}

#[test]
fn accelerator_capacity_defaults_to_one() {
    let mut pool = ResourcePool::new(NameMap::new());
    let need = one("metal_gpu", 1);
    let lease = pool.acquire(&need);
    assert!(lease.is_some());
    // A second lease of the class has to wait.
    assert!(!can_lease(pool.capacity(), pool.leased(), &need));
}

#[test]
fn released_lease_frees_the_class() {
    let mut pool = ResourcePool::new(one("metal_gpu", 1));
    let need = one("metal_gpu", 1);
    let lease = pool.acquire(&need).expect("first lease");
    assert!(pool.acquire(&need).is_none());
    pool.end_lease(lease);
    assert_eq!(pool.leased().get("metal_gpu"), Some(&0));
    assert!(pool.acquire(&need).is_some());
}

#[test]
fn empty_need_never_waits() {
    let mut pool = ResourcePool::new(one("cpu", 0));
    assert!(pool.acquire(&NameMap::new()).is_some());
}

#[test]
fn capacities_by_class() {
    let caps = one("cpu", 8);
    assert_eq!(effective_capacity(&caps, "cpu"), 8);
    assert_eq!(effective_capacity(&caps, "cuda_gpu"), 1);
    assert_eq!(effective_capacity(&caps, "gpu"), 1);
    assert_eq!(effective_capacity(&caps, "disk"), u32::MAX);
    let d = default_capacity(Some(6), true);
    assert_eq!(d.get("cpu"), Some(&6));
    assert_eq!(d.get("metal_gpu"), Some(&1));
    let d = default_capacity(None, false);
    assert_eq!(d.get("cpu"), Some(&4));
    assert_eq!(d.get("metal_gpu"), None);
}

#[test]
fn leases_never_exceed_capacity() {
    let mut pool = ResourcePool::new(one("metal_gpu", 1));
    let need = one("metal_gpu", 1);
    let mut live = Vec::new();
    for _ in 0..3 {
        if let Some(l) = pool.acquire(&need) {
            live.push(l);
        }
        assert!(*pool.leased().get("metal_gpu").unwrap_or(&0) <= 1);
    }
    assert_eq!(live.len(), 1);
}
