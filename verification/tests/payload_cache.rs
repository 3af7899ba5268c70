//! The caches for execution results.
use std::any::Any;
use witness::payload_cache::{
    store_broadcast_execution, store_payload_execution, take_broadcast_execution,
    take_payload_execution, PayloadCaches,
};
use witness::primitives::B256;

fn hash(n: u8) -> B256 {
    B256([n; 32])
}

fn any(_: &u32) -> bool {
    true
}

#[test]
fn a_result_is_taken_once_and_by_its_hash() {
    let mut caches = PayloadCaches::new();
    assert_eq!(take_payload_execution(&mut caches, &hash(1), any), None);
    store_payload_execution(&mut caches, hash(1), 10u32);
    assert_eq!(take_payload_execution(&mut caches, &hash(2), any), None);
    assert_eq!(take_payload_execution(&mut caches, &hash(1), any), Some(10));
    assert_eq!(take_payload_execution(&mut caches, &hash(1), any), None);
}

#[test]
fn a_cache_keeps_only_the_last_result() {
    let mut caches = PayloadCaches::new();
    store_payload_execution(&mut caches, hash(1), 10u32);
    store_payload_execution(&mut caches, hash(2), 20);
    assert_eq!(take_payload_execution(&mut caches, &hash(1), any), None);
    assert_eq!(take_payload_execution(&mut caches, &hash(2), any), Some(20));
    store_broadcast_execution(&mut caches, hash(1), 10);
    store_broadcast_execution(&mut caches, hash(2), 20);
    assert_eq!(take_broadcast_execution(&mut caches, &hash(1), any), None);
    assert_eq!(take_broadcast_execution(&mut caches, &hash(2), any), Some(20));
}

#[test]
fn the_two_caches_do_not_touch_each_other() {
    let mut caches = PayloadCaches::new();
    store_payload_execution(&mut caches, hash(1), 10u32);
    assert_eq!(take_broadcast_execution(&mut caches, &hash(1), any), None);
    store_broadcast_execution(&mut caches, hash(1), 11);
    assert_eq!(take_payload_execution(&mut caches, &hash(1), any), Some(10));
    assert_eq!(take_broadcast_execution(&mut caches, &hash(1), any), Some(11));
}

#[test]
fn a_result_of_another_kind_stays() {
    let mut caches: PayloadCaches<Box<dyn Any>> = PayloadCaches::new();
    store_payload_execution(&mut caches, hash(1), Box::new(10u32));
    let wrong = take_payload_execution(&mut caches, &hash(1), |d: &Box<dyn Any>| d.is::<String>());
    assert!(wrong.is_none());
    let right = take_payload_execution(&mut caches, &hash(1), |d: &Box<dyn Any>| d.is::<u32>());
    assert_eq!(right.and_then(|d| d.downcast::<u32>().ok()), Some(Box::new(10)));
}

#[test]
fn another_block_is_not_even_looked_at() {
    let mut caches = PayloadCaches::new();
    store_payload_execution(&mut caches, hash(1), 10u32);
    let taken = take_payload_execution(&mut caches, &hash(2), |_: &u32| panic!("not asked for"));
    assert_eq!(taken, None);
}
