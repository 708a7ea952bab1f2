use meshi::handle::{pack_handle, unpack_handle, Handle, INVALID_HANDLE};
use meshi::pool::Pool;

#[test]
fn pack_puts_generation_high_and_slot_low() {
    assert_eq!(pack_handle(Handle::new(7, 1)), 0x0001_0007);
    assert_eq!(pack_handle(Handle::new(0xFFFF, 0xFFFF)), INVALID_HANDLE);
    assert_eq!(unpack_handle(0x0003_0002), Handle::new(2, 3));
}

#[test]
fn unpack_invalid_gives_default_handle() {
    let h = unpack_handle(INVALID_HANDLE);
    assert_eq!(h, Handle::default());
    assert!(!h.valid());
    assert!(Handle::new(0, 0).valid());
}

#[test]
fn pack_unpack_round_trip() {
    for (slot, generation) in [(0u16, 0u16), (1, 2), (0xFFFE, 0xFFFF), (123, 456)] {
        let h = Handle::new(slot, generation);
        assert_eq!(unpack_handle(pack_handle(h)), h);
    }
}

#[test]
fn pool_insert_get_release() {
    let mut pool: Pool<u32> = Pool::new();
    let a = pool.insert(10).unwrap();
    let b = pool.insert(20).unwrap();
    assert_eq!(pool.len(), 2);
    assert_eq!(pool.get(a), Some(&10));
    assert_eq!(pool.get(b), Some(&20));
    assert_eq!(pool.entries(), &vec![a, b]);
    assert_eq!(pool.release(a), Some(10));
    assert_eq!(pool.get(a), None);
    assert!(!pool.contains(a));
    assert_eq!(pool.release(a), None);
    assert_eq!(pool.len(), 1);
}

#[test]
fn pool_reuses_lowest_free_slot_with_new_generation() {
    let mut pool: Pool<&str> = Pool::new();
    let a = pool.insert("a").unwrap();
    let _b = pool.insert("b").unwrap();
    assert_eq!(a.slot, 0);
    pool.release(a);
    let c = pool.insert("c").unwrap();
    assert_eq!(c.slot, 0);
    assert_ne!(c, a);
    assert_eq!(c.generation, a.generation + 1);
    assert_eq!(pool.get(a), None);
    assert_eq!(pool.get(c), Some(&"c"));
    assert!(pool.contains_slot(0));
    assert!(!pool.contains_slot(5));
}

#[test]
fn pool_replace_swaps_value() {
    let mut pool: Pool<u32> = Pool::new();
    let a = pool.insert(1).unwrap();
    assert_eq!(pool.replace(a, 2), 1);
    assert_eq!(pool.get(a), Some(&2));
}
