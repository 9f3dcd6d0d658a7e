use cchamt::Allocator;
use cchamt::Trie;

#[test]
fn test_allocator_new() {
    let _a: Allocator<i32> = Allocator::new(4096);
}

#[test]
fn test_allocator_push() {
    let mut a: Allocator<i32> = Allocator::new(4096);
    a.allocate(200);
}

#[test]
fn test_index() {
    let mut a: Allocator<i32> = Allocator::new(4096);
    a.allocate(100);
    a.allocate(1000);
    assert_eq!(*a.get(0), 100);
    assert_eq!(*a.get(1), 1000);
}

#[test]
fn test_practical() {
    let mut a: Allocator<Option<Box<Trie<()>>>> = Allocator::new(4096);
    for _ in 0..16 {
        a.allocate(None);
    }
    assert!(a.get(5).is_none());
    *a.get_mut(4) = Some(Box::new(Trie::new()));

    let _q = a.get_mut(4).as_mut();
}

#[test]
fn allocate_hands_out_the_slots_in_order() {
    let mut a: Allocator<u8> = Allocator::new(3);
    assert_eq!(a.len(), 0);
    assert_eq!(a.capacity(), 3);
    assert_eq!(a.allocate(7), 0);
    assert_eq!(a.allocate(8), 1);
    assert_eq!(a.allocate(9), 2);
    assert_eq!(a.len(), 3);
    assert_eq!(a.capacity(), 3);
    assert_eq!(*a.get(0), 7);
    assert_eq!(*a.get(2), 9);
    *a.get_mut(1) = 5;
    assert_eq!(*a.get(1), 5);
}

#[test]
fn allocate_or_grow_goes_past_the_ceiling() {
    let mut a: Allocator<u8> = Allocator::new(1);
    assert_eq!(a.allocate_or_grow(1), 0);
    assert_eq!(a.capacity(), 1);
    assert_eq!(a.allocate_or_grow(2), 1);
    assert_eq!(a.capacity(), 2);
    assert_eq!(a.len(), 2);
    assert_eq!(*a.get(1), 2);
}
