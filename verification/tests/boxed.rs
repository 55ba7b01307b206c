use lstd::allocator::Box;
use lstd::heap::Heap;
use std::cell::Cell;

struct Noisy<'a> {
    id: u32,
    drops: &'a Cell<u32>,
}

impl<'a> Drop for Noisy<'a> {
    fn drop(&mut self) {
        self.drops.set(self.drops.get() + 1);
    }
}

#[test]
fn box_holds_its_value() {
    let mut heap: Heap<u64> = Heap::new(1024);
    let b = Box::new(41, &mut heap);
    assert_eq!(Box::as_ptr(&b), 8);
    assert!(b.is_valid(&heap));
    assert_eq!(*b.deref(&heap), 41);
    b.drop(&mut heap);
    assert!(!heap.is_live(8));
}

#[test]
fn box_value_can_be_changed_in_place() {
    let mut heap: Heap<String> = Heap::new(1024);
    let mut b = Box::new(String::from("a"), &mut heap);
    b.deref_mut(&mut heap).push('b');
    *b.deref_mut(&mut heap) += "c";
    assert_eq!(b.deref(&heap), "abc");
    b.drop(&mut heap);
}

#[test]
fn two_boxes_never_share_an_address() {
    let mut heap: Heap<u64> = Heap::new(1024);
    let a = Box::new(1, &mut heap);
    let b = Box::new(2, &mut heap);
    assert_ne!(Box::as_ptr(&a), Box::as_ptr(&b));
    *a.deref(&heap);
    assert_eq!(*a.deref(&heap), 1);
    assert_eq!(*b.deref(&heap), 2);
    a.drop(&mut heap);
    assert_eq!(*b.deref(&heap), 2);
    b.drop(&mut heap);
}

#[test]
fn try_new_reports_a_full_heap() {
    let mut heap: Heap<u64> = Heap::new(24);
    let first = Box::try_new(1, &mut heap);
    assert!(first.is_some());
    let second = Box::try_new(2, &mut heap);
    assert!(second.is_some());
    let third = Box::try_new(3, &mut heap);
    assert!(third.is_none());
    assert_eq!(*first.as_ref().unwrap().deref(&heap), 1);
    assert_eq!(*second.as_ref().unwrap().deref(&heap), 2);
    first.unwrap().drop(&mut heap);
    let again = Box::try_new(4, &mut heap);
    assert_eq!(Box::as_ptr(again.as_ref().unwrap()), 8);
}

#[test]
fn drop_runs_the_destructor_once() {
    let drops = Cell::new(0);
    let mut heap: Heap<Noisy> = Heap::new(1024);
    let b = Box::new(Noisy { id: 7, drops: &drops }, &mut heap);
    assert_eq!(b.deref(&heap).id, 7);
    assert_eq!(drops.get(), 0);
    b.drop(&mut heap);
    assert_eq!(drops.get(), 1);
    assert!(!heap.is_live(8));
    std::mem::drop(heap);
    assert_eq!(drops.get(), 1);
}

#[test]
fn raw_round_trip_keeps_value_and_destructs_once() {
    let drops = Cell::new(0);
    let mut heap: Heap<Noisy> = Heap::new(1024);
    let b = Box::new(Noisy { id: 3, drops: &drops }, &mut heap);
    let addr = Box::as_ptr(&b);
    let raw = Box::into_raw(b);
    assert_eq!(raw, addr);
    assert_eq!(drops.get(), 0);
    assert!(heap.is_live(raw));
    let back: Box<Noisy> = Box::from_raw(raw);
    assert_eq!(Box::as_ptr(&back), addr);
    assert!(back.is_valid(&heap));
    assert_eq!(back.deref(&heap).id, 3);
    assert_eq!(drops.get(), 0);
    back.drop(&mut heap);
    assert_eq!(drops.get(), 1);
    assert!(!heap.is_live(raw));
    let stale: Box<Noisy> = Box::from_raw(raw);
    assert!(!stale.is_valid(&heap));
    std::mem::drop(heap);
    assert_eq!(drops.get(), 1);
}

#[test]
fn a_pointer_to_nothing_is_not_valid() {
    let mut heap: Heap<u64> = Heap::new(1024);
    let nothing: Box<u64> = Box::from_raw(0);
    assert!(!nothing.is_valid(&heap));
    let addr = heap.allocate(1, 8, 8).unwrap();
    let vacant: Box<u64> = Box::from_raw(addr);
    assert!(!vacant.is_valid(&heap));
    heap.write(addr, 0, 5);
    assert!(vacant.is_valid(&heap));
    let wide = heap.allocate(2, 8, 8).unwrap();
    heap.write(wide, 0, 5);
    let not_one: Box<u64> = Box::from_raw(wide);
    assert!(!not_one.is_valid(&heap));
}
