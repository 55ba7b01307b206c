use lstd::container::Rc;
use lstd::heap::Heap;
use std::cell::Cell;

struct Noisy<'a> {
    id: u32,
    drops: &'a Cell<u32>,
}

impl<'a> Drop for Noisy<'a> {
    fn drop(&mut self) {
        self.drops.set(self.drops.get() + 1);
    }
}

#[test]
fn new_shared_pointer_counts_one() {
    let mut counters: Heap<usize> = Heap::new(1024);
    let mut values: Heap<u32> = Heap::new(1024);
    let rc = Rc::new(5, &mut counters, &mut values);
    assert_eq!(Rc::strong_count(&rc, &counters), 1);
    assert_eq!(*rc.deref(&values), 5);
    assert!(rc.is_valid(&counters, &values));
    assert_eq!(Rc::as_ptr(&rc), 8);
    assert_eq!(*values.get(Rc::as_ptr(&rc), 0), 5);
    rc.drop(&mut counters, &mut values);
}

#[test]
fn clone_counts_up_and_aliases() {
    let mut counters: Heap<usize> = Heap::new(1024);
    let mut values: Heap<String> = Heap::new(1024);
    let a = Rc::new(String::from("shared"), &mut counters, &mut values);
    let b = Rc::clone(&a, &mut counters);
    let c = Rc::clone(&b, &mut counters);
    assert_eq!(Rc::strong_count(&a, &counters), 3);
    assert_eq!(Rc::strong_count(&c, &counters), 3);
    assert_eq!(Rc::as_ptr(&a), Rc::as_ptr(&b));
    assert_eq!(Rc::as_ptr(&a), Rc::as_ptr(&c));
    assert_eq!(a.deref(&values), "shared");
    assert_eq!(b.deref(&values), "shared");
    assert_eq!(c.deref(&values), "shared");
    a.drop(&mut counters, &mut values);
    b.drop(&mut counters, &mut values);
    c.drop(&mut counters, &mut values);
}

#[test]
fn n_clones_and_n_plus_one_drops_free_the_value_once() {
    let n = 4;
    let drops = Cell::new(0);
    let mut counters: Heap<usize> = Heap::new(1024);
    let mut values: Heap<Noisy> = Heap::new(1024);
    let first = Rc::new(Noisy { id: 9, drops: &drops }, &mut counters, &mut values);
    let addr = Rc::as_ptr(&first);
    let mut handles = vec![first];
    for _ in 0..n {
        let next = Rc::clone(&handles[0], &mut counters);
        handles.push(next);
    }
    assert_eq!(Rc::strong_count(&handles[0], &counters), n + 1);
    let mut left = n + 1;
    while let Some(handle) = handles.pop() {
        assert_eq!(drops.get(), 0);
        assert!(values.is_live(addr));
        assert_eq!(handle.deref(&values).id, 9);
        assert_eq!(Rc::strong_count(&handle, &counters), left);
        handle.drop(&mut counters, &mut values);
        left -= 1;
    }
    assert_eq!(drops.get(), 1);
    assert!(!values.is_live(addr));
    assert!(!counters.is_live(8));
    std::mem::drop(values);
    assert_eq!(drops.get(), 1);
}

#[test]
fn dropping_one_handle_leaves_the_others_valid() {
    let mut counters: Heap<usize> = Heap::new(1024);
    let mut values: Heap<u32> = Heap::new(1024);
    let a = Rc::new(1, &mut counters, &mut values);
    let b = Rc::clone(&a, &mut counters);
    a.drop(&mut counters, &mut values);
    assert!(b.is_valid(&counters, &values));
    assert_eq!(Rc::strong_count(&b, &counters), 1);
    assert_eq!(*b.deref(&values), 1);
    b.drop(&mut counters, &mut values);
    assert!(!values.is_live(8));
    assert!(!counters.is_live(8));
}

#[test]
fn each_shared_value_has_a_counter_of_its_own() {
    let mut counters: Heap<usize> = Heap::new(1024);
    let mut values: Heap<u32> = Heap::new(1024);
    let a = Rc::new(1, &mut counters, &mut values);
    let b = Rc::new(2, &mut counters, &mut values);
    let a2 = Rc::clone(&a, &mut counters);
    assert_eq!(Rc::strong_count(&a, &counters), 2);
    assert_eq!(Rc::strong_count(&b, &counters), 1);
    assert_ne!(Rc::as_ptr(&a), Rc::as_ptr(&b));
    b.drop(&mut counters, &mut values);
    assert_eq!(*a.deref(&values), 1);
    assert_eq!(*a2.deref(&values), 1);
    a.drop(&mut counters, &mut values);
    a2.drop(&mut counters, &mut values);
}
