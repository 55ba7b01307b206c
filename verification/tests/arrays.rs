use lstd::container::{Array, FixedArray};
use lstd::heap::Heap;
use std::cell::Cell;

struct Noisy<'a> {
    id: u32,
    drops: &'a Cell<u32>,
    order: &'a Cell<u32>,
}

impl<'a> Drop for Noisy<'a> {
    fn drop(&mut self) {
        self.drops.set(self.drops.get() + 1);
        self.order.set(self.order.get() * 10 + self.id);
    }
}

#[test]
fn new_array_is_empty() {
    let mut heap: Heap<u32> = Heap::new(1024);
    let array: Array<u32> = Array::new(4, &mut heap);
    assert_eq!(array.len(), 0);
    assert!(array.is_valid(&heap));
    assert_eq!(heap.slot_count(8), 4);
    assert_eq!(heap.reserved(8), 16);
    array.drop(&mut heap);
    assert!(!heap.is_live(8));
}

#[test]
fn push_succeeds_capacity_times_then_fails() {
    let capacity = 5;
    let mut heap: Heap<u32> = Heap::new(1024);
    let mut array: Array<u32> = Array::new(capacity, &mut heap);
    for i in 0..capacity {
        assert!(array.push(i as u32 * 10, &mut heap));
        assert_eq!(array.len(), i as isize + 1);
    }
    assert!(!array.push(99, &mut heap));
    assert!(!array.push(100, &mut heap));
    assert_eq!(array.len(), capacity as isize);
    for i in 0..capacity {
        assert_eq!(*array.get(i, &heap), i as u32 * 10);
    }
    array.drop(&mut heap);
}

#[test]
fn pop_hands_out_the_last_element() {
    let mut heap: Heap<String> = Heap::new(1024);
    let mut array: Array<String> = Array::new(3, &mut heap);
    assert!(array.push(String::from("a"), &mut heap));
    assert!(array.push(String::from("b"), &mut heap));
    assert_eq!(array.pop(&mut heap), Some(String::from("b")));
    assert_eq!(array.len(), 1);
    assert!(array.push(String::from("c"), &mut heap));
    assert!(array.push(String::from("d"), &mut heap));
    assert!(!array.push(String::from("e"), &mut heap));
    assert_eq!(array.pop(&mut heap), Some(String::from("d")));
    assert_eq!(array.pop(&mut heap), Some(String::from("c")));
    assert_eq!(array.pop(&mut heap), Some(String::from("a")));
    assert_eq!(array.len(), 0);
    array.drop(&mut heap);
}

#[test]
fn pop_on_an_empty_array_reports_empty() {
    let mut heap: Heap<u32> = Heap::new(1024);
    let mut array: Array<u32> = Array::new(2, &mut heap);
    assert_eq!(array.pop(&mut heap), None);
    assert_eq!(array.len(), 0);
    assert!(array.push(1, &mut heap));
    assert_eq!(array.pop(&mut heap), Some(1));
    assert_eq!(array.pop(&mut heap), None);
    assert_eq!(array.pop(&mut heap), None);
    array.drop(&mut heap);
}

#[test]
fn an_array_of_capacity_zero_takes_nothing() {
    let mut heap: Heap<u32> = Heap::new(1024);
    let mut array: Array<u32> = Array::new(0, &mut heap);
    assert!(!array.push(1, &mut heap));
    assert_eq!(array.pop(&mut heap), None);
    assert_eq!(array.len(), 0);
    array.drop(&mut heap);
}

#[test]
fn length_stays_within_capacity_over_mixed_steps() {
    let mut heap: Heap<u32> = Heap::new(1024);
    let mut array: Array<u32> = Array::new(3, &mut heap);
    let steps = [1, 1, 0, 1, 1, 1, 1, 0, 0, 0, 0, 0, 1];
    let lengths = [1, 2, 1, 2, 3, 3, 3, 2, 1, 0, 0, 0, 1];
    for i in 0..steps.len() {
        if steps[i] == 1 {
            array.push(i as u32, &mut heap);
        } else {
            array.pop(&mut heap);
        }
        assert_eq!(array.len(), lengths[i]);
        assert!(array.len() <= 3);
        assert!(array.is_valid(&heap));
    }
    array.drop(&mut heap);
}

#[test]
fn from_slice_reads_back_the_input() {
    let input = [3u32, 1, 4, 1, 5, 9, 2, 6];
    let mut heap: Heap<u32> = Heap::new(1024);
    let array = Array::from_slice(&input, &mut heap);
    assert_eq!(array.len(), 8);
    for i in 0..input.len() {
        assert_eq!(*array.get(i, &heap), input[i]);
    }
    let mut array = array;
    assert!(!array.push(7, &mut heap));
    array.drop(&mut heap);
}

#[test]
fn changing_a_copy_leaves_the_input_alone() {
    let input = [1u32, 2, 3];
    let mut heap: Heap<u32> = Heap::new(1024);
    let mut array = Array::from_slice(&input, &mut heap);
    *array.get_mut(1, &mut heap) = 20;
    assert_eq!(array.pop(&mut heap), Some(3));
    assert!(array.push(30, &mut heap));
    assert_eq!(*array.get(0, &heap), 1);
    assert_eq!(*array.get(1, &heap), 20);
    assert_eq!(*array.get(2, &heap), 30);
    assert_eq!(input, [1, 2, 3]);
    array.drop(&mut heap);
}

#[test]
fn a_copy_of_an_array_is_a_block_of_its_own() {
    let mut heap: Heap<u32> = Heap::new(1024);
    let source = FixedArray::from_slice(&[1, 2, 3], &mut heap);
    let seen = [*source.get(0, &heap), *source.get(1, &heap), *source.get(2, &heap)];
    let mut copy = Array::from_slice(&seen, &mut heap);
    *copy.get_mut(0, &mut heap) = 100;
    assert_eq!(*source.get(0, &heap), 1);
    assert_eq!(*copy.get(0, &heap), 100);
    copy.drop(&mut heap);
    assert_eq!(*source.get(2, &heap), 3);
    source.drop(&mut heap);
}

#[test]
fn from_slice_of_nothing_is_an_empty_full_array() {
    let input: [u32; 0] = [];
    let mut heap: Heap<u32> = Heap::new(1024);
    let mut array = Array::from_slice(&input, &mut heap);
    assert_eq!(array.len(), 0);
    assert!(!array.push(1, &mut heap));
    array.drop(&mut heap);
}

#[test]
fn assume_init_adopts_slots_written_through_the_heap() {
    let mut heap: Heap<u32> = Heap::new(1024);
    let mut array: Array<u32> = Array::new(4, &mut heap);
    heap.write(8, 0, 11);
    heap.write(8, 1, 22);
    heap.write(8, 2, 33);
    assert_eq!(array.len(), 0);
    array.assume_init(3, &heap);
    assert_eq!(array.len(), 3);
    assert!(array.is_valid(&heap));
    assert_eq!(*array.get(2, &heap), 33);
    assert_eq!(array.pop(&mut heap), Some(33));
    assert!(array.push(44, &mut heap));
    assert!(array.push(55, &mut heap));
    assert!(!array.push(66, &mut heap));
    array.drop(&mut heap);
}

#[test]
fn an_array_with_unwritten_slots_below_its_length_is_not_valid() {
    let mut heap: Heap<u32> = Heap::new(1024);
    let array: Array<u32> = Array::new(4, &mut heap);
    assert!(array.is_valid(&heap));
    heap.free(8);
    assert!(!array.is_valid(&heap));
}

#[test]
fn drop_destructs_each_element_once_in_index_order() {
    let drops = Cell::new(0);
    let order = Cell::new(0);
    let mut heap: Heap<Noisy> = Heap::new(1024);
    let mut array: Array<Noisy> = Array::new(5, &mut heap);
    for id in 1..=4 {
        assert!(array.push(Noisy { id, drops: &drops, order: &order }, &mut heap));
    }
    let last = array.pop(&mut heap).unwrap();
    assert_eq!(last.id, 4);
    assert_eq!(drops.get(), 0);
    array.drop(&mut heap);
    assert_eq!(drops.get(), 3);
    assert_eq!(order.get(), 123);
    assert!(!heap.is_live(8));
    std::mem::drop(last);
    assert_eq!(drops.get(), 4);
    std::mem::drop(heap);
    assert_eq!(drops.get(), 4);
}

#[test]
fn a_refused_push_drops_the_value() {
    let drops = Cell::new(0);
    let order = Cell::new(0);
    let mut heap: Heap<Noisy> = Heap::new(1024);
    let mut array: Array<Noisy> = Array::new(1, &mut heap);
    assert!(array.push(Noisy { id: 1, drops: &drops, order: &order }, &mut heap));
    assert!(!array.push(Noisy { id: 2, drops: &drops, order: &order }, &mut heap));
    assert_eq!(drops.get(), 1);
    assert_eq!(order.get(), 2);
    assert_eq!(array.get(0, &heap).id, 1);
    array.drop(&mut heap);
    assert_eq!(drops.get(), 2);
}

#[test]
fn fixed_array_new_fills_every_slot() {
    let mut heap: Heap<u16> = Heap::new(1024);
    let array = FixedArray::new(7u16, 5, &mut heap);
    assert_eq!(array.len(), 5);
    for i in 0..5 {
        assert_eq!(*array.get(i, &heap), 7);
    }
    assert_eq!(heap.slot_count(8), 5);
    assert_eq!(heap.reserved(8), 10);
    for i in 0..5 {
        assert!(heap.is_written(8, i));
    }
    array.drop(&mut heap);
    assert!(!heap.is_live(8));
}

#[test]
fn fixed_array_from_slice_copies_in_order() {
    let input = [10u8, 20, 30];
    let mut heap: Heap<u8> = Heap::new(1024);
    let mut array = FixedArray::from_slice(&input, &mut heap);
    assert_eq!(array.len(), 3);
    assert_eq!(*array.get(0, &heap), 10);
    assert_eq!(*array.get(1, &heap), 20);
    assert_eq!(*array.get(2, &heap), 30);
    *array.get_mut(2, &mut heap) = 31;
    assert_eq!(*array.get(2, &heap), 31);
    assert_eq!(array.len(), 3);
    assert_eq!(input, [10, 20, 30]);
    array.drop(&mut heap);
}

#[test]
fn fixed_array_of_no_elements() {
    let mut heap: Heap<u8> = Heap::new(1024);
    let array = FixedArray::new(1u8, 0, &mut heap);
    assert_eq!(array.len(), 0);
    assert!(heap.is_live(8));
    array.drop(&mut heap);
    assert!(!heap.is_live(8));
}

#[test]
fn refs_walk_the_elements_in_order() {
    let mut heap: Heap<String> = Heap::new(1024);
    let mut array: Array<String> = Array::new(3, &mut heap);
    assert!(array.refs(&heap).is_empty());
    assert!(array.push(String::from("x"), &mut heap));
    assert!(array.push(String::from("y"), &mut heap));
    let seen: Vec<&String> = array.refs(&heap);
    assert_eq!(seen.len(), 2);
    assert_eq!(seen[0], "x");
    assert_eq!(seen[1], "y");
    array.drop(&mut heap);
}

#[test]
fn to_vec_copies_the_elements_in_order() {
    let mut heap: Heap<u32> = Heap::new(1024);
    let mut array = FixedArray::from_slice(&[5, 6, 7], &mut heap);
    assert_eq!(array.to_vec(&heap), vec![5, 6, 7]);
    *array.get_mut(0, &mut heap) = 4;
    assert_eq!(array.to_vec(&heap), vec![4, 6, 7]);
    assert!(array.is_valid(&heap));
    array.drop(&mut heap);
    let none = FixedArray::new(0u32, 0, &mut heap);
    assert_eq!(none.to_vec(&heap), Vec::<u32>::new());
    none.drop(&mut heap);
}
