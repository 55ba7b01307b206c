//! Containers whose capacity is chosen once, when they are made.
//!
//! An [`Array`] owns a block of `capacity` slots and keeps a length of its
//! own: the first `len` slots hold its elements, `push` and `pop` work at
//! that end, and nothing ever grows the block.

pub mod fixed;
pub mod rc;

pub use self::fixed::FixedArray;
pub use self::rc::Rc;

use crate::allocator::{
    allocate, allocated_at, block_align, block_bytes, dealloc, has_room_for,
};
use crate::heap::{footprint, Heap, HeapView};
use core::marker::PhantomData;
use vstd::prelude::*;

verus! {

/// Copies `values` into the first slots of the block at `addr`.
pub(crate) fn copy_in<T: Copy>(heap: &mut Heap<T>, addr: usize, values: &[T])
    requires
        old(heap).wf(),
        old(heap)@.live(addr),
        values@.len() <= old(heap)@.slots(addr).len(),
    ensures
        final(heap).wf(),
        final(heap)@ == old(heap)@.fill(addr, values@),
{
    let mut done: usize = 0;
    proof {
        old(heap)@.lemma_fill(addr, values@, 0);
    }
    while done < values.len()
        invariant
            heap.wf(),
            done <= values@.len() <= old(heap)@.slots(addr).len(),
            old(heap)@.live(addr),
            heap@ == old(heap)@.fill(addr, values@.take(done as int)),
        decreases values.len() - done,
    {
        proof {
            old(heap)@.lemma_fill(addr, values@, done as int);
        }
        heap.write(addr, done, values[done]);
        done += 1;
    }
    proof {
        old(heap)@.lemma_fill(addr, values@, done as int);
    }
}

/// Destructs the values in the first `count` slots of the block at `addr`,
/// in index order.
pub(crate) fn destruct<T>(heap: &mut Heap<T>, addr: usize, count: usize)
    requires
        old(heap).wf(),
        old(heap)@.prefix_written(addr, count as nat),
    ensures
        final(heap).wf(),
        final(heap)@ == old(heap)@.destroy_prefix(addr, count as nat),
{
    let mut done: usize = 0;
    proof {
        old(heap)@.lemma_destroy_prefix(addr, count as nat, 0);
    }
    while done < count
        invariant
            heap.wf(),
            done <= count,
            old(heap)@.prefix_written(addr, count as nat),
            heap@ == old(heap)@.destroy_prefix(addr, done as nat),
        decreases count - done,
    {
        proof {
            old(heap)@.lemma_destroy_prefix(addr, count as nat, done as int);
        }
        heap.destroy(addr, done);
        done += 1;
    }
}

/// `after` is `before` with a fresh block at `addr`, the lowest address that
/// takes one, whose slots hold `values`, one each and in order.
pub open spec fn copied_at<T>(
    before: HeapView<T>,
    after: HeapView<T>,
    addr: usize,
    values: Seq<T>,
) -> bool {
    &&& before.is_first_fit(addr as int, block_bytes::<T>(values.len()), block_align::<T>())
    &&& !before.live(addr)
    &&& after == before.allocate(addr, values.len(), block_bytes::<T>(values.len())).fill(
        addr,
        values,
    )
}

/// What `push` answers and leaves behind, on an array of capacity `cap`
/// that holds `elements`.
pub open spec fn push_result<T>(elements: Seq<T>, cap: nat, value: T) -> (bool, Seq<T>) {
    if elements.len() < cap {
        (true, elements.push(value))
    } else {
        (false, elements)
    }
}

/// What `pop` hands out and leaves behind, on an array that holds
/// `elements`.
pub open spec fn pop_result<T>(elements: Seq<T>) -> (Option<T>, Seq<T>) {
    if elements.len() > 0 {
        (Some(elements.last()), elements.drop_last())
    } else {
        (None, elements)
    }
}

/// One step on an array: a push of a value, or a pop.
pub enum ArrayOp<T> {
    Push(T),
    Pop,
}

/// The elements after one step.
pub open spec fn step<T>(elements: Seq<T>, cap: nat, op: ArrayOp<T>) -> Seq<T> {
    match op {
        ArrayOp::Push(value) => push_result(elements, cap, value).1,
        ArrayOp::Pop => pop_result(elements).1,
    }
}

/// The elements after the steps `ops`, first to last.
pub open spec fn run<T>(elements: Seq<T>, cap: nat, ops: Seq<ArrayOp<T>>) -> Seq<T>
    decreases ops.len(),
{
    if ops.len() == 0 {
        elements
    } else {
        step(run(elements, cap, ops.drop_last()), cap, ops.last())
    }
}

/// The elements after each of `values` has been pushed, first to last.
pub open spec fn push_all<T>(elements: Seq<T>, cap: nat, values: Seq<T>) -> Seq<T>
    decreases values.len(),
{
    if values.len() == 0 {
        elements
    } else {
        push_result(push_all(elements, cap, values.drop_last()), cap, values.last()).1
    }
}

/// Whatever is pushed and popped, and in whatever order, an array never
/// holds more elements than its capacity.
pub proof fn lemma_length_within_capacity<T>(elements: Seq<T>, cap: nat, ops: Seq<ArrayOp<T>>)
    requires
        elements.len() <= cap,
    ensures
        run(elements, cap, ops).len() <= cap,
    decreases ops.len(),
{
    if ops.len() > 0 {
        lemma_length_within_capacity(elements, cap, ops.drop_last());
    }
}

/// On an empty array of capacity `cap`, the first `cap` pushes in a row
/// succeed and every push after them fails: what the array holds in the end
/// are the first `cap` of the values, in order.
pub proof fn lemma_push_fills_then_fails<T>(cap: nat, values: Seq<T>)
    ensures
        forall|k: int|
            0 <= k < values.len() ==> #[trigger] push_result(
                push_all(Seq::empty(), cap, values.take(k)),
                cap,
                values[k],
            ).0 == (k < cap),
        values.len() <= cap ==> push_all(Seq::empty(), cap, values) == values,
        values.len() > cap ==> push_all(Seq::empty(), cap, values) == values.take(cap as int),
    decreases values.len(),
{
    if values.len() > 0 {
        let front = values.drop_last();
        lemma_push_fills_then_fails(cap, front);
        assert(values.take(values.len() - 1) =~= front);
        if values.len() <= cap {
            assert(front.push(values.last()) =~= values);
        } else if values.len() == cap + 1 {
            assert(front =~= values.take(cap as int));
        } else {
            assert(front.take(cap as int) =~= values.take(cap as int));
        }
        assert forall|k: int| 0 <= k < values.len() implies #[trigger] push_result(
            push_all(Seq::empty(), cap, values.take(k)),
            cap,
            values[k],
        ).0 == (k < cap) by {
            if k < values.len() - 1 {
                assert(front.take(k) =~= values.take(k));
                assert(front[k] == values[k]);
            } else {
                assert(values.take(k) =~= front);
            }
        }
    } else {
        assert(push_all(Seq::<T>::empty(), cap, values) =~= values);
    }
}

/// A pop on an empty array hands out nothing and leaves the array empty.
pub proof fn lemma_pop_on_empty<T>()
    ensures
        pop_result(Seq::<T>::empty()) == (None::<T>, Seq::<T>::empty()),
{
}

/// A block that was made as a copy of `values` reads back as `values`, slot
/// by slot. It is a block of its own: no block that lived before it is
/// touched by the copy, nor by a later write into the copy.
pub proof fn lemma_copy_is_apart<T>(
    before: HeapView<T>,
    after: HeapView<T>,
    addr: usize,
    values: Seq<T>,
    source: usize,
    index: int,
    value: T,
)
    requires
        copied_at(before, after, addr, values),
        before.live(source),
        0 <= index < values.len(),
    ensures
        after.prefix_written(addr, values.len()),
        after.prefix(addr, values.len()) == values,
        after.blocks[source] == before.blocks[source],
        after.write(addr, index, value).blocks[source] == before.blocks[source],
        after.write(addr, index, value).prefix(addr, values.len()) == values.update(index, value),
{
    assert(after.prefix(addr, values.len()) =~= values);
    assert(after.write(addr, index, value).prefix(addr, values.len()) =~= values.update(
        index,
        value,
    ));
}

/// Dropping an array right after it was made as a copy of `values`
/// destructs each of `values` once, in order, and leaves the heap's blocks
/// as they were before the array was made.
pub proof fn lemma_copy_then_drop<T>(
    before: HeapView<T>,
    after: HeapView<T>,
    addr: usize,
    values: Seq<T>,
)
    requires
        copied_at(before, after, addr, values),
    ensures
        after.destroy_prefix(addr, values.len()).free(addr) == (HeapView {
            destructed: before.destructed + values,
            ..before
        }),
{
    let end = after.destroy_prefix(addr, values.len()).free(addr);
    assert(after.prefix(addr, values.len()) =~= values);
    assert(end.blocks =~= before.blocks);
}

/// A block of `capacity` slots of which the first `len` hold elements.
pub struct Array<T> {
    data: usize,
    len: isize,
    cap: usize,
    marker: PhantomData<T>,
}

impl<T> Array<T> {
    /// The address of the block this array owns.
    pub closed spec fn addr(&self) -> usize {
        self.data
    }

    /// The number of slots of the block.
    pub closed spec fn capacity(&self) -> usize {
        self.cap
    }

    /// The number of elements.
    pub closed spec fn spec_len(&self) -> isize {
        self.len
    }

    /// The block of this array lives in `heap`, has `capacity` slots, and
    /// its first `len` slots hold values.
    pub open spec fn wf(&self, heap: HeapView<T>) -> bool {
        &&& 0 <= self.spec_len() <= self.capacity() <= isize::MAX
        &&& heap.prefix_written(self.addr(), self.spec_len() as nat)
        &&& heap.slots(self.addr()).len() == self.capacity()
        &&& heap.blocks[self.addr()].bytes == footprint(block_bytes::<T>(self.capacity() as nat))
    }

    /// The elements, in index order.
    pub open spec fn elements(&self, heap: HeapView<T>) -> Seq<T> {
        heap.prefix(self.addr(), self.spec_len() as nat)
    }

    /// This array is `before` but for its length, which is `len`.
    pub open spec fn resized(&self, before: &Self, len: int) -> bool {
        &&& self.addr() == before.addr()
        &&& self.capacity() == before.capacity()
        &&& self.spec_len() == len
    }

    /// `after` is `before` with a fresh block of `cap` vacant slots, which
    /// this array owns and holds no element of.
    pub open spec fn holds_new(&self, before: HeapView<T>, after: HeapView<T>, cap: usize) -> bool {
        &&& allocated_at(before, after, self.addr(), cap as nat)
        &&& self.capacity() == cap
        &&& self.spec_len() == 0
    }

    /// The heap after this array has been dropped: its elements are
    /// destructed in index order and the block is gone.
    pub open spec fn dropped(&self, heap: HeapView<T>) -> HeapView<T> {
        heap.destroy_prefix(self.addr(), self.spec_len() as nat).free(self.addr())
    }

    /// An array without elements over a fresh block of `cap` slots.
    pub fn new(cap: usize, heap: &mut Heap<T>) -> (array: Array<T>)
        requires
            old(heap).wf(),
            cap <= isize::MAX,
            has_room_for(old(heap)@, cap as nat),
        ensures
            final(heap).wf(),
            array.holds_new(old(heap)@, final(heap)@, cap),
            array.wf(final(heap)@),
            array.elements(final(heap)@) == Seq::<T>::empty(),
    {
        let data: usize = allocate::<T>(cap, heap).unwrap();
        let array = Array { data, len: 0, cap, marker: PhantomData };
        assert(array.elements(heap@) =~= Seq::<T>::empty());
        array
    }

    /// Declares that the first `len` slots hold elements, after they were
    /// written through the heap and not through this array.
    pub fn assume_init(&mut self, len: isize, heap: &Heap<T>)
        requires
            heap.wf(),
            old(self).wf(heap@),
            0 <= len <= old(self).capacity(),
            heap@.prefix_written(old(self).addr(), len as nat),
        ensures
            final(self).resized(old(self), len as int),
            final(self).wf(heap@),
            final(self).elements(heap@) == heap@.prefix(old(self).addr(), len as nat),
    {
        self.len = len;
    }

    /// Appends `value`, unless the array is full: then nothing changes and
    /// `value` is dropped.
    pub fn push(&mut self, value: T, heap: &mut Heap<T>) -> (pushed: bool)
        requires
            old(heap).wf(),
            old(self).wf(old(heap)@),
        ensures
            final(heap).wf(),
            final(self).wf(final(heap)@),
            (pushed, final(self).elements(final(heap)@)) == push_result(
                old(self).elements(old(heap)@),
                old(self).capacity() as nat,
                value,
            ),
            pushed ==> final(self).resized(old(self), old(self).spec_len() + 1) && final(heap)@
                == old(heap)@.write(old(self).addr(), old(self).spec_len() as int, value),
            !pushed ==> *final(self) == *old(self) && final(heap)@ == old(heap)@,
    {
        if self.len as usize == self.cap {
            return false;
        }
        heap.write(self.data, self.len as usize, value);
        self.len = self.len + 1;
        assert(self.elements(heap@) =~= old(self).elements(old(heap)@).push(value));
        true
    }

    /// Removes the last element and hands it out, or returns `None` where
    /// the array is empty. The slot is vacant afterwards.
    pub fn pop(&mut self, heap: &mut Heap<T>) -> (popped: Option<T>)
        requires
            old(heap).wf(),
            old(self).wf(old(heap)@),
        ensures
            final(heap).wf(),
            final(self).wf(final(heap)@),
            (popped, final(self).elements(final(heap)@)) == pop_result(
                old(self).elements(old(heap)@),
            ),
            popped is Some ==> final(self).resized(old(self), old(self).spec_len() - 1)
                && final(heap)@ == old(heap)@.take(
                old(self).addr(),
                old(self).spec_len() - 1,
            ),
            popped is None ==> *final(self) == *old(self) && final(heap)@ == old(heap)@,
    {
        if self.len > 0 {
            self.len = self.len - 1;
            let value = heap.take(self.data, self.len as usize);
            assert(self.elements(heap@) =~= old(self).elements(old(heap)@).drop_last());
            Some(value)
        } else {
            None
        }
    }

    /// The number of elements.
    #[verifier::when_used_as_spec(spec_len)]
    pub fn len(&self) -> (len: isize)
        ensures
            len == self.spec_len(),
    {
        self.len
    }

    /// Says whether this array owns a block of `heap` whose first `len`
    /// slots hold values.
    pub fn is_valid(&self, heap: &Heap<T>) -> (r: bool)
        requires
            heap.wf(),
        ensures
            r == self.wf(heap@),
    {
        if self.len < 0 || self.cap > isize::MAX as usize || self.len as usize > self.cap {
            return false;
        }
        if !heap.is_live(self.data) || heap.slot_count(self.data) != self.cap {
            return false;
        }
        let reserved: usize = heap.reserved(self.data);
        let bytes: usize = match self.cap.checked_mul(core::mem::size_of::<T>()) {
            Some(0) => 1,
            Some(b) => b,
            None => {
                return false;
            },
        };
        if reserved != bytes {
            return false;
        }
        heap.is_prefix_written(self.data, self.len as usize)
    }

    /// Element `index`.
    pub fn get<'a>(&self, index: usize, heap: &'a Heap<T>) -> (value: &'a T)
        requires
            heap.wf(),
            self.wf(heap@),
            index < self.spec_len(),
        ensures
            *value == self.elements(heap@)[index as int],
    {
        heap.get(self.data, index)
    }

    /// The elements, in index order.
    pub fn refs<'a>(&self, heap: &'a Heap<T>) -> (all: Vec<&'a T>)
        requires
            heap.wf(),
            self.wf(heap@),
        ensures
            all@.len() == self.elements(heap@).len(),
            forall|i: int| 0 <= i < all@.len() ==> *all@[i] == self.elements(heap@)[i],
    {
        let mut all: Vec<&'a T> = Vec::new();
        let mut i: usize = 0;
        while i < self.len as usize
            invariant
                heap.wf(),
                self.wf(heap@),
                i <= self.len,
                all@.len() == i,
                forall|j: int| 0 <= j < i ==> *all@[j] == self.elements(heap@)[j],
            decreases self.len - i,
        {
            all.push(heap.get(self.data, i));
            i += 1;
        }
        all
    }

    /// Exclusive access to element `index`.
    pub fn get_mut<'a>(&mut self, index: usize, heap: &'a mut Heap<T>) -> (value: &'a mut T)
        requires
            old(heap).wf(),
            old(self).wf(old(heap)@),
            index < old(self).spec_len(),
        ensures
            *value == old(self).elements(old(heap)@)[index as int],
            *final(self) == *old(self),
            final(heap).wf(),
            final(heap)@ == old(heap)@.write(old(self).addr(), index as int, *final(value)),
            final(self).wf(final(heap)@),
            final(self).elements(final(heap)@) == old(self).elements(old(heap)@).update(
                index as int,
                *final(value),
            ),
    {
        proof {
            let before = old(heap)@;
            let array = *old(self);
            assert forall|v: T| #![trigger before.write(array.addr(), index as int, v)]
                array.wf(before.write(array.addr(), index as int, v)) && array.elements(
                    before.write(array.addr(), index as int, v),
                ) == array.elements(before).update(index as int, v) by {
                let after = before.write(array.addr(), index as int, v);
                assert(array.elements(after) =~= array.elements(before).update(index as int, v));
            }
        }
        heap.get_mut(self.data, index)
    }

    /// Destructs the elements in index order and releases the block.
    pub fn drop(self, heap: &mut Heap<T>)
        requires
            old(heap).wf(),
            self.wf(old(heap)@),
        ensures
            final(heap).wf(),
            final(heap)@ == self.dropped(old(heap)@),
    {
        destruct(heap, self.data, self.len as usize);
        dealloc(self.data, heap);
    }
}

impl<T: Copy> Array<T> {
    /// A full array over a fresh block of `array.len()` slots that holds
    /// copies of the elements of `array`, in order.
    pub fn from_slice(array: &[T], heap: &mut Heap<T>) -> (made: Array<T>)
        requires
            old(heap).wf(),
            array@.len() <= isize::MAX,
            has_room_for(old(heap)@, array@.len()),
        ensures
            final(heap).wf(),
            copied_at(old(heap)@, final(heap)@, made.addr(), array@),
            made.capacity() == array@.len(),
            made.spec_len() == array@.len(),
            made.wf(final(heap)@),
            made.elements(final(heap)@) == array@,
    {
        let data: usize = allocate::<T>(array.len(), heap).unwrap();
        copy_in(heap, data, array);
        let made = Array { data, len: array.len() as isize, cap: array.len(), marker: PhantomData };
        assert(made.elements(heap@) =~= array@);
        made
    }
}

} // verus!
