//! The array whose length is its capacity.
//!
//! A [`FixedArray`] owns a block in which every slot holds an element from
//! the start. Its elements are plain copyable data.

use crate::allocator::{allocate, block_bytes, dealloc, has_room_for};
use crate::container::{copied_at, copy_in, destruct};
use crate::heap::{footprint, Heap, HeapView};
use core::marker::PhantomData;
use vstd::prelude::*;

verus! {

/// A block of `len` slots that all hold elements.
pub struct FixedArray<T> {
    data: usize,
    count: usize,
    marker: PhantomData<T>,
}

impl<T: Copy> FixedArray<T> {
    /// The address of the block this array owns.
    pub closed spec fn addr(&self) -> usize {
        self.data
    }

    /// The number of elements.
    pub closed spec fn spec_len(&self) -> usize {
        self.count
    }

    /// The block of this array lives in `heap`, has `len` slots, and every
    /// one of them holds a value.
    pub open spec fn wf(&self, heap: HeapView<T>) -> bool {
        &&& heap.prefix_written(self.addr(), self.spec_len() as nat)
        &&& heap.slots(self.addr()).len() == self.spec_len()
        &&& heap.blocks[self.addr()].bytes == footprint(block_bytes::<T>(self.spec_len() as nat))
    }

    /// The elements, in index order.
    pub open spec fn elements(&self, heap: HeapView<T>) -> Seq<T> {
        heap.prefix(self.addr(), self.spec_len() as nat)
    }

    /// The heap after this array has been dropped: its elements are
    /// destructed in index order and the block is gone.
    pub open spec fn dropped(&self, heap: HeapView<T>) -> HeapView<T> {
        heap.destroy_prefix(self.addr(), self.spec_len() as nat).free(self.addr())
    }

    /// An array of `count` elements, each a copy of `initial_value`, over a
    /// fresh block.
    pub fn new(initial_value: T, count: usize, heap: &mut Heap<T>) -> (array: FixedArray<T>)
        requires
            old(heap).wf(),
            has_room_for(old(heap)@, count as nat),
        ensures
            final(heap).wf(),
            copied_at(
                old(heap)@,
                final(heap)@,
                array.addr(),
                Seq::new(count as nat, |i: int| initial_value),
            ),
            array.spec_len() == count,
            array.wf(final(heap)@),
            array.elements(final(heap)@) == Seq::new(count as nat, |i: int| initial_value),
    {
        let data: usize = allocate::<T>(count, heap).unwrap();
        let ghost fresh = heap@;
        let ghost values = Seq::new(count as nat, |i: int| initial_value);
        let mut done: usize = 0;
        proof {
            fresh.lemma_fill(data, values, 0);
        }
        while done < count
            invariant
                heap.wf(),
                done <= count,
                fresh.live(data),
                fresh.slots(data).len() == count,
                values == Seq::new(count as nat, |i: int| initial_value),
                heap@ == fresh.fill(data, values.take(done as int)),
            decreases count - done,
        {
            proof {
                fresh.lemma_fill(data, values, done as int);
            }
            heap.write(data, done, initial_value);
            done += 1;
        }
        proof {
            fresh.lemma_fill(data, values, done as int);
        }
        let array = FixedArray { data, count, marker: PhantomData };
        assert(array.elements(heap@) =~= values);
        array
    }

    /// An array of `values.len()` elements that are copies of the elements
    /// of `values`, in order, over a fresh block.
    pub fn from_slice(values: &[T], heap: &mut Heap<T>) -> (array: FixedArray<T>)
        requires
            old(heap).wf(),
            has_room_for(old(heap)@, values@.len()),
        ensures
            final(heap).wf(),
            copied_at(old(heap)@, final(heap)@, array.addr(), values@),
            array.spec_len() == values@.len(),
            array.wf(final(heap)@),
            array.elements(final(heap)@) == values@,
    {
        let data: usize = allocate::<T>(values.len(), heap).unwrap();
        copy_in(heap, data, values);
        let array = FixedArray { data, count: values.len(), marker: PhantomData };
        assert(array.elements(heap@) =~= values@);
        array
    }

    /// The number of elements.
    #[verifier::when_used_as_spec(spec_len)]
    pub fn len(&self) -> (len: usize)
        ensures
            len == self.spec_len(),
    {
        self.count
    }

    /// Says whether this array owns a block of `heap` in which every slot
    /// holds a value.
    pub fn is_valid(&self, heap: &Heap<T>) -> (r: bool)
        requires
            heap.wf(),
        ensures
            r == self.wf(heap@),
    {
        if !heap.is_live(self.data) || heap.slot_count(self.data) != self.count {
            return false;
        }
        let reserved: usize = heap.reserved(self.data);
        let bytes: usize = match self.count.checked_mul(core::mem::size_of::<T>()) {
            Some(0) => 1,
            Some(b) => b,
            None => {
                return false;
            },
        };
        if reserved != bytes {
            return false;
        }
        heap.is_prefix_written(self.data, self.count)
    }

    /// Element `index`.
    pub fn get<'a>(&self, index: usize, heap: &'a Heap<T>) -> (value: &'a T)
        requires
            heap.wf(),
            self.wf(heap@),
            index < self.spec_len(),
        ensures
            *value == self.elements(heap@)[index as int],
    {
        heap.get(self.data, index)
    }

    /// Copies of the elements, in index order.
    pub fn to_vec(&self, heap: &Heap<T>) -> (all: Vec<T>)
        requires
            heap.wf(),
            self.wf(heap@),
        ensures
            all@ == self.elements(heap@),
    {
        let mut all: Vec<T> = Vec::new();
        let mut i: usize = 0;
        while i < self.count
            invariant
                heap.wf(),
                self.wf(heap@),
                i <= self.count,
                all@ == self.elements(heap@).take(i as int),
            decreases self.count - i,
        {
            all.push(*heap.get(self.data, i));
            assert(all@ =~= self.elements(heap@).take(i + 1));
            i += 1;
        }
        assert(all@ =~= self.elements(heap@));
        all
    }

    /// Exclusive access to element `index`.
    pub fn get_mut<'a>(&mut self, index: usize, heap: &'a mut Heap<T>) -> (value: &'a mut T)
        requires
            old(heap).wf(),
            old(self).wf(old(heap)@),
            index < old(self).spec_len(),
        ensures
            *value == old(self).elements(old(heap)@)[index as int],
            *final(self) == *old(self),
            final(heap).wf(),
            final(heap)@ == old(heap)@.write(old(self).addr(), index as int, *final(value)),
            final(self).wf(final(heap)@),
            final(self).elements(final(heap)@) == old(self).elements(old(heap)@).update(
                index as int,
                *final(value),
            ),
    {
        proof {
            let before = old(heap)@;
            let array = *old(self);
            assert forall|v: T| #![trigger before.write(array.addr(), index as int, v)]
                array.wf(before.write(array.addr(), index as int, v)) && array.elements(
                    before.write(array.addr(), index as int, v),
                ) == array.elements(before).update(index as int, v) by {
                let after = before.write(array.addr(), index as int, v);
                assert(array.elements(after) =~= array.elements(before).update(index as int, v));
            }
        }
        heap.get_mut(self.data, index)
    }

    /// Destructs the elements in index order and releases the block.
    pub fn drop(self, heap: &mut Heap<T>)
        requires
            old(heap).wf(),
            self.wf(old(heap)@),
        ensures
            final(heap).wf(),
            final(heap)@ == self.dropped(old(heap)@),
    {
        destruct(heap, self.data, self.count);
        dealloc(self.data, heap);
    }
}

} // verus!
