//! Typed allocation and the owning pointer.
//!
//! [`allocate`] and [`dealloc`] ask a [`Heap`] for room for a number of values
//! of its element type and give it back. A [`Box`] owns one block of exactly
//! one value: dropping it destructs the value and releases the block.

use crate::heap::{footprint, request_align, Heap, HeapView};
use core::marker::PhantomData;
use vstd::layout::{align_of, size_of};
use vstd::prelude::*;

verus! {

/// The bytes that `count` values of type `T` take.
pub open spec fn block_bytes<T>(count: nat) -> nat {
    count * size_of::<T>()
}

/// The alignment a block of values of type `T` is placed at.
pub open spec fn block_align<T>() -> nat {
    request_align(align_of::<T>())
}

/// Some address of `heap` takes a block of `count` values of type `T`.
pub open spec fn has_room_for<T>(heap: HeapView<T>, count: nat) -> bool {
    heap.can_fit(block_bytes::<T>(count), block_align::<T>())
}

/// `after` is `before` with a fresh block of `count` vacant slots for values
/// of type `T` at `addr`, the lowest address that takes one.
pub open spec fn allocated_at<T>(
    before: HeapView<T>,
    after: HeapView<T>,
    addr: usize,
    count: nat,
) -> bool {
    &&& before.is_first_fit(addr as int, block_bytes::<T>(count), block_align::<T>())
    &&& !before.live(addr)
    &&& after == before.allocate(addr, count, block_bytes::<T>(count))
}

/// The block at `addr` is sized for one `T` and holds a value.
pub open spec fn holds_one<T>(heap: HeapView<T>, addr: usize) -> bool {
    &&& heap.live(addr)
    &&& heap.blocks[addr].bytes == footprint(block_bytes::<T>(1))
    &&& heap.slots(addr).len() == 1
    &&& heap.slots(addr)[0] is Some
}

/// `after` is `before` with `value` in a fresh block for one `T` at `addr`,
/// the lowest address that takes one.
pub open spec fn placed_one<T>(
    before: HeapView<T>,
    after: HeapView<T>,
    addr: usize,
    value: T,
) -> bool {
    &&& before.is_first_fit(addr as int, block_bytes::<T>(1), block_align::<T>())
    &&& !before.live(addr)
    &&& after == before.allocate(addr, 1, block_bytes::<T>(1)).write(addr, 0, value)
}

/// The heap after the one value of the block at `addr` has been destructed
/// and the block released.
pub open spec fn released_one<T>(heap: HeapView<T>, addr: usize) -> HeapView<T> {
    heap.destroy(addr, 0).free(addr)
}

/// Asks `heap` for a block of `count` values of type `T`. Returns its
/// address, or `None` where the heap has no room; the heap is then as it
/// was. The slots of the block are vacant.
pub fn allocate<T>(count: usize, heap: &mut Heap<T>) -> (r: Option<usize>)
    requires
        old(heap).wf(),
    ensures
        final(heap).wf(),
        r is Some <==> has_room_for(old(heap)@, count as nat),
        r matches Some(addr) ==> allocated_at(old(heap)@, final(heap)@, addr, count as nat),
        r is None ==> final(heap)@ == old(heap)@,
{
    let size: usize = core::mem::size_of::<T>();
    let align: usize = core::mem::align_of::<T>();
    heap.allocate(count, size, align)
}

/// Says whether `heap` has room for a block of `count` values of type `T`.
pub fn can_alloc<T>(count: usize, heap: &Heap<T>) -> (r: bool)
    requires
        heap.wf(),
    ensures
        r == has_room_for(heap@, count as nat),
{
    let size: usize = core::mem::size_of::<T>();
    let align: usize = core::mem::align_of::<T>();
    heap.has_room(count, size, align)
}

/// Gives the block at `ptr` back to `heap`. No destructor runs.
pub fn dealloc<T>(ptr: usize, heap: &mut Heap<T>)
    requires
        old(heap).wf(),
        old(heap)@.live(ptr),
    ensures
        final(heap).wf(),
        final(heap)@ == old(heap)@.free(ptr),
{
    heap.free(ptr);
}

/// The one owner of a block that holds one value.
pub struct Box<T> {
    data: usize,
    marker: PhantomData<T>,
}

impl<T> Box<T> {
    /// The address of the block this pointer owns.
    pub closed spec fn addr(&self) -> usize {
        self.data
    }

    /// The block of this pointer lives in `heap`, is sized for one `T`, and
    /// its one slot holds a value.
    pub open spec fn wf(&self, heap: HeapView<T>) -> bool {
        holds_one(heap, self.addr())
    }

    /// The value this pointer owns.
    pub open spec fn value(&self, heap: HeapView<T>) -> T {
        heap.value(self.addr(), 0)
    }

    /// The heap after this pointer has been dropped: the value is
    /// destructed and the block is gone.
    pub open spec fn dropped(&self, heap: HeapView<T>) -> HeapView<T> {
        released_one(heap, self.addr())
    }

    /// Moves `value` into a fresh block of `heap`.
    pub fn new(value: T, heap: &mut Heap<T>) -> (b: Box<T>)
        requires
            old(heap).wf(),
            has_room_for(old(heap)@, 1),
        ensures
            final(heap).wf(),
            placed_one(old(heap)@, final(heap)@, b.addr(), value),
            b.wf(final(heap)@),
            b.value(final(heap)@) == value,
    {
        let data: usize = allocate::<T>(1, heap).unwrap();
        heap.write(data, 0, value);
        Box { data, marker: PhantomData }
    }

    /// Moves `value` into a fresh block of `heap`, or returns `None`, with
    /// the heap as it was, where the heap has no room.
    pub fn try_new(value: T, heap: &mut Heap<T>) -> (r: Option<Box<T>>)
        requires
            old(heap).wf(),
        ensures
            final(heap).wf(),
            r is Some <==> has_room_for(old(heap)@, 1),
            r matches Some(b) ==> {
                &&& placed_one(old(heap)@, final(heap)@, b.addr(), value)
                &&& b.wf(final(heap)@)
                &&& b.value(final(heap)@) == value
            },
            r is None ==> final(heap)@ == old(heap)@,
    {
        match allocate::<T>(1, heap) {
            None => None,
            Some(data) => {
                heap.write(data, 0, value);
                Some(Box { data, marker: PhantomData })
            },
        }
    }

    /// Adopts the block at `ptr`. The caller sees to it that no other
    /// pointer owns that block.
    pub fn from_raw(ptr: usize) -> (b: Box<T>)
        ensures
            b.addr() == ptr,
    {
        Box { data: ptr, marker: PhantomData }
    }

    /// Gives up the block without touching it and returns its address.
    pub fn into_raw(this: Box<T>) -> (ptr: usize)
        ensures
            ptr == this.addr(),
    {
        this.data
    }

    /// The address of the block.
    pub fn as_ptr(this: &Box<T>) -> (ptr: usize)
        ensures
            ptr == this.addr(),
    {
        this.data
    }

    /// Says whether this pointer owns a block of `heap` that holds a value.
    pub fn is_valid(&self, heap: &Heap<T>) -> (r: bool)
        requires
            heap.wf(),
        ensures
            r == self.wf(heap@),
    {
        let size: usize = core::mem::size_of::<T>();
        let bytes: usize = if size == 0 {
            1
        } else {
            size
        };
        heap.is_live(self.data) && heap.reserved(self.data) == bytes && heap.slot_count(self.data)
            == 1 && heap.is_written(self.data, 0)
    }

    /// Destructs the value and releases the block.
    pub fn drop(self, heap: &mut Heap<T>)
        requires
            old(heap).wf(),
            self.wf(old(heap)@),
        ensures
            final(heap).wf(),
            final(heap)@ == self.dropped(old(heap)@),
    {
        heap.destroy(self.data, 0);
        dealloc(self.data, heap);
    }

    /// The value.
    pub fn deref<'a>(&self, heap: &'a Heap<T>) -> (value: &'a T)
        requires
            heap.wf(),
            self.wf(heap@),
        ensures
            *value == self.value(heap@),
    {
        heap.get(self.data, 0)
    }

    /// Exclusive access to the value.
    pub fn deref_mut<'a>(&mut self, heap: &'a mut Heap<T>) -> (value: &'a mut T)
        requires
            old(heap).wf(),
            old(self).wf(old(heap)@),
        ensures
            *value == old(self).value(old(heap)@),
            *final(self) == *old(self),
            final(heap).wf(),
            final(heap)@ == old(heap)@.write(old(self).addr(), 0, *final(value)),
            final(self).wf(final(heap)@),
            final(self).value(final(heap)@) == *final(value),
    {
        heap.get_mut(self.data, 0)
    }

    /// A pointer that `into_raw` gave up as `ptr` and `from_raw` adopted
    /// again as `back` owns what `this` owned: it is valid wherever `this`
    /// was and holds the same value. Its drop destructs that value, once,
    /// and releases the block, and leaves neither handle anything to drop
    /// again.
    pub proof fn lemma_raw_round_trip(this: Box<T>, ptr: usize, back: Box<T>, heap: HeapView<T>)
        requires
            this.wf(heap),
            ptr == this.addr(),
            back.addr() == ptr,
        ensures
            back.wf(heap),
            back.value(heap) == this.value(heap),
            back.dropped(heap) == this.dropped(heap),
            back.dropped(heap).destructed == heap.destructed.push(this.value(heap)),
            back.dropped(heap).blocks == heap.blocks.remove(ptr),
            !back.wf(back.dropped(heap)),
            !this.wf(back.dropped(heap)),
    {
        assert(back.dropped(heap).blocks =~= heap.blocks.remove(ptr));
    }
}

} // verus!
