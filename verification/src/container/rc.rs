//! The shared pointer.
//!
//! An [`Rc`] is one of several handles to the same value. The handles
//! share a counter, kept in a heap of its own, that says how many of them
//! there are. `clone` makes one more handle, `drop` takes one away, and the
//! drop of the last one destructs the value and releases both blocks.
//! Nothing here is synchronised.

use crate::allocator::{
    allocate, dealloc, has_room_for, holds_one, placed_one, released_one, Box,
};
use crate::heap::{Heap, HeapView};
use vstd::prelude::*;

verus! {

/// One step in the life of a shared value: a handle more, or a handle
/// less.
pub enum HandleOp {
    Clone,
    Drop,
}

/// The number of handles after the steps `ops`, first to last, from `start`
/// handles.
pub open spec fn handles_after(start: int, ops: Seq<HandleOp>) -> int
    decreases ops.len(),
{
    if ops.len() == 0 {
        start
    } else {
        match ops.last() {
            HandleOp::Clone => handles_after(start, ops.drop_last()) + 1,
            HandleOp::Drop => handles_after(start, ops.drop_last()) - 1,
        }
    }
}

/// From `start` handles and after each of the steps `ops`, at least one
/// handle is left and their number can be counted.
pub open spec fn keeps_a_handle(start: int, ops: Seq<HandleOp>) -> bool
    decreases ops.len(),
{
    &&& 1 <= handles_after(start, ops) <= usize::MAX
    &&& ops.len() > 0 ==> keeps_a_handle(start, ops.drop_last())
}

/// A counted handle to a shared value.
pub struct Rc<T> {
    counter: usize,
    data: Box<T>,
}

impl<T> Rc<T> {
    /// The address of the counter.
    pub closed spec fn counter_addr(&self) -> usize {
        self.counter
    }

    /// The address of the value.
    pub closed spec fn data_addr(&self) -> usize {
        self.data.addr()
    }

    /// The counter lives in `counters`, in a block of its own, and counts
    /// at least this handle.
    pub open spec fn counted(&self, counters: HeapView<usize>) -> bool {
        &&& holds_one(counters, self.counter_addr())
        &&& self.count(counters) >= 1
    }

    /// The counter counts at least this handle and the value lives in
    /// `values`.
    pub open spec fn wf(&self, counters: HeapView<usize>, values: HeapView<T>) -> bool {
        &&& self.counted(counters)
        &&& holds_one(values, self.data_addr())
    }

    /// The number of handles to the value.
    pub open spec fn count(&self, counters: HeapView<usize>) -> usize {
        counters.value(self.counter_addr(), 0)
    }

    /// The shared value.
    pub open spec fn value(&self, values: HeapView<T>) -> T {
        values.value(self.data_addr(), 0)
    }

    /// `other` is a handle to the same counter and the same value.
    pub open spec fn aliases(&self, other: &Self) -> bool {
        &&& self.counter_addr() == other.counter_addr()
        &&& self.data_addr() == other.data_addr()
    }

    /// The counters after one more handle has been made.
    pub open spec fn cloned(&self, counters: HeapView<usize>) -> HeapView<usize> {
        counters.write(self.counter_addr(), 0, (self.count(counters) + 1) as usize)
    }

    /// The counters and the values after this handle has been dropped. The
    /// last handle takes the counter's block, destructs the value and takes
    /// its block; any other only counts down.
    pub open spec fn dropped(&self, counters: HeapView<usize>, values: HeapView<T>) -> (
        HeapView<usize>,
        HeapView<T>,
    ) {
        if self.count(counters) == 1 {
            (
                counters.free(self.counter_addr()),
                released_one(values, self.data_addr()),
            )
        } else {
            (counters.write(self.counter_addr(), 0, (self.count(counters) - 1) as usize), values)
        }
    }

    /// Moves `value` into a fresh block of `values` and starts a counter for
    /// it, at one, in a fresh block of `counters`.
    pub fn new(value: T, counters: &mut Heap<usize>, values: &mut Heap<T>) -> (rc: Rc<T>)
        requires
            old(counters).wf(),
            old(values).wf(),
            has_room_for(old(counters)@, 1),
            has_room_for(old(values)@, 1),
        ensures
            final(counters).wf(),
            final(values).wf(),
            placed_one(old(counters)@, final(counters)@, rc.counter_addr(), 1),
            placed_one(old(values)@, final(values)@, rc.data_addr(), value),
            rc.wf(final(counters)@, final(values)@),
            rc.count(final(counters)@) == 1,
            rc.value(final(values)@) == value,
    {
        let counter: usize = allocate::<usize>(1, counters).unwrap();
        let data = Box::new(value, values);
        counters.write(counter, 0, 1);
        Rc { counter, data }
    }

    /// One more handle to the value of `this`.
    pub fn clone(this: &Rc<T>, counters: &mut Heap<usize>) -> (rc: Rc<T>)
        requires
            old(counters).wf(),
            this.counted(old(counters)@),
            this.count(old(counters)@) < usize::MAX,
        ensures
            final(counters).wf(),
            rc.aliases(this),
            final(counters)@ == this.cloned(old(counters)@),
            rc.counted(final(counters)@),
            rc.count(final(counters)@) == this.count(old(counters)@) + 1,
    {
        let count = counters.get_mut(this.counter, 0);
        *count += 1;
        let data = Box::from_raw(Box::as_ptr(&this.data));
        Rc { counter: this.counter, data }
    }

    /// The address of the value. It is for reading the value only: the
    /// block stays with the handles.
    pub fn as_ptr(this: &Rc<T>) -> (ptr: usize)
        ensures
            ptr == this.data_addr(),
    {
        Box::as_ptr(&this.data)
    }

    /// The number of handles to the value.
    pub fn strong_count(this: &Rc<T>, counters: &Heap<usize>) -> (count: usize)
        requires
            counters.wf(),
            this.counted(counters@),
        ensures
            count == this.count(counters@),
    {
        *counters.get(this.counter, 0)
    }

    /// Says whether this handle has a counter of at least one in `counters`
    /// and a value in `values`.
    pub fn is_valid(&self, counters: &Heap<usize>, values: &Heap<T>) -> (r: bool)
        requires
            counters.wf(),
            values.wf(),
        ensures
            r == self.wf(counters@, values@),
    {
        let counter: Box<usize> = Box::from_raw(self.counter);
        counter.is_valid(counters) && *counters.get(self.counter, 0) >= 1 && self.data.is_valid(
            values,
        )
    }

    /// The shared value.
    pub fn deref<'a>(&self, values: &'a Heap<T>) -> (value: &'a T)
        requires
            values.wf(),
            holds_one(values@, self.data_addr()),
        ensures
            *value == self.value(values@),
    {
        self.data.deref(values)
    }

    /// Takes this handle away. The last handle to go destructs the value
    /// and releases the value's block and the counter's.
    pub fn drop(self, counters: &mut Heap<usize>, values: &mut Heap<T>)
        requires
            old(counters).wf(),
            old(values).wf(),
            self.wf(old(counters)@, old(values)@),
        ensures
            final(counters).wf(),
            final(values).wf(),
            (final(counters)@, final(values)@) == self.dropped(old(counters)@, old(values)@),
    {
        let count = counters.get_mut(self.counter, 0);
        *count -= 1;
        if *counters.get(self.counter, 0) == 0 {
            dealloc(self.counter, counters);
            self.data.drop(values);
            assert(counters@.blocks =~= old(counters)@.free(self.counter).blocks);
        }
    }

    /// The counters after `n` more handles have been made, one by one.
    pub open spec fn cloned_times(&self, counters: HeapView<usize>, n: nat) -> HeapView<usize>
        decreases n,
    {
        if n == 0 {
            counters
        } else {
            self.cloned(self.cloned_times(counters, (n - 1) as nat))
        }
    }

    /// The counters and the values after `n` handles have been dropped, one
    /// by one.
    pub open spec fn dropped_times(
        &self,
        counters: HeapView<usize>,
        values: HeapView<T>,
        n: nat,
    ) -> (HeapView<usize>, HeapView<T>)
        decreases n,
    {
        if n == 0 {
            (counters, values)
        } else {
            let (c, v) = self.dropped_times(counters, values, (n - 1) as nat);
            self.dropped(c, v)
        }
    }

    /// Making `n` more handles adds `n` to the count and touches nothing
    /// else.
    pub proof fn lemma_cloned_times(&self, counters: HeapView<usize>, n: nat)
        requires
            self.counted(counters),
            self.count(counters) + n <= usize::MAX,
        ensures
            self.cloned_times(counters, n) == counters.write(
                self.counter_addr(),
                0,
                (self.count(counters) + n) as usize,
            ),
            self.counted(self.cloned_times(counters, n)),
            self.count(self.cloned_times(counters, n)) == self.count(counters) + n,
        decreases n,
    {
        let c = self.counter_addr();
        if n == 0 {
            assert(counters.write(c, 0, self.count(counters)).slots(c) =~= counters.slots(c));
            assert(counters.write(c, 0, self.count(counters)).blocks =~= counters.blocks);
        } else {
            self.lemma_cloned_times(counters, (n - 1) as nat);
            let mid = self.cloned_times(counters, (n - 1) as nat);
            let goal = counters.write(c, 0, (self.count(counters) + n) as usize);
            assert(self.cloned(mid).slots(c) =~= goal.slots(c));
            assert(self.cloned(mid).blocks =~= goal.blocks);
        }
    }

    /// Dropping fewer handles than there are takes that many from the count
    /// and leaves the value where it is.
    pub proof fn lemma_dropped_times(
        &self,
        counters: HeapView<usize>,
        values: HeapView<T>,
        n: nat,
    )
        requires
            self.wf(counters, values),
            n < self.count(counters),
        ensures
            self.dropped_times(counters, values, n) == (
                counters.write(self.counter_addr(), 0, (self.count(counters) - n) as usize),
                values,
            ),
            self.wf(self.dropped_times(counters, values, n).0, values),
        decreases n,
    {
        let c = self.counter_addr();
        if n == 0 {
            assert(counters.write(c, 0, self.count(counters)).slots(c) =~= counters.slots(c));
            assert(counters.write(c, 0, self.count(counters)).blocks =~= counters.blocks);
        } else {
            self.lemma_dropped_times(counters, values, (n - 1) as nat);
            let mid = self.dropped_times(counters, values, (n - 1) as nat).0;
            let goal = counters.write(c, 0, (self.count(counters) - n) as usize);
            assert(self.dropped(mid, values).0.slots(c) =~= goal.slots(c));
            assert(self.dropped(mid, values).0.blocks =~= goal.blocks);
        }
    }

    /// The counters and the values after the steps `ops`, first to last,
    /// each taken on a handle to the value of this one.
    pub open spec fn after(
        &self,
        counters: HeapView<usize>,
        values: HeapView<T>,
        ops: Seq<HandleOp>,
    ) -> (HeapView<usize>, HeapView<T>)
        decreases ops.len(),
    {
        if ops.len() == 0 {
            (counters, values)
        } else {
            let (c, v) = self.after(counters, values, ops.drop_last());
            match ops.last() {
                HandleOp::Clone => (self.cloned(c), v),
                HandleOp::Drop => self.dropped(c, v),
            }
        }
    }

    /// As long as a handle is left, the count is the number of handles:
    /// what it was, plus the clones, minus the drops, in whatever order
    /// they come. The value stays where it is and as it is.
    pub proof fn lemma_count_is_handles(
        &self,
        counters: HeapView<usize>,
        values: HeapView<T>,
        ops: Seq<HandleOp>,
    )
        requires
            self.wf(counters, values),
            keeps_a_handle(self.count(counters) as int, ops),
        ensures
            self.after(counters, values, ops) == (
                counters.write(
                    self.counter_addr(),
                    0,
                    handles_after(self.count(counters) as int, ops) as usize,
                ),
                values,
            ),
            self.wf(self.after(counters, values, ops).0, values),
            self.count(self.after(counters, values, ops).0) == handles_after(
                self.count(counters) as int,
                ops,
            ),
        decreases ops.len(),
    {
        let c = self.counter_addr();
        let start = self.count(counters) as int;
        if ops.len() == 0 {
            assert(counters.write(c, 0, self.count(counters)).slots(c) =~= counters.slots(c));
            assert(counters.write(c, 0, self.count(counters)).blocks =~= counters.blocks);
        } else {
            self.lemma_count_is_handles(counters, values, ops.drop_last());
            let mid = self.after(counters, values, ops.drop_last()).0;
            let goal = counters.write(c, 0, handles_after(start, ops) as usize);
            let end = self.after(counters, values, ops).0;
            assert(end.slots(c) =~= goal.slots(c));
            assert(end.blocks =~= goal.blocks);
        }
    }

    /// After `n` clones of a handle whose count is `m`, the first
    /// `m + n - 1` drops leave the value in place, the same for every
    /// handle to it, and destruct nothing. The drop after those destructs
    /// the value, once, and releases its block and the counter's.
    pub proof fn lemma_last_drop_frees(
        &self,
        other: &Self,
        counters: HeapView<usize>,
        values: HeapView<T>,
        n: nat,
        k: nat,
    )
        requires
            self.wf(counters, values),
            other.aliases(self),
            self.count(counters) + n <= usize::MAX,
            k < self.count(counters) + n,
        ensures
            ({
                let shared = self.cloned_times(counters, n);
                let all = (self.count(counters) + n) as nat;
                let (c_mid, v_mid) = self.dropped_times(shared, values, k);
                let (c_end, v_end) = self.dropped_times(shared, values, all);
                &&& self.wf(c_mid, v_mid)
                &&& self.count(c_mid) == all - k
                &&& v_mid == values
                &&& other.value(v_mid) == self.value(values)
                &&& c_end == counters.free(self.counter_addr())
                &&& v_end.blocks == values.blocks.remove(self.data_addr())
                &&& v_end.destructed == values.destructed.push(self.value(values))
            }),
    {
        let c = self.counter_addr();
        let shared = self.cloned_times(counters, n);
        let all = (self.count(counters) + n) as nat;
        self.lemma_cloned_times(counters, n);
        self.lemma_dropped_times(shared, values, k);
        self.lemma_dropped_times(shared, values, (all - 1) as nat);
        let (c_last, v_last) = self.dropped_times(shared, values, (all - 1) as nat);
        assert(self.count(c_last) == 1);
        let (c_end, v_end) = self.dropped_times(shared, values, all);
        assert((c_end, v_end) == self.dropped(c_last, v_last));
        assert(c_end.blocks =~= counters.free(c).blocks);
        assert(v_end.blocks =~= values.blocks.remove(self.data_addr()));
    }
}

} // verus!
