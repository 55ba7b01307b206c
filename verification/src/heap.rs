//! The memory that every pointer and container of this library lives in.
//!
//! A [`Heap`] is an address space for values of one type. It hands out
//! blocks of slots at aligned, pairwise disjoint byte ranges, takes them
//! back, and gives access to single slots by block address and index. A
//! slot is either vacant or holds a value; a fresh block is vacant
//! throughout.

use core::mem::ManuallyDrop;
use vstd::prelude::*;

verus! {

/// The lowest address a heap hands out. Address zero never names a block.
pub const BASE_ADDRESS: usize = 8;

/// The weakest alignment a block is placed at.
pub const MIN_ALIGN: usize = 8;

/// The alignment a request for elements aligned to `elem_align` is placed at.
pub open spec fn request_align(elem_align: nat) -> nat {
    if elem_align < MIN_ALIGN {
        MIN_ALIGN as nat
    } else {
        elem_align
    }
}

/// The bytes a block of `bytes` bytes reserves. A block of no bytes still
/// takes one address, so that live blocks keep distinct addresses.
pub open spec fn footprint(bytes: nat) -> nat {
    if bytes == 0 {
        1
    } else {
        bytes
    }
}

/// The least multiple of `align` that is not below `addr`.
pub open spec fn align_up(addr: int, align: int) -> int {
    if addr % align == 0 {
        addr
    } else {
        addr + (align - addr % align)
    }
}

/// What a heap knows of one live block.
pub struct BlockView<T> {
    /// The bytes reserved, starting at the block's address.
    pub bytes: nat,
    /// The slots of the block, in index order.
    pub slots: Seq<Option<T>>,
}

/// The mathematical value of a [`Heap`].
pub struct HeapView<T> {
    /// The live blocks, by address.
    pub blocks: Map<usize, BlockView<T>>,
    /// The end of the address space: blocks lie in `BASE_ADDRESS..limit`.
    pub limit: nat,
    /// The values whose destructor the heap has run, oldest first.
    pub destructed: Seq<T>,
}

impl<T> HeapView<T> {
    /// The heap without blocks whose address space ends at `limit`.
    pub open spec fn empty(limit: nat) -> Self {
        HeapView { blocks: Map::empty(), limit, destructed: Seq::empty() }
    }

    /// A block lives at `addr`.
    pub open spec fn live(self, addr: usize) -> bool {
        self.blocks.dom().contains(addr)
    }

    /// The slots of the block at `addr`.
    pub open spec fn slots(self, addr: usize) -> Seq<Option<T>> {
        self.blocks[addr].slots
    }

    /// Slot `index` of the block at `addr` exists.
    pub open spec fn in_bounds(self, addr: usize, index: int) -> bool {
        self.live(addr) && 0 <= index < self.slots(addr).len()
    }

    /// Slot `index` of the block at `addr` exists and holds a value.
    pub open spec fn written(self, addr: usize, index: int) -> bool {
        self.in_bounds(addr, index) && self.slots(addr)[index] is Some
    }

    /// The value in slot `index` of the block at `addr`.
    pub open spec fn value(self, addr: usize, index: int) -> T {
        self.slots(addr)[index]->0
    }

    /// No live block reserves a byte of `lo..hi`.
    pub open spec fn range_free(self, lo: int, hi: int) -> bool {
        forall|a: usize| #[trigger]
            self.blocks.dom().contains(a) ==> a + self.blocks[a].bytes <= lo || hi <= a
    }

    /// A block of `bytes` bytes aligned to `align` can be placed at `addr`.
    pub open spec fn fits_at(self, addr: int, bytes: nat, align: nat) -> bool {
        &&& BASE_ADDRESS <= addr
        &&& addr % (align as int) == 0
        &&& addr + footprint(bytes) <= self.limit
        &&& self.range_free(addr, addr + footprint(bytes))
    }

    /// Some address takes a block of `bytes` bytes aligned to `align`.
    pub open spec fn can_fit(self, bytes: nat, align: nat) -> bool {
        exists|addr: int| self.fits_at(addr, bytes, align)
    }

    /// `addr` is the lowest address that takes such a block.
    pub open spec fn is_first_fit(self, addr: int, bytes: nat, align: nat) -> bool {
        &&& self.fits_at(addr, bytes, align)
        &&& forall|other: int| self.fits_at(other, bytes, align) ==> addr <= other
    }

    /// The heap after a fresh block of `count` vacant slots and `bytes`
    /// bytes has been placed at `addr`.
    pub open spec fn allocate(self, addr: usize, count: nat, bytes: nat) -> Self {
        HeapView {
            blocks: self.blocks.insert(
                addr,
                BlockView { bytes: footprint(bytes), slots: Seq::new(count, |i: int| None) },
            ),
            ..self
        }
    }

    /// The heap after the block at `addr` has been released.
    pub open spec fn free(self, addr: usize) -> Self {
        HeapView { blocks: self.blocks.remove(addr), ..self }
    }

    /// The heap after slot `index` of the block at `addr` has been set to
    /// `content`.
    pub open spec fn with_slot(self, addr: usize, index: int, content: Option<T>) -> Self {
        HeapView {
            blocks: self.blocks.insert(
                addr,
                BlockView {
                    slots: self.blocks[addr].slots.update(index, content),
                    ..self.blocks[addr]
                },
            ),
            ..self
        }
    }

    /// The heap after `value` has been written to a slot.
    pub open spec fn write(self, addr: usize, index: int, value: T) -> Self {
        self.with_slot(addr, index, Some(value))
    }

    /// The heap after the value of a slot has been moved out.
    pub open spec fn take(self, addr: usize, index: int) -> Self {
        self.with_slot(addr, index, None)
    }

    /// The heap after the value of a slot has been destructed in place.
    pub open spec fn destroy(self, addr: usize, index: int) -> Self {
        HeapView {
            destructed: self.destructed.push(self.value(addr, index)),
            ..self.with_slot(addr, index, None)
        }
    }

    /// The heap after `values` have been written to the first slots of the
    /// block at `addr`, one per slot.
    pub open spec fn fill(self, addr: usize, values: Seq<T>) -> Self {
        HeapView {
            blocks: self.blocks.insert(
                addr,
                BlockView {
                    slots: Seq::new(
                        self.slots(addr).len(),
                        |i: int|
                            if i < values.len() {
                                Some(values[i])
                            } else {
                                self.slots(addr)[i]
                            },
                    ),
                    ..self.blocks[addr]
                },
            ),
            ..self
        }
    }

    /// The values in the first `count` slots of the block at `addr`.
    pub open spec fn prefix(self, addr: usize, count: nat) -> Seq<T> {
        Seq::new(count, |i: int| self.value(addr, i))
    }

    /// The first `count` slots of the block at `addr` exist and hold values.
    pub open spec fn prefix_written(self, addr: usize, count: nat) -> bool {
        &&& self.live(addr)
        &&& count <= self.slots(addr).len()
        &&& forall|i: int| 0 <= i < count ==> (#[trigger] self.slots(addr)[i]) is Some
    }

    /// The heap after the values in the first `count` slots of the block at
    /// `addr` have been destructed in place, in index order.
    pub open spec fn destroy_prefix(self, addr: usize, count: nat) -> Self {
        HeapView {
            blocks: self.blocks.insert(
                addr,
                BlockView {
                    slots: Seq::new(
                        self.slots(addr).len(),
                        |i: int|
                            if i < count {
                                None
                            } else {
                                self.slots(addr)[i]
                            },
                    ),
                    ..self.blocks[addr]
                },
            ),
            destructed: self.destructed + self.prefix(addr, count),
            ..self
        }
    }

    /// Filling with nothing changes nothing, and one more write extends a
    /// filled prefix by one value.
    pub proof fn lemma_fill(self, addr: usize, values: Seq<T>, done: int)
        requires
            self.live(addr),
            0 <= done <= values.len() <= self.slots(addr).len(),
        ensures
            self.fill(addr, values.take(0)) == self,
            self.fill(addr, values.take(values.len() as int)) == self.fill(addr, values),
            done < values.len() ==> self.fill(addr, values.take(done)).write(
                addr,
                done,
                values[done],
            ) == self.fill(addr, values.take(done + 1)),
    {
        assert(self.fill(addr, values.take(0)).slots(addr) =~= self.slots(addr));
        assert(self.fill(addr, values.take(0)).blocks =~= self.blocks);
        assert(values.take(values.len() as int) =~= values);
        if done < values.len() {
            let step = self.fill(addr, values.take(done)).write(addr, done, values[done]);
            let goal = self.fill(addr, values.take(done + 1));
            assert(step.slots(addr) =~= goal.slots(addr));
            assert(step.blocks =~= goal.blocks);
        }
    }

    /// Destructing no slot changes nothing, and destructing the next slot
    /// extends a destructed prefix by one.
    pub proof fn lemma_destroy_prefix(self, addr: usize, count: nat, done: int)
        requires
            self.prefix_written(addr, count),
            0 <= done <= count,
        ensures
            self.destroy_prefix(addr, 0) == self,
            done < count ==> self.destroy_prefix(addr, done as nat).written(addr, done),
            done < count ==> self.destroy_prefix(addr, done as nat).destroy(addr, done)
                == self.destroy_prefix(addr, (done + 1) as nat),
    {
        assert(self.destroy_prefix(addr, 0).slots(addr) =~= self.slots(addr));
        assert(self.destroy_prefix(addr, 0).blocks =~= self.blocks);
        assert(self.destroy_prefix(addr, 0).destructed =~= self.destructed);
        if done < count {
            let step = self.destroy_prefix(addr, done as nat).destroy(addr, done);
            let goal = self.destroy_prefix(addr, (done + 1) as nat);
            assert(self.slots(addr)[done] is Some);
            assert(step.slots(addr) =~= goal.slots(addr));
            assert(step.blocks =~= goal.blocks);
            assert(step.destructed =~= goal.destructed);
        }
    }
}

/// `align_up` is a multiple of `align`, lies within one `align` above
/// `addr`, and no multiple of `align` lies between the two.
pub proof fn lemma_align_up(addr: int, align: int)
    requires
        0 <= addr,
        0 < align,
    ensures
        align_up(addr, align) % align == 0,
        addr <= align_up(addr, align) < addr + align,
        forall|other: int|
            addr <= other && #[trigger] (other % align) == 0 ==> align_up(addr, align) <= other,
{
    let q = addr / align;
    let r = addr % align;
    let up = align_up(addr, align);
    vstd::arithmetic::div_mod::lemma_fundamental_div_mod(addr, align);
    assert(0 <= r < align) by {
        vstd::arithmetic::div_mod::lemma_mod_bound(addr, align);
    }
    if r != 0 {
        assert(up == align * (q + 1)) by (nonlinear_arith)
            requires
                addr == align * q + r,
                up == addr + (align - r),
        ;
        assert(up % align == 0) by {
            vstd::arithmetic::div_mod::lemma_mod_multiples_basic(q + 1, align);
            vstd::arithmetic::mul::lemma_mul_is_commutative(q + 1, align);
        }
    }
    assert forall|other: int| addr <= other && #[trigger] (other % align) == 0 implies up
        <= other by {
        if r != 0 {
            let k = other / align;
            vstd::arithmetic::div_mod::lemma_fundamental_div_mod(other, align);
            assert(other == align * k);
            assert(q < k) by (nonlinear_arith)
                requires
                    addr == align * q + r,
                    other == align * k,
                    addr <= other,
                    0 < r,
                    0 < align,
            ;
            assert(align * (q + 1) <= align * k) by (nonlinear_arith)
                requires
                    q + 1 <= k,
                    0 < align,
            ;
        }
    }
}

/// Rounds `addr` up to a multiple of `align`, unless that leaves `usize`.
fn round_up(addr: usize, align: usize) -> (r: Option<usize>)
    requires
        0 < align,
    ensures
        r matches Some(a) ==> a == align_up(addr as int, align as int),
        r is None ==> align_up(addr as int, align as int) > usize::MAX,
{
    let over: usize = addr % align;
    if over == 0 {
        Some(addr)
    } else {
        addr.checked_add(align - over)
    }
}

/// One live block: where it lies, what it reserves, what it holds.
struct Block<T> {
    addr: usize,
    bytes: usize,
    slots: Vec<Option<T>>,
}

impl<T> Block<T> {
    spec fn view(&self) -> BlockView<T> {
        BlockView { bytes: self.bytes as nat, slots: self.slots@ }
    }
}

/// An address space for values of type `T`.
///
/// The live blocks are kept in address order, which makes the gaps between
/// them the free ranges.
pub struct Heap<T> {
    blocks: Vec<Block<T>>,
    limit: usize,
    destructed: Ghost<Seq<T>>,
}

impl<T> View for Heap<T> {
    type V = HeapView<T>;

    closed spec fn view(&self) -> HeapView<T> {
        HeapView {
            blocks: Map::new(
                |a: usize| self.has_block(a),
                |a: usize| self.blocks[self.index_of(a)]@,
            ),
            limit: self.limit as nat,
            destructed: self.destructed@,
        }
    }
}

impl<T> Heap<T> {
    spec fn has_block(&self, addr: usize) -> bool {
        exists|i: int| 0 <= i < self.blocks.len() && (#[trigger] self.blocks[i]).addr == addr
    }

    spec fn index_of(&self, addr: usize) -> int {
        choose|i: int| 0 <= i < self.blocks.len() && (#[trigger] self.blocks[i]).addr == addr
    }

    /// The blocks lie inside the address space, in address order, and no
    /// two of them share a byte.
    pub closed spec fn wf(&self) -> bool {
        &&& forall|i: int|
            0 <= i < self.blocks.len() ==> {
                &&& BASE_ADDRESS <= (#[trigger] self.blocks[i]).addr
                &&& 1 <= self.blocks[i].bytes
                &&& self.blocks[i].addr + self.blocks[i].bytes <= self.limit
            }
        &&& forall|i: int, j: int|
            0 <= i < j < self.blocks.len() ==> (#[trigger] self.blocks[i]).addr
                + self.blocks[i].bytes <= (#[trigger] self.blocks[j]).addr
    }

    /// Ties the view to the block table: the live addresses are those of
    /// the table's entries, and each entry is what the view holds for it.
    proof fn lemma_view(&self)
        requires
            self.wf(),
        ensures
            self@.limit == self.limit,
            self@.destructed == self.destructed@,
            forall|i: int|
                0 <= i < self.blocks.len() ==> self@.live((#[trigger] self.blocks[i]).addr)
                    && self@.blocks[self.blocks[i].addr] == self.blocks[i]@,
            forall|a: usize| #[trigger]
                self@.live(a) ==> 0 <= self.index_of(a) < self.blocks.len()
                    && self.blocks[self.index_of(a)].addr == a,
    {
        assert forall|i: int| 0 <= i < self.blocks.len() implies self@.live(
            (#[trigger] self.blocks[i]).addr,
        ) && self@.blocks[self.blocks[i].addr] == self.blocks[i]@ by {
            let a = self.blocks[i].addr;
            let k = self.index_of(a);
            assert(self.has_block(a));
            if k < i {
                assert(self.blocks[k].addr + self.blocks[k].bytes <= self.blocks[i].addr);
            } else if i < k {
                assert(self.blocks[i].addr + self.blocks[i].bytes <= self.blocks[k].addr);
            }
        }
    }

    /// Every live block lies inside the address space and reserves at least
    /// one byte.
    pub proof fn lemma_block_in_bounds(&self, addr: usize)
        requires
            self.wf(),
            self@.live(addr),
        ensures
            BASE_ADDRESS <= addr,
            1 <= self@.blocks[addr].bytes,
            addr + self@.blocks[addr].bytes <= self@.limit,
    {
        self.lemma_view();
        let i = self.index_of(addr);
        assert(self@.blocks[self.blocks[i].addr] == self.blocks[i]@);
    }

    /// No two live blocks share a byte.
    pub proof fn lemma_blocks_disjoint(&self, a: usize, b: usize)
        requires
            self.wf(),
            self@.live(a),
            self@.live(b),
            a != b,
        ensures
            a + self@.blocks[a].bytes <= b || b + self@.blocks[b].bytes <= a,
    {
        self.lemma_view();
        let i = self.index_of(a);
        let j = self.index_of(b);
        assert(self@.blocks[self.blocks[i].addr] == self.blocks[i]@);
        assert(self@.blocks[self.blocks[j].addr] == self.blocks[j]@);
        if i < j {
            assert(self.blocks[i].addr + self.blocks[i].bytes <= self.blocks[j].addr);
        } else {
            assert(self.blocks[j].addr + self.blocks[j].bytes <= self.blocks[i].addr);
        }
    }

    /// A heap without blocks whose address space ends at `limit`.
    pub fn new(limit: usize) -> (heap: Heap<T>)
        ensures
            heap.wf(),
            heap@ == HeapView::<T>::empty(limit as nat),
    {
        let heap = Heap { blocks: Vec::new(), limit, destructed: Ghost(Seq::empty()) };
        assert(heap@.blocks =~= Map::empty());
        heap
    }

    /// The place of the block at `addr` in the table, if one lives there.
    fn find(&self, addr: usize) -> (r: Option<usize>)
        requires
            self.wf(),
        ensures
            r matches Some(i) ==> i < self.blocks.len() && self.blocks[i as int].addr == addr,
            r is Some <==> self@.live(addr),
    {
        let mut lo: usize = 0;
        let mut hi: usize = self.blocks.len();
        while lo < hi
            invariant
                self.wf(),
                lo <= hi <= self.blocks.len(),
                forall|i: int| 0 <= i < lo ==> (#[trigger] self.blocks[i]).addr < addr,
                forall|i: int| hi <= i < self.blocks.len() ==> (#[trigger] self.blocks[i]).addr > addr,
            decreases hi - lo,
        {
            let mid: usize = lo + (hi - lo) / 2;
            let found: usize = self.blocks[mid].addr;
            if found == addr {
                proof {
                    self.lemma_view();
                }
                return Some(mid);
            }
            if found < addr {
                assert forall|i: int| 0 <= i < mid + 1 implies (#[trigger] self.blocks[i]).addr
                    < addr by {
                    if i < mid {
                        assert(self.blocks[i].addr + self.blocks[i].bytes <= self.blocks[mid as int].addr);
                    }
                }
                lo = mid + 1;
            } else {
                assert forall|i: int| mid <= i < self.blocks.len() implies (
                #[trigger] self.blocks[i]).addr > addr by {
                    if mid < i {
                        assert(self.blocks[mid as int].addr + self.blocks[mid as int].bytes
                            <= self.blocks[i].addr);
                    }
                }
                hi = mid;
            }
        }
        proof {
            self.lemma_view();
        }
        None
    }

    /// What a new entry at place `k` of the table does to the view.
    proof fn lemma_block_inserted(before: Heap<T>, after: Heap<T>, k: int, block: Block<T>)
        requires
            before.wf(),
            0 <= k <= before.blocks.len(),
            after.blocks@ == before.blocks@.insert(k, block),
            after.limit == before.limit,
            after.destructed@ == before.destructed@,
            BASE_ADDRESS <= block.addr,
            1 <= block.bytes,
            block.addr + block.bytes <= before.limit,
            forall|j: int|
                0 <= j < k ==> (#[trigger] before.blocks[j]).addr + before.blocks[j].bytes
                    <= block.addr,
            forall|j: int|
                k <= j < before.blocks.len() ==> block.addr + block.bytes <= (
                #[trigger] before.blocks[j]).addr,
        ensures
            after.wf(),
            !before@.live(block.addr),
            after@ == (HeapView { blocks: before@.blocks.insert(block.addr, block@), ..before@ }),
    {
        assert forall|i: int, j: int| 0 <= i < j < after.blocks.len() implies (
        #[trigger] after.blocks[i]).addr + after.blocks[i].bytes <= (
        #[trigger] after.blocks[j]).addr by {
            if j < k {
                assert(after.blocks[i] == before.blocks[i]);
                assert(after.blocks[j] == before.blocks[j]);
            } else if j == k {
                assert(after.blocks[i] == before.blocks[i]);
            } else if i < k {
                assert(after.blocks[i] == before.blocks[i]);
                assert(after.blocks[j] == before.blocks[j - 1]);
            } else if i == k {
                assert(after.blocks[j] == before.blocks[j - 1]);
            } else {
                assert(after.blocks[i] == before.blocks[i - 1]);
                assert(after.blocks[j] == before.blocks[j - 1]);
            }
        }
        assert forall|i: int| 0 <= i < after.blocks.len() implies {
            &&& BASE_ADDRESS <= (#[trigger] after.blocks[i]).addr
            &&& 1 <= after.blocks[i].bytes
            &&& after.blocks[i].addr + after.blocks[i].bytes <= after.limit
        } by {
            if i < k {
                assert(after.blocks[i] == before.blocks[i]);
            } else if i > k {
                assert(after.blocks[i] == before.blocks[i - 1]);
            }
        }
        before.lemma_view();
        after.lemma_view();
        if before@.live(block.addr) {
            let j = before.index_of(block.addr);
            assert(before.blocks[j].addr == block.addr);
        }
        let expected = before@.blocks.insert(block.addr, block@);
        assert forall|a: usize| after@.blocks.dom().contains(a) implies #[trigger]
            expected.dom().contains(a) && after@.blocks[a] == expected[a] by {
            assert(after@.live(a));
            let i = after.index_of(a);
            assert(after@.blocks[after.blocks[i].addr] == after.blocks[i]@);
            if i < k {
                assert(after.blocks[i] == before.blocks[i]);
                assert(before@.live(before.blocks[i].addr));
            } else if i > k {
                assert(after.blocks[i] == before.blocks[i - 1]);
                assert(before@.live(before.blocks[i - 1].addr));
            }
        }
        assert forall|a: usize| expected.dom().contains(a) implies #[trigger]
            after@.blocks.dom().contains(a) by {
            if a == block.addr {
                assert(after.blocks[k] == block);
                assert(after@.live(after.blocks[k].addr));
            } else {
                assert(before@.live(a));
                let j = before.index_of(a);
                if j < k {
                    assert(after.blocks[j] == before.blocks[j]);
                    assert(after@.live(after.blocks[j].addr));
                } else {
                    assert(after.blocks[j + 1] == before.blocks[j]);
                    assert(after@.live(after.blocks[j + 1].addr));
                }
            }
        }
        assert(after@.blocks =~= expected);
    }

    /// What dropping entry `k` of the table does to the view.
    proof fn lemma_block_removed(before: Heap<T>, after: Heap<T>, k: int)
        requires
            before.wf(),
            0 <= k < before.blocks.len(),
            after.blocks@ == before.blocks@.remove(k),
            after.limit == before.limit,
            after.destructed@ == before.destructed@,
        ensures
            after.wf(),
            after@ == before@.free(before.blocks[k].addr),
    {
        assert forall|i: int, j: int| 0 <= i < j < after.blocks.len() implies (
        #[trigger] after.blocks[i]).addr + after.blocks[i].bytes <= (
        #[trigger] after.blocks[j]).addr by {
            let oi = if i < k { i } else { i + 1 };
            let oj = if j < k { j } else { j + 1 };
            assert(after.blocks[i] == before.blocks[oi]);
            assert(after.blocks[j] == before.blocks[oj]);
        }
        assert forall|i: int| 0 <= i < after.blocks.len() implies {
            &&& BASE_ADDRESS <= (#[trigger] after.blocks[i]).addr
            &&& 1 <= after.blocks[i].bytes
            &&& after.blocks[i].addr + after.blocks[i].bytes <= after.limit
        } by {
            let oi = if i < k { i } else { i + 1 };
            assert(after.blocks[i] == before.blocks[oi]);
        }
        before.lemma_view();
        after.lemma_view();
        let gone = before.blocks[k].addr;
        let expected = before@.blocks.remove(gone);
        assert forall|a: usize| after@.blocks.dom().contains(a) implies #[trigger]
            expected.dom().contains(a) && after@.blocks[a] == expected[a] by {
            assert(after@.live(a));
            let i = after.index_of(a);
            let oi = if i < k { i } else { i + 1 };
            assert(after@.blocks[after.blocks[i].addr] == after.blocks[i]@);
            assert(after.blocks[i] == before.blocks[oi]);
            assert(before@.live(before.blocks[oi].addr));
            if oi < k {
                assert(before.blocks[oi].addr + before.blocks[oi].bytes <= before.blocks[k].addr);
            } else {
                assert(before.blocks[k].addr + before.blocks[k].bytes <= before.blocks[oi].addr);
            }
        }
        assert forall|a: usize| expected.dom().contains(a) implies #[trigger]
            after@.blocks.dom().contains(a) by {
            assert(before@.live(a));
            let j = before.index_of(a);
            if j < k {
                assert(after.blocks[j] == before.blocks[j]);
                assert(after@.live(after.blocks[j].addr));
            } else {
                assert(after.blocks[j - 1] == before.blocks[j]);
                assert(after@.live(after.blocks[j - 1].addr));
            }
        }
        assert(after@.blocks =~= expected);
    }

    /// `after` is `before` but for slot `index` of entry `k`, which holds
    /// `content`, and perhaps for the record of destructed values.
    spec fn slot_changed(
        before: Heap<T>,
        after: Heap<T>,
        k: int,
        index: int,
        content: Option<T>,
    ) -> bool {
        &&& 0 <= k < before.blocks.len()
        &&& after.blocks.len() == before.blocks.len()
        &&& after.limit == before.limit
        &&& forall|j: int|
            0 <= j < before.blocks.len() && j != k ==> #[trigger] after.blocks[j]
                == before.blocks[j]
        &&& after.blocks[k].addr == before.blocks[k].addr
        &&& after.blocks[k].bytes == before.blocks[k].bytes
        &&& after.blocks[k].slots@ == before.blocks[k].slots@.update(index, content)
    }

    /// What a change to one slot of entry `k` does to the view.
    proof fn lemma_slot_changed(
        before: Heap<T>,
        after: Heap<T>,
        k: int,
        index: int,
        content: Option<T>,
    )
        requires
            before.wf(),
            Self::slot_changed(before, after, k, index, content),
        ensures
            after.wf(),
            after@.blocks == before@.with_slot(before.blocks[k].addr, index, content).blocks,
            after@.limit == before@.limit,
    {
        assert forall|i: int| 0 <= i < after.blocks.len() implies (#[trigger] after.blocks[i]).addr
            == before.blocks[i].addr && after.blocks[i].bytes == before.blocks[i].bytes by {
            if i != k {
                assert(after.blocks[i] == before.blocks[i]);
            }
        }
        assert forall|i: int, j: int| 0 <= i < j < after.blocks.len() implies (
        #[trigger] after.blocks[i]).addr + after.blocks[i].bytes <= (
        #[trigger] after.blocks[j]).addr by {
            assert(before.blocks[i].addr + before.blocks[i].bytes <= before.blocks[j].addr);
        }
        assert forall|i: int| 0 <= i < after.blocks.len() implies {
            &&& BASE_ADDRESS <= (#[trigger] after.blocks[i]).addr
            &&& 1 <= after.blocks[i].bytes
            &&& after.blocks[i].addr + after.blocks[i].bytes <= after.limit
        } by {
            assert(BASE_ADDRESS <= before.blocks[i].addr);
        }
        before.lemma_view();
        after.lemma_view();
        let expected = before@.with_slot(before.blocks[k].addr, index, content).blocks;
        assert forall|a: usize| after@.blocks.dom().contains(a) implies #[trigger]
            expected.dom().contains(a) && after@.blocks[a] == expected[a] by {
            assert(after@.live(a));
            let i = after.index_of(a);
            assert(after@.blocks[after.blocks[i].addr] == after.blocks[i]@);
            assert(before@.live(before.blocks[i].addr));
            if i != k {
                assert(after.blocks[i] == before.blocks[i]);
            }
        }
        assert forall|a: usize| expected.dom().contains(a) implies #[trigger]
            after@.blocks.dom().contains(a) by {
            if a == before.blocks[k].addr {
                assert(after@.live(after.blocks[k].addr));
            } else {
                assert(before@.live(a));
                let j = before.index_of(a);
                assert(after@.live(after.blocks[j].addr));
            }
        }
        assert(after@.blocks =~= expected);
    }

    /// Says whether a block lives at `addr`.
    pub fn is_live(&self, addr: usize) -> (r: bool)
        requires
            self.wf(),
        ensures
            r == self@.live(addr),
    {
        self.find(addr).is_some()
    }

    /// The number of slots of the block at `addr`.
    pub fn slot_count(&self, addr: usize) -> (count: usize)
        requires
            self.wf(),
            self@.live(addr),
        ensures
            count == self@.slots(addr).len(),
    {
        let k: usize = self.find(addr).unwrap();
        proof {
            self.lemma_view();
        }
        self.blocks[k].slots.len()
    }

    /// The number of bytes the block at `addr` reserves.
    pub fn reserved(&self, addr: usize) -> (bytes: usize)
        requires
            self.wf(),
            self@.live(addr),
        ensures
            bytes == self@.blocks[addr].bytes,
    {
        let k: usize = self.find(addr).unwrap();
        proof {
            self.lemma_view();
        }
        self.blocks[k].bytes
    }

    /// Says whether slot `index` of the block at `addr` exists and holds a
    /// value.
    pub fn is_written(&self, addr: usize, index: usize) -> (r: bool)
        requires
            self.wf(),
        ensures
            r == self@.written(addr, index as int),
    {
        proof {
            self.lemma_view();
        }
        match self.find(addr) {
            Some(k) => index < self.blocks[k].slots.len() && self.blocks[k].slots[index].is_some(),
            None => false,
        }
    }

    /// Says whether the first `count` slots of the block at `addr` exist and
    /// hold values.
    pub fn is_prefix_written(&self, addr: usize, count: usize) -> (r: bool)
        requires
            self.wf(),
        ensures
            r == self@.prefix_written(addr, count as nat),
    {
        if !self.is_live(addr) || self.slot_count(addr) < count {
            return false;
        }
        let mut i: usize = 0;
        while i < count
            invariant
                self.wf(),
                i <= count <= self@.slots(addr).len(),
                self@.live(addr),
                forall|j: int| 0 <= j < i ==> (#[trigger] self@.slots(addr)[j]) is Some,
            decreases count - i,
        {
            if !self.is_written(addr, i) {
                return false;
            }
            i += 1;
        }
        true
    }

    /// Releases the block at `addr`. No destructor runs: what the slots
    /// still hold is lost with the block.
    pub fn free(&mut self, addr: usize)
        requires
            old(self).wf(),
            old(self)@.live(addr),
        ensures
            final(self).wf(),
            final(self)@ == old(self)@.free(addr),
    {
        let k: usize = self.find(addr).unwrap();
        let ghost before = *self;
        let mut block = self.blocks.remove(k);
        proof {
            Self::lemma_block_removed(before, *self, k as int);
        }
        while block.slots.len() > 0
            invariant
                self.wf(),
                self@ == old(self)@.free(addr),
            decreases block.slots.len(),
        {
            match block.slots.pop() {
                Some(content) => lose(content),
                None => {},
            }
        }
    }

    /// Moves `value` into slot `index` of the block at `addr`. No
    /// destructor runs: what the slot held before is lost.
    pub fn write(&mut self, addr: usize, index: usize, value: T)
        requires
            old(self).wf(),
            old(self)@.in_bounds(addr, index as int),
        ensures
            final(self).wf(),
            final(self)@ == old(self)@.write(addr, index as int, value),
    {
        let k: usize = self.find(addr).unwrap();
        let ghost before = *self;
        proof {
            self.lemma_view();
        }
        lose(self.blocks[k].slots[index].take());
        self.blocks[k].slots[index] = Some(value);
        proof {
            assert(self.blocks[k as int].slots@ =~= before.blocks[k as int].slots@.update(
                index as int,
                Some(value),
            ));
            Self::lemma_slot_changed(before, *self, k as int, index as int, Some(value));
        }
    }

    /// Moves the value out of slot `index` of the block at `addr` and leaves
    /// the slot vacant. The caller owns the value from here on.
    pub fn take(&mut self, addr: usize, index: usize) -> (value: T)
        requires
            old(self).wf(),
            old(self)@.written(addr, index as int),
        ensures
            final(self).wf(),
            value == old(self)@.value(addr, index as int),
            final(self)@ == old(self)@.take(addr, index as int),
    {
        let k: usize = self.find(addr).unwrap();
        let ghost before = *self;
        proof {
            self.lemma_view();
        }
        let content = self.blocks[k].slots[index].take();
        proof {
            Self::lemma_slot_changed(before, *self, k as int, index as int, None);
        }
        content.unwrap()
    }

    /// Runs the destructor of the value in slot `index` of the block at
    /// `addr` and leaves the slot vacant.
    pub fn destroy(&mut self, addr: usize, index: usize)
        requires
            old(self).wf(),
            old(self)@.written(addr, index as int),
        ensures
            final(self).wf(),
            final(self)@ == old(self)@.destroy(addr, index as int),
    {
        let k: usize = self.find(addr).unwrap();
        let ghost before = *self;
        proof {
            self.lemma_view();
        }
        let content = self.blocks[k].slots[index].take();
        self.destructed = Ghost(self.destructed@.push(content->0));
        proof {
            Self::lemma_slot_changed(before, *self, k as int, index as int, None);
            self.lemma_view();
        }
    }

    /// The value in slot `index` of the block at `addr`.
    pub fn get(&self, addr: usize, index: usize) -> (value: &T)
        requires
            self.wf(),
            self@.written(addr, index as int),
        ensures
            *value == self@.value(addr, index as int),
    {
        let k: usize = self.find(addr).unwrap();
        proof {
            self.lemma_view();
        }
        self.blocks[k].slots[index].as_ref().unwrap()
    }

    /// Exclusive access to the value in slot `index` of the block at `addr`.
    /// The heap holds whatever the borrower leaves there.
    pub fn get_mut(&mut self, addr: usize, index: usize) -> (value: &mut T)
        requires
            old(self).wf(),
            old(self)@.written(addr, index as int),
        ensures
            *value == old(self)@.value(addr, index as int),
            final(self).wf(),
            final(self)@.value(addr, index as int) == *final(value),
            final(self)@ == old(self)@.write(addr, index as int, *final(value)),
    {
        let k: usize = self.find(addr).unwrap();
        let ghost before = *self;
        proof {
            self.lemma_view();
        }
        assert forall|after: Heap<T>|
            Self::slot_changed(
                before,
                after,
                k as int,
                index as int,
                after.blocks[k as int].slots[index as int],
            ) && after.destructed@ == before.destructed@ implies #[trigger] after.wf() && after@
            == before@.with_slot(addr, index as int, after.blocks[k as int].slots[index as int]) by {
            Self::lemma_slot_changed(
                before,
                after,
                k as int,
                index as int,
                after.blocks[k as int].slots[index as int],
            );
            after.lemma_view();
        }
        self.blocks[k].slots[index].as_mut().unwrap()
    }

    /// Says whether a block of `count` elements of `elem_size` bytes each,
    /// aligned for `elem_align`, can be placed.
    pub fn has_room(&self, count: usize, elem_size: usize, elem_align: usize) -> (r: bool)
        requires
            self.wf(),
        ensures
            r == self@.can_fit((count * elem_size) as nat, request_align(elem_align as nat)),
    {
        self.search(count, elem_size, elem_align).is_some()
    }

    /// Looks for the lowest address that takes a block of `count` elements
    /// of `elem_size` bytes each, aligned for `elem_align`. Returns the
    /// place in the table where the block belongs, and the address.
    fn search(&self, count: usize, elem_size: usize, elem_align: usize) -> (r: Option<
        (usize, usize),
    >)
        requires
            self.wf(),
        ensures
            r is Some <==> self@.can_fit(
                (count * elem_size) as nat,
                request_align(elem_align as nat),
            ),
            r matches Some((k, addr)) ==> {
                &&& self@.is_first_fit(
                    addr as int,
                    (count * elem_size) as nat,
                    request_align(elem_align as nat),
                )
                &&& k <= self.blocks.len()
                &&& forall|j: int|
                    0 <= j < k ==> (#[trigger] self.blocks[j]).addr + self.blocks[j].bytes <= addr
                &&& forall|j: int|
                    k <= j < self.blocks.len() ==> addr + footprint((count * elem_size) as nat) <= (
                    #[trigger] self.blocks[j]).addr
            },
    {
        let align: usize = if elem_align < MIN_ALIGN {
            MIN_ALIGN
        } else {
            elem_align
        };
        let ghost want = (count * elem_size) as nat;
        proof {
            self.lemma_view();
        }
        let bytes: usize = match count.checked_mul(elem_size) {
            Some(b) => b,
            None => {
                assert(!self@.can_fit(want, align as nat));
                return None;
            },
        };
        let need: usize = if bytes == 0 {
            1
        } else {
            bytes
        };
        let n: usize = self.blocks.len();
        let mut cursor: usize = BASE_ADDRESS;
        let mut i: usize = 0;
        while i < n
            invariant
                self.wf(),
                n == self.blocks.len(),
                i <= n,
                want == (count * elem_size) as nat,
                want == bytes,
                need == footprint(want),
                align == request_align(elem_align as nat),
                BASE_ADDRESS <= cursor,
                forall|j: int|
                    0 <= j < i ==> (#[trigger] self.blocks[j]).addr + self.blocks[j].bytes
                        <= cursor,
                forall|a: int| a < cursor ==> !self@.fits_at(a, want, align as nat),
            decreases n - i,
        {
            let start: usize = self.blocks[i].addr;
            let ghost up = align_up(cursor as int, align as int);
            proof {
                lemma_align_up(cursor as int, align as int);
                self.lemma_view();
            }
            match round_up(cursor, align) {
                Some(candidate) => {
                    if candidate <= start && need <= start - candidate {
                        proof {
                            self.lemma_gap_fits(i as int, cursor as int, candidate as int, want, align as nat);
                        }
                        return Some((i, candidate));
                    }
                },
                None => {},
            }
            let end: usize = start + self.blocks[i].bytes;
            assert forall|a: int| a < end implies !self@.fits_at(a, want, align as nat) by {
                if cursor <= a && self@.fits_at(a, want, align as nat) {
                    assert(self@.live(self.blocks[i as int].addr));
                    assert(self@.blocks[start].bytes == self.blocks[i as int].bytes);
                    assert(a + need <= start);
                    assert(up <= a);
                }
            }
            assert forall|j: int| 0 <= j < i + 1 implies (#[trigger] self.blocks[j]).addr
                + self.blocks[j].bytes <= end by {
                if j < i {
                    assert(self.blocks[j].addr + self.blocks[j].bytes <= self.blocks[i as int].addr);
                }
            }
            cursor = end;
            i += 1;
        }
        proof {
            lemma_align_up(cursor as int, align as int);
        }
        let ghost up = align_up(cursor as int, align as int);
        match round_up(cursor, align) {
            Some(candidate) => {
                if candidate <= self.limit && need <= self.limit - candidate {
                    proof {
                        self.lemma_gap_fits(n as int, cursor as int, candidate as int, want, align as nat);
                    }
                    return Some((n, candidate));
                }
            },
            None => {},
        }
        assert forall|a: int| !self@.fits_at(a, want, align as nat) by {
            if cursor <= a && self@.fits_at(a, want, align as nat) {
                assert(up <= a);
            }
        }
        None
    }

    /// The aligned start of the gap before entry `k` (or behind the last
    /// entry) is the lowest fit, once nothing fits below the gap.
    proof fn lemma_gap_fits(&self, k: int, cursor: int, candidate: int, bytes: nat, align: nat)
        requires
            self.wf(),
            0 <= k <= self.blocks.len(),
            0 < align,
            BASE_ADDRESS <= cursor,
            candidate == align_up(cursor, align as int),
            forall|j: int|
                0 <= j < k ==> (#[trigger] self.blocks[j]).addr + self.blocks[j].bytes <= cursor,
            forall|a: int| a < cursor ==> !self@.fits_at(a, bytes, align),
            k < self.blocks.len() ==> candidate + footprint(bytes) <= self.blocks[k].addr,
            k == self.blocks.len() ==> candidate + footprint(bytes) <= self.limit,
        ensures
            self@.is_first_fit(candidate, bytes, align),
            forall|j: int|
                0 <= j < k ==> (#[trigger] self.blocks[j]).addr + self.blocks[j].bytes
                    <= candidate,
            forall|j: int|
                k <= j < self.blocks.len() ==> candidate + footprint(bytes) <= (
                #[trigger] self.blocks[j]).addr,
    {
        lemma_align_up(cursor, align as int);
        self.lemma_view();
        assert forall|j: int| k <= j < self.blocks.len() implies candidate + footprint(bytes) <= (
        #[trigger] self.blocks[j]).addr by {
            if k < j {
                assert(self.blocks[k].addr + self.blocks[k].bytes <= self.blocks[j].addr);
            }
        }
        assert forall|a: usize| #[trigger] self@.blocks.dom().contains(a) implies a
            + self@.blocks[a].bytes <= candidate || candidate + footprint(bytes) <= a by {
            assert(self@.live(a));
            let j = self.index_of(a);
            assert(self@.blocks[self.blocks[j].addr] == self.blocks[j]@);
        }
        assert forall|other: int| self@.fits_at(other, bytes, align) implies candidate
            <= other by {
            assert(cursor <= other);
        }
    }

    /// Places a block of `count` vacant slots, `count * elem_size` bytes
    /// long and aligned to `elem_align` or to `MIN_ALIGN`, whichever is
    /// stricter, at the lowest address that takes it. Returns the address,
    /// or `None`, with the heap as it was, where no address takes it.
    pub fn allocate(&mut self, count: usize, elem_size: usize, elem_align: usize) -> (r: Option<
        usize,
    >)
        requires
            old(self).wf(),
        ensures
            final(self).wf(),
            r is Some <==> old(self)@.can_fit(
                (count * elem_size) as nat,
                request_align(elem_align as nat),
            ),
            r matches Some(addr) ==> {
                &&& old(self)@.is_first_fit(
                    addr as int,
                    (count * elem_size) as nat,
                    request_align(elem_align as nat),
                )
                &&& !old(self)@.live(addr)
                &&& final(self)@ == old(self)@.allocate(
                    addr,
                    count as nat,
                    (count * elem_size) as nat,
                )
            },
            r is None ==> final(self)@ == old(self)@,
    {
        match self.search(count, elem_size, elem_align) {
            Some((k, addr)) => {
                let bytes: usize = count * elem_size;
                let need: usize = if bytes == 0 {
                    1
                } else {
                    bytes
                };
                let block = Block { addr, bytes: need, slots: vacant_slots(count) };
                let ghost before = *self;
                proof {
                    self.lemma_view();
                }
                self.blocks.insert(k, block);
                proof {
                    Self::lemma_block_inserted(before, *self, k as int, block);
                }
                Some(addr)
            },
            None => None,
        }
    }
}

/// Lets go of what a slot held without running a destructor.
fn lose<T>(content: Option<T>) {
    let _ = ManuallyDrop::new(content);
}

/// `count` vacant slots.
fn vacant_slots<T>(count: usize) -> (slots: Vec<Option<T>>)
    ensures
        slots@ == Seq::new(count as nat, |i: int| None::<T>),
{
    let mut slots: Vec<Option<T>> = Vec::new();
    let mut filled: usize = 0;
    while filled < count
        invariant
            filled <= count,
            slots@.len() == filled,
            forall|i: int| 0 <= i < filled ==> slots@[i] is None,
        decreases count - filled,
    {
        slots.push(None);
        filled += 1;
    }
    assert(slots@ =~= Seq::new(count as nat, |i: int| None::<T>));
    slots
}

} // verus!
