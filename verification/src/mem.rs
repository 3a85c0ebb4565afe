//! Fixed-size block allocators: a free-list page allocator and a bitmap
//! chunk allocator for the kernel heap.
use vstd::prelude::*;
use crate::memory_image::{MemoryImage, zeroed_range};
use vstd::arithmetic::power2::{pow2, lemma_pow2_pos};
use vstd::bits::{low_bits_mask, lemma_u64_low_bits_mask_is_mod, lemma_u64_pow2_no_overflow};

verus! {

/// `n` is a power of two that fits in 64 bits.
pub open spec fn is_power_of_two(n: u64) -> bool {
    exists|k: nat| k < 64 && n == pow2(k)
}

/// Masking off the low bits of a power of two rounds down to a multiple of it.
pub proof fn lemma_mask_rounds_down(x: u64, n: u64)
    requires
        is_power_of_two(n),
    ensures
        n > 0,
        x & !((n - 1) as u64) == x - x % n,
        (x - x % n) % (n as int) == 0,
        x - x % n > x - n,
{
    let k = choose|k: nat| k < 64 && n == pow2(k);
    lemma_pow2_pos(k);
    lemma_u64_pow2_no_overflow(k);
    lemma_u64_low_bits_mask_is_mod(x, k);
    let m = (n - 1) as u64;
    assert(m == low_bits_mask(k) as u64);
    assert(x & !m == (x - (x & m)) as u64 && x & m <= x) by (bit_vector);
    vstd::arithmetic::div_mod::lemma_fundamental_div_mod(x as int, n as int);
    vstd::arithmetic::div_mod::lemma_mod_multiples_basic(x as int / n as int, n as int);
    assert(x - x % n == n * (x / n));
    assert((n * (x / n)) % (n as int) == 0) by (nonlinear_arith)
        requires (x as int / n as int * n) % (n as int) == 0;
}

} // verus!

verus! {

/// `v` rounded down to a multiple of `p`.
pub open spec fn round_down(v: int, p: int) -> int {
    v - v % p
}

/// `v` rounded up to a multiple of `p`.
pub open spec fn round_up(v: int, p: int) -> int {
    round_down(v + p - 1, p)
}

/// Align `value` up to the next multiple of the power of two `pot`.
fn align_up_pot(value: u64, pot: u64) -> (r: u64)
    requires
        is_power_of_two(pot),
        value + pot - 1 <= u64::MAX,
    ensures
        r == round_up(value as int, pot as int),
        r >= value,
        r % pot == 0,
        r < value + pot,
{
    proof { lemma_mask_rounds_down((value + pot - 1) as u64, pot); }
    (value + (pot - 1)) & !(pot - 1)
}

/// Align `value` down to the previous multiple of the power of two `pot`.
fn align_down_pot(value: u64, pot: u64) -> (r: u64)
    requires
        is_power_of_two(pot),
    ensures
        r == round_down(value as int, pot as int),
        r <= value,
        r % pot == 0,
        value < r + pot,
{
    proof { lemma_mask_rounds_down(value, pot); }
    value & !(pot - 1)
}

/// A set of distinct non-zero multiples of `n` has at most `u64::MAX / n`
/// elements, so its size times `n` fits in 64 bits.
pub proof fn lemma_aligned_set_bytes_fit(s: Set<u64>, n: u64)
    requires
        n > 0,
        s.finite(),
        forall|a: u64| s.contains(a) ==> a % n == 0 && a != 0,
    ensures
        s.len() * n <= u64::MAX,
{
    let f = |a: u64| (a / n) as int;
    let hi = (u64::MAX as int) / (n as int);
    let img = s.map(f);
    assert forall|a: u64, b: u64| s.contains(a) && s.contains(b) && #[trigger] f(a) == #[trigger] f(b)
        implies a == b by {
        vstd::arithmetic::div_mod::lemma_fundamental_div_mod(a as int, n as int);
        vstd::arithmetic::div_mod::lemma_fundamental_div_mod(b as int, n as int);
    }
    vstd::set_lib::lemma_map_size(s, img, f);
    assert forall|i: int| img.contains(i) implies vstd::set_lib::set_int_range(1, hi + 1).contains(i) by {
        let a = choose|a: u64| s.contains(a) && f(a) == i;
        vstd::arithmetic::div_mod::lemma_fundamental_div_mod(a as int, n as int);
        vstd::arithmetic::div_mod::lemma_div_is_ordered(a as int, u64::MAX as int, n as int);
        assert(a / n >= 1) by (nonlinear_arith)
            requires a % n == 0, a != 0, n > 0, a == n * (a / n) + a % n;
    }
    vstd::set_lib::lemma_int_range(1, hi + 1);
    vstd::set_lib::lemma_len_subset(img, vstd::set_lib::set_int_range(1, hi + 1));
    vstd::arithmetic::div_mod::lemma_fundamental_div_mod(u64::MAX as int, n as int);
    assert(s.len() * n <= hi * n) by (nonlinear_arith) requires s.len() <= hi, n > 0;
}

} // verus!

verus! {

/// One block handed out by a [`FreeListAllocator`]: its start address.
/// The address `0` marks an invalid (freed or never valid) allocation.
#[derive(Debug)]
pub struct FreeListAllocation<const N: u64> {
    addr: u64,
}

impl<const N: u64> View for FreeListAllocation<N> {
    type V = u64;

    /// The start address of the block.
    closed spec fn view(&self) -> u64 {
        self.addr
    }
}

impl<const N: u64> FreeListAllocation<N> {
    /// Create an allocation handle for the given address (not checked
    /// against any allocator).
    pub fn new(addr: u64) -> (r: Self)
        ensures
            r@ == addr,
    {
        Self { addr }
    }

    /// The starting (low) address of the allocation.
    pub fn start_addr(&self) -> (r: u64)
        ensures
            r == self@,
    {
        self.addr
    }

    /// The ending (high, exclusive) address of the allocation.
    pub fn end_addr(&self) -> (r: u64)
        requires
            self@ + N <= u64::MAX,
        ensures
            r == self@ + N,
    {
        self.start_addr() + self.len()
    }

    /// The number of bytes in the allocation.
    pub fn len(&self) -> (r: u64)
        ensures
            r == N,
    {
        N
    }

    /// The allocation is valid: its address is not null.
    pub fn is_valid(&self) -> (r: bool)
        ensures
            r == (self@ != 0),
    {
        self.addr != 0
    }

    /// The allocation is invalid: its address is null.
    pub fn is_invalid(&self) -> (r: bool)
        ensures
            r == (self@ == 0),
    {
        self.addr == 0
    }

    /// Make the allocation invalid; its address must not be used afterwards.
    pub fn invalidate(&mut self)
        ensures
            final(self)@ == 0,
    {
        self.addr = 0;
    }

    /// The address of the first byte of the allocation.
    pub fn as_ptr(&self) -> (r: u64)
        ensures
            r == self@,
    {
        self.addr
    }

    /// Set every byte of the allocation to zero; an invalid allocation
    /// leaves memory as it is.
    pub fn clear(&self, mem: &mut MemoryImage)
        requires
            old(mem).wf(),
        ensures
            self@ == 0 ==> *final(mem) == *old(mem),
            self@ != 0 ==> zeroed_range(*old(mem), *final(mem), self@ as int, N as int),
    {
        if self.is_valid() {
            mem.fill_zero(self.addr, N);
        }
    }

    /// The address of the first byte of the allocation, for writing.
    pub fn as_mut_ptr(&self) -> (r: u64)
        ensures
            r == self@,
    {
        self.addr
    }

    /// The address `offset` bytes into the allocation, or `None` when the
    /// offset is past its end.
    pub fn as_ptr_offset(&self, offset: u64) -> (r: Option<u64>)
        requires
            self@ + N <= u64::MAX,
        ensures
            r == (if offset < N { Some((self@ + offset) as u64) } else { None::<u64> }),
    {
        if offset >= self.len() {
            return None;
        }
        Some(self.addr + offset)
    }

    /// The address `offset` bytes into the allocation, for writing, or
    /// `None` when the offset is past its end.
    pub fn as_mut_ptr_offset(&self, offset: u64) -> (r: Option<u64>)
        requires
            self@ + N <= u64::MAX,
        ensures
            r == (if offset < N { Some((self@ + offset) as u64) } else { None::<u64> }),
    {
        if offset >= self.len() {
            return None;
        }
        Some(self.addr + offset)
    }
}

/// An allocator of `N`-byte blocks (`N` a power of two) kept on a LIFO free
/// list. Regions of memory are added with [`FreeListAllocator::add_region`];
/// the most recently added or freed block is handed out first.
pub struct FreeListAllocator<const N: u64> {
    /// Free blocks; the last element is the head of the list.
    free: Vec<u64>,
    /// Number of blocks ever added to the allocator.
    total_count: u64,
    /// Every block ever added to the allocator.
    managed: Ghost<Set<u64>>,
}

impl<const N: u64> FreeListAllocator<N> {
    /// The free blocks, oldest first; the last one is handed out next.
    pub closed spec fn free_list(&self) -> Seq<u64> {
        self.free@
    }

    /// Every block ever added to the allocator.
    pub closed spec fn blocks(&self) -> Set<u64> {
        self.managed@
    }

    /// Number of blocks ever added to the allocator.
    pub closed spec fn total(&self) -> nat {
        self.total_count as nat
    }

    /// The allocator's internal invariant: `N` is a power of two; the free
    /// list holds distinct, non-null, `N`-aligned blocks, all of them managed;
    /// the managed blocks are finite, non-null, `N`-aligned and counted.
    pub closed spec fn wf(&self) -> bool {
        &&& is_power_of_two(N)
        &&& self.managed@.finite()
        &&& self.managed@.len() == self.total_count
        &&& forall|a: u64| self.managed@.contains(a) ==> a % N == 0 && a != 0 && a + N <= u64::MAX
        &&& self.free@.no_duplicates()
        &&& forall|i: int| 0 <= i < self.free@.len() ==> self.managed@.contains(#[trigger] self.free@[i])
    }

    /// A block that belongs to this allocator and is currently handed out.
    pub open spec fn is_outstanding(&self, a: u64) -> bool {
        self.blocks().contains(a) && !self.free_list().contains(a)
    }

    /// Create an empty allocator.
    pub fn new() -> (r: Self)
        requires
            is_power_of_two(N),
        ensures
            r.wf(),
            r.free_list() == Seq::<u64>::empty(),
            r.blocks() == Set::<u64>::empty(),
            r.total() == 0,
    {
        Self { free: Vec::new(), total_count: 0, managed: Ghost(Set::empty()) }
    }

    /// The blocks lying wholly inside `[start, end)`: the multiples of `N`
    /// from `start` rounded up to `end` rounded down, in increasing order.
    pub open spec fn region_blocks(start: u64, end: u64) -> Seq<u64> {
        let first = round_up(start as int, N as int);
        let last = round_down(end as int, N as int);
        let count = if last > first { (last - first) / (N as int) } else { 0 };
        Seq::new(count as nat, |i: int| (first + i * N) as u64)
    }

    /// Every block of a region is a whole, aligned block inside it: a region
    /// that is not aligned yields no partial block, and one smaller than a
    /// block yields none.
    pub proof fn lemma_region_blocks_whole(start: u64, end: u64)
        requires
            N > 0,
        ensures
            forall|i: int| 0 <= i < Self::region_blocks(start, end).len() ==> {
                let b = #[trigger] Self::region_blocks(start, end)[i];
                &&& start <= b
                &&& b + N <= end
                &&& b % N == 0
            },
            end < start + N ==> Self::region_blocks(start, end).len() == 0,
    {
        let n = N as int;
        let first = round_up(start as int, n);
        let last = round_down(end as int, n);
        vstd::arithmetic::div_mod::lemma_fundamental_div_mod(start + n - 1, n);
        vstd::arithmetic::div_mod::lemma_fundamental_div_mod(end as int, n);
        vstd::arithmetic::div_mod::lemma_mod_multiples_basic((start + n - 1) / n, n);
        vstd::arithmetic::div_mod::lemma_mod_multiples_basic(end as int / n, n);
        assert(first == n * ((start + n - 1) / n));
        assert(last == n * (end as int / n));
        assert(start <= first < start + n);
        assert(end - n < last <= end);
        if last > first {
            let count = (last - first) / n;
            let q1 = (start + n - 1) / n;
            let q2 = end as int / n;
            assert(last - first == n * (q2 - q1)) by (nonlinear_arith)
                requires first == n * q1, last == n * q2;
            assert(count == q2 - q1) by (nonlinear_arith)
                requires last - first == n * (q2 - q1), count == (last - first) / n, n > 0;
            assert(last - first >= n) by (nonlinear_arith)
                requires last - first == n * (q2 - q1), last > first, n > 0;
            assert forall|i: int| 0 <= i < Self::region_blocks(start, end).len() implies {
                let b = #[trigger] Self::region_blocks(start, end)[i];
                &&& start <= b
                &&& b + N <= end
                &&& b % N == 0
            } by {
                assert(0 <= i * n && (i + 1) * n <= count * n) by (nonlinear_arith)
                    requires 0 <= i < count, n > 0;
                assert(count * n == last - first) by (nonlinear_arith)
                    requires count == q2 - q1, last - first == n * (q2 - q1);
                assert(first + i * n == (q1 + i) * n) by (nonlinear_arith)
                    requires first == n * q1;
                vstd::arithmetic::div_mod::lemma_mod_multiples_basic(q1 + i, n);
                assert((first + i * n) % n == 0);
                assert(i * n + n <= last - first) by (nonlinear_arith)
                    requires 0 <= i < count, n > 0, count * n == last - first;
                assert(Self::region_blocks(start, end)[i] == (first + i * n) as u64);
                assert(Self::region_blocks(start, end)[i] == first + i * n);
                let b = Self::region_blocks(start, end)[i];
                assert(start <= b);
                assert(b + N <= end);
                assert(b % N == 0);
            }
        }
    }

    /// Add the blocks of a region of memory. `start` is rounded up and `end`
    /// rounded down to multiples of `N`; each whole block in between is
    /// pushed on the free list in increasing address order, so the highest
    /// one becomes the head.
    ///
    /// The caller guarantees that the region is free and used by nothing
    /// else: none of its blocks is already managed, and the null block is not
    /// among them.
    pub fn add_region(&mut self, start: u64, end: u64)
        requires
            old(self).wf(),
            start + N - 1 <= u64::MAX,
            start == 0 ==> end < N,
            forall|i: int| 0 <= i < Self::region_blocks(start, end).len()
                ==> !old(self).blocks().contains(#[trigger] Self::region_blocks(start, end)[i]),
        ensures
            final(self).wf(),
            final(self).free_list() == old(self).free_list() + Self::region_blocks(start, end),
            final(self).blocks() == old(self).blocks() + Self::region_blocks(start, end).to_set(),
            final(self).total() == old(self).total() + Self::region_blocks(start, end).len(),
    {
        let mut addr: u64 = align_up_pot(start, N);
        let end_rounded: u64 = align_down_pot(end, N);
        let ghost blocks = Self::region_blocks(start, end);
        let ghost old_free = self.free@;
        let ghost old_managed = self.managed@;
        let ghost first = addr as int;
        let ghost mut k: int = 0;
        let ghost old_total = self.total_count;
        proof {
            assert(blocks.take(0) =~= Seq::<u64>::empty());
            assert(old_managed + blocks.take(0).to_set() =~= old_managed);
            assert(old_free + blocks.take(0) =~= old_free);
            if end < N {
                vstd::arithmetic::div_mod::lemma_small_mod(end as nat, N as nat);
            }
            if end_rounded > first {
                assert((end_rounded - first) % (N as int) == 0) by {
                    vstd::arithmetic::div_mod::lemma_sub_mod_noop(end_rounded as int, first, N as int);
                }
                vstd::arithmetic::div_mod::lemma_fundamental_div_mod((end_rounded - first) as int, N as int);
            }
        }
        while addr < end_rounded
            invariant
                self.wf(),
                N > 0,
                blocks == Self::region_blocks(start, end),
                first == round_up(start as int, N as int),
                first % (N as int) == 0,
                end_rounded == round_down(end as int, N as int),
                end_rounded % N == 0,
                end_rounded > first ==> (end_rounded - first) == (N as int) * blocks.len(),
                end_rounded <= first ==> blocks.len() == 0,
                0 <= k <= blocks.len(),
                addr == first + k * N,
                k < blocks.len() ==> addr < end_rounded,
                self.free@ == old_free + blocks.take(k),
                self.managed@ == old_managed + blocks.take(k).to_set(),
                forall|i: int| 0 <= i < blocks.len() ==> !old_managed.contains(#[trigger] blocks[i]),
                start == 0 ==> end < N,
                first >= start,
                end_rounded <= end,
                end < N ==> end_rounded == 0,
                self.total_count == old_total + k,
            decreases end_rounded - addr,
        {
            proof {
                assert(k < blocks.len()) by (nonlinear_arith)
                    requires addr == first + k * N, addr < end_rounded, N > 0,
                        end_rounded > first ==> (end_rounded - first) == (N as int) * blocks.len(),
                        end_rounded <= first ==> blocks.len() == 0;
                assert(blocks[k] == addr);
                assert(addr != 0) by {
                    if addr == 0 {
                        assert(start == 0);
                        assert(end_rounded <= end);
                    }
                }
                assert(end_rounded > first);
                assert(addr + N <= end_rounded) by (nonlinear_arith)
                    requires addr == first + k * N, k + 1 <= blocks.len(), N > 0,
                        (end_rounded - first) == (N as int) * blocks.len();
                assert((first + k * N) % (N as int) == 0) by {
                    vstd::arithmetic::div_mod::lemma_mod_multiples_vanish(k, first, N as int);
                    assert((N as int) * k == k * N) by (nonlinear_arith);
                }
                assert(!self.managed@.contains(addr)) by {
                    if blocks.take(k).to_set().contains(addr) {
                        let j = choose|j: int| 0 <= j < k && blocks.take(k)[j] == addr;
                        assert(j * N < k * N) by (nonlinear_arith) requires j < k, N > 0;
                        assert(blocks[j] == (first + j * N) as u64);
                    }
                }
                lemma_aligned_set_bytes_fit(self.managed@.insert(addr), N);
                assert(self.managed@.insert(addr).len() == self.managed@.len() + 1);
                assert(self.managed@.len() + 1 <= u64::MAX) by (nonlinear_arith)
                    requires (self.managed@.len() + 1) * N <= u64::MAX, N > 0;
            }
            self.free.push(addr);
            self.total_count += 1;
            proof {
                self.managed@ = self.managed@.insert(addr);
                assert(blocks.take(k + 1) == blocks.take(k).push(addr));
                let t1 = blocks.take(k + 1);
                let t0 = blocks.take(k);
                assert forall|x: u64| #[trigger] t1.to_set().contains(x)
                    <==> t0.to_set().insert(addr).contains(x) by {
                    if t1.to_set().contains(x) {
                        let j = choose|j: int| 0 <= j < t1.len() && t1[j] == x;
                        if j < k {
                            assert(t0[j] == x);
                        }
                    }
                    if t0.to_set().contains(x) {
                        let j = choose|j: int| 0 <= j < t0.len() && t0[j] == x;
                        assert(t1[j] == x);
                    }
                    if x == addr {
                        assert(t1[k] == x);
                    }
                }
                assert(blocks.take(k + 1).to_set() =~= blocks.take(k).to_set().insert(addr));
                assert(old_managed + t1.to_set() =~= (old_managed + t0.to_set()).insert(addr));
                k = k + 1;
            }
            addr += N;
            proof {
                assert(first + k * N == first + (k - 1) * N + N) by (nonlinear_arith);
                assert(k < blocks.len() ==> addr < end_rounded) by (nonlinear_arith)
                    requires addr == first + k * N, N > 0, end_rounded > first,
                        (end_rounded - first) == (N as int) * blocks.len();
            }
        }
        proof {
            assert(k == blocks.len()) by (nonlinear_arith)
                requires addr == first + k * N, addr >= end_rounded, N > 0, 0 <= k <= blocks.len(),
                    k < blocks.len() ==> addr < end_rounded;
            assert(blocks.take(k) == blocks);
        }
    }
}


impl<const N: u64> FreeListAllocator<N> {
    /// Take the block at the head of the free list, or `None` when the list
    /// is empty.
    pub fn alloc_block(&mut self) -> (r: Option<FreeListAllocation<N>>)
        requires
            old(self).wf(),
        ensures
            final(self).wf(),
            final(self).blocks() == old(self).blocks(),
            final(self).total() == old(self).total(),
            old(self).free_list().len() == 0 ==> r.is_none() && final(self).free_list() == old(self).free_list(),
            old(self).free_list().len() > 0 ==> {
                &&& r.is_some()
                &&& r.unwrap()@ == old(self).free_list().last()
                &&& final(self).free_list() == old(self).free_list().drop_last()
            },
    {
        if self.free.len() == 0 {
            return None;
        }
        let addr = self.free.pop().unwrap();
        proof {
            assert(self.free@ =~= old(self).free@.drop_last());
            assert forall|i: int| 0 <= i < self.free@.len() implies self.managed@.contains(#[trigger] self.free@[i]) by {
                assert(self.free@[i] == old(self).free@[i]);
            }
        }
        Some(FreeListAllocation::new(addr))
    }

    /// Return an allocation to the head of the free list and invalidate the
    /// handle.
    ///
    /// The allocation must be valid;
    /// the caller guarantees that it came from this allocator and is not
    /// already free.
    pub fn dealloc(&mut self, allocation: &mut FreeListAllocation<N>)
        requires
            old(self).wf(),
            old(allocation)@ != 0,
            old(self).is_outstanding(old(allocation)@),
        ensures
            final(self).wf(),
            final(self).blocks() == old(self).blocks(),
            final(self).total() == old(self).total(),
            final(self).free_list() == old(self).free_list().push(old(allocation)@),
            final(allocation)@ == 0,
    {
        let addr = allocation.start_addr();
        self.free.push(addr);
        allocation.invalidate();
        proof {
            assert forall|i: int| 0 <= i < self.free@.len() implies self.managed@.contains(#[trigger] self.free@[i]) by {
                if i < old(self).free@.len() {
                    assert(self.free@[i] == old(self).free@[i]);
                }
            }
            assert forall|i: int, j: int| 0 <= i < self.free@.len() && 0 <= j < self.free@.len() && i != j
                implies self.free@[i] != self.free@[j] by {
                if i < old(self).free@.len() && j < old(self).free@.len() {
                    assert(old(self).free@[i] != old(self).free@[j]);
                } else if i < old(self).free@.len() {
                    assert(old(self).free@.contains(self.free@[i]));
                } else {
                    assert(old(self).free@.contains(self.free@[j]));
                }
            }
        }
    }

    /// Allocate a block as `alloc_block` does, and set its bytes to zero.
    pub fn alloc_zeroed(&mut self, mem: &mut MemoryImage) -> (r: Option<FreeListAllocation<N>>)
        requires
            old(self).wf(),
            old(mem).wf(),
        ensures
            final(self).wf(),
            final(self).blocks() == old(self).blocks(),
            final(self).total() == old(self).total(),
            old(self).free_list().len() == 0 ==> {
                &&& r.is_none()
                &&& final(self).free_list() == old(self).free_list()
                &&& *final(mem) == *old(mem)
            },
            old(self).free_list().len() > 0 ==> {
                &&& r.is_some()
                &&& r.unwrap()@ == old(self).free_list().last()
                &&& final(self).free_list() == old(self).free_list().drop_last()
                &&& zeroed_range(*old(mem), *final(mem), r.unwrap()@ as int, N as int)
            },
    {
        match self.alloc_block() {
            Some(a) => {
                proof {
                    old(self).lemma_free_list_facts();
                    let last = old(self).free_list().len() - 1;
                    assert(old(self).blocks().contains(old(self).free_list()[last]));
                }
                a.clear(mem);
                Some(a)
            },
            None => None,
        }
    }

    /// Set the bytes of an outstanding block to zero, then free it as
    /// `dealloc` does.
    pub fn dealloc_zeroed(&mut self, allocation: &mut FreeListAllocation<N>, mem: &mut MemoryImage)
        requires
            old(self).wf(),
            old(mem).wf(),
            old(allocation)@ != 0,
            old(self).is_outstanding(old(allocation)@),
        ensures
            final(self).wf(),
            final(self).blocks() == old(self).blocks(),
            final(self).total() == old(self).total(),
            final(self).free_list() == old(self).free_list().push(old(allocation)@),
            final(allocation)@ == 0,
            zeroed_range(*old(mem), *final(mem), old(allocation)@ as int, N as int),
    {
        allocation.clear(mem);
        self.dealloc(allocation);
    }

    /// Number of free blocks.
    pub fn free_count(&self) -> (r: usize)
        ensures
            r == self.free_list().len(),
    {
        self.free.len()
    }

    /// Number of blocks ever added to this allocator.
    pub fn total_count(&self) -> (r: u64)
        ensures
            r == self.total(),
    {
        self.total_count
    }

    /// Free memory in bytes.
    pub fn free_bytes(&self) -> (r: u64)
        requires
            self.wf(),
        ensures
            r == self.free_list().len() * N,
    {
        proof { self.lemma_free_within_total(); }
        self.free.len() as u64 * N
    }

    /// Total managed memory in bytes.
    pub fn total_bytes(&self) -> (r: u64)
        requires
            self.wf(),
        ensures
            r == self.total() * N,
    {
        proof { self.lemma_free_within_total(); }
        self.total_count * N
    }

    /// The address of the head of the free list (the block handed out
    /// next), or `0` when the list is empty.
    pub fn head_addr(&self) -> (r: u64)
        ensures
            r == (if self.free_list().len() == 0 { 0 } else { self.free_list().last() }),
    {
        if self.free.len() == 0 {
            0
        } else {
            self.free[self.free.len() - 1]
        }
    }

    /// The free list holds distinct, non-null, `N`-aligned blocks of this
    /// allocator, `N` is a power of two, and the allocator manages exactly
    /// `total()` blocks, so `total() - free_list().len()` are handed out.
    pub proof fn lemma_free_list_facts(&self)
        requires
            self.wf(),
        ensures
            is_power_of_two(N),
            self.blocks().finite(),
            self.blocks().len() == self.total(),
            self.free_list().no_duplicates(),
            forall|i: int| 0 <= i < self.free_list().len() ==> #[trigger] self.blocks().contains(self.free_list()[i]),
            forall|a: u64| #[trigger] self.blocks().contains(a) ==> a % N == 0 && a != 0,
    {
    }

    /// The free blocks never outnumber the managed ones, and the managed
    /// bytes fit in 64 bits.
    pub proof fn lemma_free_within_total(&self)
        requires
            self.wf(),
        ensures
            self.free_list().len() <= self.total(),
            self.total() * N <= u64::MAX,
            self.free_list().len() * N <= u64::MAX,
    {
        let k = choose|k: nat| k < 64 && N == pow2(k);
        lemma_pow2_pos(k);
        lemma_aligned_set_bytes_fit(self.managed@, N);
        self.free@.unique_seq_to_set();
        assert(self.free@.to_set().subset_of(self.managed@));
        vstd::set_lib::lemma_len_subset(self.free@.to_set(), self.managed@);
        assert(self.free@.len() * N <= self.total_count * N) by (nonlinear_arith)
            requires self.free@.len() <= self.total_count, N > 0;
    }
}

impl<const N: u64> FreeListAllocator<N> {
    /// The blocks handed out and not given back.
    pub open spec fn outstanding(&self) -> Set<u64> {
        self.blocks().difference(self.free_list().to_set())
    }

    /// Every managed block is free or handed out: the number handed out is
    /// `total() - free_list().len()`, so the free count is the total count
    /// less the outstanding allocations.
    pub proof fn lemma_free_is_total_less_outstanding(&self)
        requires
            self.wf(),
        ensures
            self.outstanding().finite(),
            self.free_list().len() == self.total() - self.outstanding().len(),
            forall|a: u64| #[trigger] self.outstanding().contains(a) <==> self.is_outstanding(a),
    {
        let b = self.blocks();
        let f = self.free_list().to_set();
        self.free@.unique_seq_to_set();
        assert(f.subset_of(b));
        vstd::set_lib::lemma_len_subset(f, b);
        vstd::set_lib::lemma_set_difference_len(b, f);
        assert(b.intersect(f) =~= f);
        vstd::set_lib::lemma_len_difference(b, f);
    }
}

/// Number of bytes in one kernel heap chunk.
pub const HEAP_CHUNK_SIZE: u64 = 8;

/// A run of contiguous chunks handed out by a [`ChunkAllocator`]: its start
/// address, its number of chunks, and whether the global allocator has
/// taken ownership of it. Address `0` marks an invalid allocation.
#[derive(Debug)]
pub struct ChunkAllocation<const N: u64> {
    addr: u64,
    num: usize,
    leaked: bool,
}

impl<const N: u64> ChunkAllocation<N> {
    /// The start address.
    pub closed spec fn addr(&self) -> u64 {
        self.addr
    }

    /// The number of chunks.
    pub closed spec fn count(&self) -> nat {
        self.num as nat
    }

    /// Whether the global allocator owns the allocation.
    pub closed spec fn is_leaked(&self) -> bool {
        self.leaked
    }

    /// Create an allocation handle for `num` chunks at `addr` (not checked
    /// against any allocator); it is not marked as leaked.
    pub fn new(addr: u64, num: usize) -> (r: Self)
        ensures
            r.addr() == addr,
            r.count() == num,
            !r.is_leaked(),
    {
        Self { addr, num, leaked: false }
    }

    /// The starting address.
    pub fn start_addr(&self) -> (r: u64)
        ensures
            r == self.addr(),
    {
        self.addr
    }

    /// The ending (exclusive) address.
    pub fn end_addr(&self) -> (r: u64)
        requires
            self.addr() + self.count() * N <= u64::MAX,
        ensures
            r == self.addr() + self.count() * N,
    {
        proof {
            assert(0 <= self.count() * N) by (nonlinear_arith);
        }
        self.start_addr() + self.len()
    }

    /// The number of chunks.
    pub fn num_chunks(&self) -> (r: usize)
        ensures
            r == self.count(),
    {
        self.num
    }

    /// The number of bytes.
    pub fn len(&self) -> (r: u64)
        requires
            self.count() * N <= u64::MAX,
        ensures
            r == self.count() * N,
    {
        self.num as u64 * N
    }

    /// The allocation is valid: its address is not null.
    pub fn is_valid(&self) -> (r: bool)
        ensures
            r == (self.addr() != 0),
    {
        self.addr != 0
    }

    /// The allocation is invalid: its address is null.
    pub fn is_invalid(&self) -> (r: bool)
        ensures
            r == (self.addr() == 0),
    {
        !self.is_valid()
    }

    /// Invalidate the allocation after it is freed: null address, no
    /// chunks, not leaked.
    pub fn invalidate(&mut self)
        ensures
            final(self).addr() == 0,
            final(self).count() == 0,
            !final(self).is_leaked(),
    {
        self.addr = 0;
        self.num = 0;
        self.leaked = false;
    }

    /// Mark the allocation as owned by the global allocator, which frees it
    /// later.
    pub fn leak(&mut self)
        ensures
            final(self).addr() == old(self).addr(),
            final(self).count() == old(self).count(),
            final(self).is_leaked(),
    {
        self.leaked = true;
    }

    /// Set every byte of the allocation to zero; an invalid allocation
    /// leaves memory as it is.
    pub fn clear(&self, mem: &mut MemoryImage)
        requires
            old(mem).wf(),
            self.count() * N <= u64::MAX,
        ensures
            self.addr() == 0 ==> *final(mem) == *old(mem),
            self.addr() != 0 ==> zeroed_range(*old(mem), *final(mem), self.addr() as int, self.count() * N),
    {
        if self.is_valid() {
            let n = self.len();
            mem.fill_zero(self.addr, n);
        }
    }

    /// The address of the first byte.
    pub fn as_ptr(&self) -> (r: u64)
        ensures
            r == self.addr(),
    {
        self.addr
    }

    /// The address of the first byte, for writing.
    pub fn as_mut_ptr(&mut self) -> (r: u64)
        ensures
            r == old(self).addr(),
            *final(self) == *old(self),
    {
        self.addr
    }

    /// The address `offset` bytes into the allocation, or `None` when the
    /// allocation is invalid or the offset is past its end.
    pub fn as_ptr_offset(&self, offset: u64) -> (r: Option<u64>)
        requires
            self.addr() + self.count() * N <= u64::MAX,
        ensures
            r == (if self.addr() != 0 && offset < self.count() * N {
                Some((self.addr() + offset) as u64)
            } else {
                None::<u64>
            }),
    {
        proof {
            assert(0 <= self.count() * N) by (nonlinear_arith);
        }
        if self.is_invalid() || offset >= self.len() {
            return None;
        }
        Some(self.addr + offset)
    }

    /// The address `offset` bytes into the allocation, for writing, or
    /// `None` when the allocation is invalid or the offset is past its end.
    pub fn as_mut_ptr_offset(&mut self, offset: u64) -> (r: Option<u64>)
        requires
            old(self).addr() + old(self).count() * N <= u64::MAX,
        ensures
            *final(self) == *old(self),
            r == (if old(self).addr() != 0 && offset < old(self).count() * N {
                Some((old(self).addr() + offset) as u64)
            } else {
                None::<u64>
            }),
    {
        self.as_ptr_offset(offset)
    }
}

/// Bytes of bookkeeping bitmap for `num` chunks: one bit per chunk.
pub open spec fn chunk_book_len(num: int) -> int {
    (num + 7) / 8
}

/// Offset of the chunk pool from the heap start: the bitmap rounded up to a
/// whole chunk.
pub open spec fn chunk_pool_offset(num: int, n: int) -> int {
    round_up(chunk_book_len(num), n)
}

/// `num` chunks of `n` bytes and their bitmap fit in `total` bytes.
pub open spec fn chunk_layout_fits(num: int, total: int, n: int) -> bool {
    chunk_pool_offset(num, n) <= total && num <= (total - chunk_pool_offset(num, n)) / n
}

/// `x * 8`, saturated at the maximum of `usize`.
pub open spec fn saturating_times_8(x: usize) -> int {
    if x * 8 > usize::MAX { usize::MAX as int } else { x * 8 }
}

/// `n * 8 + 1`, each step saturated at the maximum of `u64`.
pub open spec fn chunk_denominator(n: u64) -> int {
    let times8 = if n * 8 > u64::MAX { u64::MAX as int } else { n * 8 };
    if times8 + 1 > u64::MAX { u64::MAX as int } else { times8 + 1 }
}

/// First estimate of the chunk count for a heap of `total` bytes: each chunk
/// costs `n` bytes plus one bit.
pub open spec fn chunk_estimate(total: usize, n: u64) -> int {
    saturating_times_8(total) / chunk_denominator(n)
}

/// The largest count not above `k` whose layout fits in `total` bytes (or
/// `0` when none does).
pub open spec fn chunk_fit_down(k: int, total: int, n: int) -> int
    decreases k,
{
    if k <= 0 || chunk_layout_fits(k, total, n) {
        k
    } else {
        chunk_fit_down(k - 1, total, n)
    }
}

/// The number of chunks a heap of `total` bytes holds.
pub open spec fn chunk_count_for(total: usize, n: u64) -> int {
    chunk_fit_down(chunk_estimate(total, n), total as int, n as int)
}

/// `chunk_fit_down` picks the largest fitting count below its start.
pub proof fn lemma_chunk_fit_down(k: int, total: int, n: int)
    requires
        k >= 0,
    ensures
        0 <= chunk_fit_down(k, total, n) <= k,
        chunk_fit_down(k, total, n) == 0 || chunk_layout_fits(chunk_fit_down(k, total, n), total, n),
        forall|j: int| chunk_fit_down(k, total, n) < j <= k ==> !#[trigger] chunk_layout_fits(j, total, n),
    decreases k,
{
    if k > 0 && !chunk_layout_fits(k, total, n) {
        lemma_chunk_fit_down(k - 1, total, n);
    }
}

/// No count above the estimate fits: `m` chunks take `m * n` bytes and `m`
/// bits of bitmap, so `m * (8 * n + 1) <= 8 * total` whenever they fit
/// (when neither product saturates).
pub proof fn lemma_chunk_estimate_is_an_upper_bound(total: usize, n: u64, m: int)
    requires
        n >= 1,
        total * 8 <= usize::MAX,
        n * 8 + 1 <= u64::MAX,
        m > chunk_estimate(total, n),
    ensures
        !chunk_layout_fits(m, total as int, n as int),
{
    let t = total as int;
    let ni = n as int;
    let d = 8 * ni + 1;
    assert(chunk_denominator(n) == d);
    assert(saturating_times_8(total) == 8 * t);
    assert(chunk_estimate(total, n) == (8 * t) / d);
    if chunk_layout_fits(m, t, ni) {
        let bl = chunk_book_len(m);
        let off = chunk_pool_offset(m, ni);
        vstd::arithmetic::div_mod::lemma_mod_bound(bl + ni - 1, ni);
        assert(off >= bl);
        assert(8 * bl >= m) by {
            vstd::arithmetic::div_mod::lemma_fundamental_div_mod(m + 7, 8);
            vstd::arithmetic::div_mod::lemma_mod_bound(m + 7, 8);
        }
        assert(m >= 0) by {
            if m < 0 {
                vstd::arithmetic::div_mod::lemma_div_pos_is_pos(8 * t, d);
            }
        }
        let q = (t - off) / ni;
        vstd::arithmetic::div_mod::lemma_fundamental_div_mod(t - off, ni);
        vstd::arithmetic::div_mod::lemma_mod_bound(t - off, ni);
        assert(m * ni <= q * ni) by (nonlinear_arith) requires m <= q, ni >= 1;
        assert(q * ni <= t - off) by (nonlinear_arith)
            requires t - off == ni * q + (t - off) % ni, (t - off) % ni >= 0;
        assert(m * d <= 8 * t) by (nonlinear_arith)
            requires m * ni <= t - off, off >= bl, 8 * bl >= m, d == 8 * ni + 1;
        vstd::arithmetic::div_mod::lemma_fundamental_div_mod(8 * t, d);
        vstd::arithmetic::div_mod::lemma_mod_bound(8 * t, d);
        assert(false) by (nonlinear_arith)
            requires m > (8 * t) / d, m * d <= 8 * t, 8 * t == d * ((8 * t) / d) + (8 * t) % d,
                (8 * t) % d < d, d > 0;
    }
}

/// The chunk with index `i` is marked allocated in the bitmap `book`.
pub open spec fn book_bit(book: Seq<u8>, i: int) -> bool {
    (book[i / 8] >> ((i % 8) as u8)) & 1u8 == 1u8
}

/// Allocates runs of contiguous fixed-size chunks from one heap range, with
/// first fit. A bitmap holds one bit per chunk (set: allocated); the bitmap
/// sits at the start of the heap range and the chunks follow it, aligned to
/// the chunk size.
pub struct ChunkAllocator<const N: u64> {
    book: Vec<u8>,
    pool_start: u64,
    pool_len: usize,
}

impl<const N: u64> ChunkAllocator<N> {
    /// Allocation state of each chunk, `true` for allocated.
    pub closed spec fn chunks(&self) -> Seq<bool> {
        Seq::new(self.pool_len as nat, |i: int| book_bit(self.book@, i))
    }

    /// Address of the first chunk.
    pub closed spec fn pool_base(&self) -> u64 {
        self.pool_start
    }

    /// Address of the bitmap: the start of the heap range, the pool's
    /// offset below the first chunk.
    pub closed spec fn book_base(&self) -> int {
        self.pool_start - chunk_pool_offset(self.pool_len as int, N as int)
    }

    /// The bytes of the bitmap.
    pub closed spec fn book_bytes(&self) -> Seq<u8> {
        self.book@
    }

    /// The allocator's invariant: `N` is a power of two; the bitmap has one
    /// bit per chunk; the pool starts at a non-null multiple of `N` and ends
    /// within the address space.
    pub closed spec fn wf(&self) -> bool {
        &&& is_power_of_two(N)
        &&& self.book@.len() == chunk_book_len(self.pool_len as int)
        &&& self.pool_start != 0
        &&& self.pool_start % N == 0
        &&& self.pool_start + self.pool_len * N <= u64::MAX
    }

    /// Address of chunk `i`.
    pub open spec fn chunk_addr(&self, i: int) -> int {
        self.pool_base() + i * N
    }

    /// Create an allocator over the heap range of `total` bytes at `start`,
    /// with every chunk free: the bitmap, all zero, at `start`, and the
    /// chunks after it. The chunk count starts from the estimate
    /// `total * 8 / (8 * N + 1)` and drops until the bitmap, rounded up to a
    /// whole chunk, and the chunks fit in the range.
    ///
    /// The caller guarantees that the range is mapped, writable and used by
    /// nothing else, so it lies within the address space. The start must be
    /// non-null and chunk-aligned.
    #[verifier::spinoff_prover]
    pub fn new(start: u64, total: usize) -> (r: Self)
        requires
            is_power_of_two(N),
            start != 0,
            start % N == 0,
            chunk_book_len(chunk_estimate(total, N)) + N <= u64::MAX,
            start + total <= u64::MAX,
        ensures
            r.wf(),
            r.chunks().len() == chunk_count_for(total, N),
            r.pool_base() == start + chunk_pool_offset(chunk_count_for(total, N), N as int),
            forall|i: int| 0 <= i < r.chunks().len() ==> !r.chunks()[i],
            r.book_base() == start,
            r.book_bytes() == Seq::new(chunk_book_len(chunk_count_for(total, N)) as nat, |i: int| 0u8),
            r.book_base() + r.book_bytes().len() <= r.pool_base(),
            total * 8 <= usize::MAX && N * 8 + 1 <= u64::MAX ==> forall|m: int| m > r.chunks().len()
                ==> !#[trigger] chunk_layout_fits(m, total as int, N as int),
    {
        proof { lemma_mask_rounds_down(0, N); }
        let times8: u64 = match N.checked_mul(8) {
            Some(x) => x,
            None => u64::MAX,
        };
        let denominator: u64 = match times8.checked_add(1) {
            Some(x) => x,
            None => u64::MAX,
        };
        let total8: usize = match total.checked_mul(8) {
            Some(x) => x,
            None => usize::MAX,
        };
        let mut num_chunks: usize = (total8 as u64 / denominator) as usize;
        let ghost est = chunk_estimate(total, N);
        proof {
            assert(denominator == chunk_denominator(N));
            assert(total8 == saturating_times_8(total));
            assert(denominator >= 9) by {
                assert(N >= 1);
            }
            assert(total8 as u64 / denominator <= total8 / 9) by {
                vstd::arithmetic::div_mod::lemma_div_is_ordered_by_denominator(total8 as int, 9, denominator as int);
            }
            lemma_chunk_fit_down(est, total as int, N as int);
        }
        let mut book_len: usize = (num_chunks + 7) / 8;
        let mut pool_offset: u64 = align_up_pot(book_len as u64, N);
        while num_chunks > 0 && (pool_offset > total as u64 || num_chunks as u64 > (total as u64 - pool_offset) / N)
            invariant
                is_power_of_two(N),
                N > 0,
                0 <= num_chunks <= est,
                est <= usize::MAX / 9,
                pool_offset % N == 0,
                book_len == chunk_book_len(num_chunks as int),
                pool_offset == chunk_pool_offset(num_chunks as int, N as int),
                chunk_book_len(est) + N <= u64::MAX,
                chunk_fit_down(est, total as int, N as int) <= num_chunks,
                forall|j: int| chunk_fit_down(est, total as int, N as int) < j <= est
                    ==> !#[trigger] chunk_layout_fits(j, total as int, N as int),
                chunk_fit_down(est, total as int, N as int) == 0
                    || chunk_layout_fits(chunk_fit_down(est, total as int, N as int), total as int, N as int),
            decreases num_chunks,
        {
            num_chunks -= 1;
            book_len = (num_chunks + 7) / 8;
            pool_offset = align_up_pot(book_len as u64, N);
        }
        proof {
            assert(num_chunks == 0 || chunk_layout_fits(num_chunks as int, total as int, N as int));
            assert(num_chunks == chunk_fit_down(est, total as int, N as int));
        }
        let mut book: Vec<u8> = Vec::new();
        while book.len() < book_len
            invariant
                book.len() <= book_len,
                forall|j: int| 0 <= j < book@.len() ==> book@[j] == 0u8,
            decreases book_len - book.len(),
        {
            book.push(0u8);
        }
        proof {
            if num_chunks == 0 {
                vstd::arithmetic::div_mod::lemma_small_mod((N - 1) as nat, N as nat);
            }
            assert(pool_offset <= total);
        }
        let pool_start = start + pool_offset;
        proof {
            assert(pool_offset % N == 0);
            assert(pool_start % N == 0) by {
                vstd::arithmetic::div_mod::lemma_add_mod_noop(start as int, pool_offset as int, N as int);
            }
            assert(num_chunks == 0 || chunk_layout_fits(num_chunks as int, total as int, N as int));
            assert(pool_start + num_chunks * N <= start + total) by {
                if num_chunks > 0 {
                    vstd::arithmetic::div_mod::lemma_fundamental_div_mod((total - pool_offset) as int, N as int);
                    assert(num_chunks * N <= total - pool_offset) by (nonlinear_arith)
                        requires num_chunks <= (total - pool_offset) / (N as int), N > 0,
                            (total - pool_offset) == N * ((total - pool_offset) / (N as int)) + (total - pool_offset) % (N as int),
                            (total - pool_offset) % (N as int) >= 0;
                    assert(total <= usize::MAX);
                }
            }
            assert forall|i: int| 0 <= i < num_chunks implies !book_bit(book@, i) by {
                assert(0 <= i / 8 < book@.len());
                let b = book@[i / 8];
                let k = (i % 8) as u8;
                assert(b == 0u8);
                assert((b >> k) & 1u8 == 0u8) by (bit_vector) requires b == 0u8;
            }
        }
        proof {
            assert(book@ =~= Seq::new(chunk_book_len(num_chunks as int) as nat, |i: int| 0u8));
            if total * 8 <= usize::MAX && N * 8 + 1 <= u64::MAX {
                assert forall|m: int| m > num_chunks implies !#[trigger] chunk_layout_fits(m, total as int, N as int) by {
                    if m > est {
                        lemma_chunk_estimate_is_an_upper_bound(total, N, m);
                    }
                }
            }
        }
        Self { book, pool_start, pool_len: num_chunks }
    }
}

/// The chunks `f .. f + num` are all free.
pub open spec fn window_free(bits: Seq<bool>, f: int, num: int) -> bool {
    forall|i: int| f <= i < f + num ==> !#[trigger] bits[i]
}

/// `f` is the first-fit start for `num` chunks: the lowest index at which
/// `num` free chunks in a row begin.
pub open spec fn is_first_fit(bits: Seq<bool>, num: int, f: int) -> bool {
    &&& 0 <= f
    &&& f + num <= bits.len()
    &&& window_free(bits, f, num)
    &&& forall|g: int| 0 <= g < f ==> !#[trigger] window_free(bits, g, num)
}

/// Some run of `num` free chunks exists.
pub open spec fn has_free_window(bits: Seq<bool>, num: int) -> bool {
    exists|f: int| 0 <= f && f + num <= bits.len() && #[trigger] window_free(bits, f, num)
}

/// `bits` with the chunks `f .. f + num` set to `v`.
pub open spec fn set_range(bits: Seq<bool>, f: int, num: int, v: bool) -> Seq<bool> {
    Seq::new(bits.len(), |i: int| if f <= i < f + num { v } else { bits[i] })
}

/// Marking chunks allocated or free keeps their number: as `nalloc`,
/// `nalloc_zeroed`, `dealloc` and `set_allocated` change the chunks only so,
/// an allocator keeps the chunk count `new` gave it, and its free and
/// allocated chunks always add up to that count.
pub proof fn lemma_chunk_count_kept(bits: Seq<bool>, f: int, num: int, v: bool, i: int)
    ensures
        set_range(bits, f, num, v).len() == bits.len(),
        0 <= i < bits.len() ==> bits.update(i, v).len() == bits.len(),
        0 <= count_true(bits) <= bits.len(),
{
    lemma_count_true_bound(bits);
}

/// Number of `true` entries.
pub open spec fn count_true(s: Seq<bool>) -> nat
    decreases s.len(),
{
    if s.len() == 0 {
        0
    } else {
        count_true(s.drop_last()) + if s.last() { 1nat } else { 0nat }
    }
}

/// A sequence has no more `true` entries than elements.
pub proof fn lemma_count_true_bound(s: Seq<bool>)
    ensures
        count_true(s) <= s.len(),
    decreases s.len(),
{
    if s.len() > 0 {
        lemma_count_true_bound(s.drop_last());
    }
}

proof fn lemma_bit_of_mask(b: u8, k: u8)
    requires
        k < 8,
    ensures
        (b & (1u8 << k) != 0u8) == ((b >> k) & 1u8 == 1u8),
        forall|j: u8| j < 8 ==> #[trigger] (((b | (1u8 << k)) >> j) & 1u8) == (if j == k { 1u8 } else { (b >> j) & 1u8 }),
        forall|j: u8| j < 8 ==> #[trigger] (((b & !(1u8 << k)) >> j) & 1u8) == (if j == k { 0u8 } else { (b >> j) & 1u8 }),
{
    assert((b & (1u8 << k) != 0u8) == ((b >> k) & 1u8 == 1u8)) by (bit_vector) requires k < 8;
    assert(forall|j: u8| j < 8 ==> #[trigger] (((b | (1u8 << k)) >> j) & 1u8) == (if j == k { 1u8 } else { (b >> j) & 1u8 })) by (bit_vector)
        requires k < 8;
    assert(forall|j: u8| j < 8 ==> #[trigger] (((b & !(1u8 << k)) >> j) & 1u8) == (if j == k { 0u8 } else { (b >> j) & 1u8 })) by (bit_vector)
        requires k < 8;
}

impl<const N: u64> ChunkAllocator<N> {
    /// Is chunk `which` allocated?
    fn is_allocated(&self, which: usize) -> (r: bool)
        requires
            self.wf(),
            which < self.chunks().len(),
        ensures
            r == self.chunks()[which as int],
    {
        let byte = which / 8;
        let bit = (which % 8) as u8;
        proof { lemma_bit_of_mask(self.book@[byte as int], bit); }
        self.book[byte] & (1u8 << bit) != 0
    }

    /// Set or clear the allocation bit of chunk `which`.
    fn set_allocated(&mut self, which: usize, allocated: bool)
        requires
            old(self).wf(),
            which < old(self).chunks().len(),
        ensures
            final(self).wf(),
            final(self).pool_base() == old(self).pool_base(),
            final(self).chunks() == old(self).chunks().update(which as int, allocated),
    {
        let byte = which / 8;
        let bit = (which % 8) as u8;
        let mask: u8 = 1u8 << bit;
        let old_byte = self.book[byte];
        proof { lemma_bit_of_mask(old_byte, bit); }
        if allocated {
            self.book.set(byte, old_byte | mask);
        } else {
            self.book.set(byte, old_byte & !mask);
        }
        proof {
            assert forall|i: int| 0 <= i < self.pool_len implies #[trigger] book_bit(self.book@, i)
                == old(self).chunks().update(which as int, allocated)[i] by {
                if i / 8 == byte as int {
                    let j = (i % 8) as u8;
                    assert(j < 8);
                    if i != which as int {
                        assert(j != bit);
                    }
                }
            }
            assert(self.chunks() =~= old(self).chunks().update(which as int, allocated));
        }
    }

    /// Allocate `num` contiguous chunks at the lowest index where `num` free
    /// chunks in a row begin (first fit), and mark them allocated. `None`
    /// when `num` is zero, exceeds the pool, or no such run exists.
    pub fn nalloc(&mut self, num: usize) -> (r: Option<ChunkAllocation<N>>)
        requires
            old(self).wf(),
        ensures
            final(self).wf(),
            final(self).pool_base() == old(self).pool_base(),
            r.is_some() == (num > 0 && has_free_window(old(self).chunks(), num as int)),
            r.is_none() ==> final(self).chunks() == old(self).chunks(),
            r.is_some() ==> {
                let a = r.unwrap();
                let f = (a.addr() - old(self).pool_base()) / (N as int);
                &&& is_first_fit(old(self).chunks(), num as int, f)
                &&& a.addr() == old(self).chunk_addr(f)
                &&& a.count() == num
                &&& !a.is_leaked()
                &&& final(self).chunks() == set_range(old(self).chunks(), f, num as int, true)
            },
    {
        let ghost bits = self.chunks();
        proof { lemma_mask_rounds_down(0, N); }
        if num == 0 || num > self.pool_len {
            proof {
                if num > self.pool_len && has_free_window(bits, num as int) {
                    let f = choose|f: int| 0 <= f && f + num <= bits.len() && #[trigger] window_free(bits, f, num as int);
                }
            }
            return None;
        }
        let mut first: usize = 0;
        let mut run: usize = 0;
        let mut which: usize = 0;
        while which < self.pool_len
            invariant
                self.wf(),
                self.chunks() == bits,
                *self == *old(self),
                N > 0,
                0 < num <= self.pool_len,
                which <= self.pool_len,
                run < num,
                run <= which,
                run > 0 ==> first == which - run,
                forall|i: int| which - run <= i < which ==> !#[trigger] bits[i],
                run < which ==> bits[which - run - 1],
                forall|f: int| 0 <= f && f + num <= which ==> !#[trigger] window_free(bits, f, num as int),
            decreases self.pool_len - which,
        {
            if self.is_allocated(which) {
                proof {
                    assert forall|f: int| 0 <= f && f + num <= which + 1 implies !#[trigger] window_free(bits, f, num as int) by {
                        if f + num == which + 1 {
                            assert(bits[which as int]);
                        }
                    }
                }
                run = 0;
                which += 1;
                continue;
            }
            if run == 0 {
                first = which;
            }
            run += 1;
            if run == num {
                proof {
                    assert(window_free(bits, first as int, num as int));
                    assert forall|g: int| 0 <= g < first implies !#[trigger] window_free(bits, g, num as int) by {
                        assert(g + num <= which);
                    }
                    assert(is_first_fit(bits, num as int, first as int));
                }
                let mut allocated = first;
                while allocated < first + num
                    invariant
                        self.wf(),
                        self.pool_base() == old(self).pool_base(),
                        first + num <= self.chunks().len(),
                        self.chunks().len() == bits.len(),
                        N > 0,
                        first <= allocated <= first + num,
                        self.chunks() == set_range(bits, first as int, allocated - first, true),
                    decreases first + num - allocated,
                {
                    self.set_allocated(allocated, true);
                    proof {
                        assert(self.chunks() =~= set_range(bits, first as int, allocated + 1 - first, true));
                    }
                    allocated += 1;
                }
                proof {
                    let len = self.pool_len;
                    assert(first * N <= len * N) by (nonlinear_arith)
                        requires first <= len, N > 0;
                    assert((first * N) / (N as int) == first) by {
                        vstd::arithmetic::div_mod::lemma_div_multiples_vanish(first as int, N as int);
                        assert(first * N == (N as int) * first) by (nonlinear_arith);
                    }
                }
                let addr = self.pool_start + first as u64 * N;
                return Some(ChunkAllocation::new(addr, num));
            }
            proof {
                assert forall|f: int| 0 <= f && f + num <= which + 1 implies !#[trigger] window_free(bits, f, num as int) by {
                    if f + num == which + 1 {
                        assert(bits[which - run]);
                    }
                }
            }
            which += 1;
        }
        proof {
            if has_free_window(bits, num as int) {
                let f = choose|f: int| 0 <= f && f + num <= bits.len() && #[trigger] window_free(bits, f, num as int);
            }
        }
        None
    }
}

impl<const N: u64> ChunkAllocator<N> {
    /// The pool lies within the address space, and the chunk size is a
    /// power of two.
    pub proof fn lemma_pool_bound(&self)
        requires
            self.wf(),
        ensures
            is_power_of_two(N),
            self.pool_base() + self.chunks().len() * N <= u64::MAX,
            self.pool_base() != 0,
    {
    }

    /// Allocate as `nalloc` does, and set the bytes of the allocation to
    /// zero.
    pub fn nalloc_zeroed(&mut self, num: usize, mem: &mut MemoryImage) -> (r: Option<ChunkAllocation<N>>)
        requires
            old(self).wf(),
            old(mem).wf(),
        ensures
            final(self).wf(),
            final(self).pool_base() == old(self).pool_base(),
            r.is_some() == (num > 0 && has_free_window(old(self).chunks(), num as int)),
            r.is_none() ==> final(self).chunks() == old(self).chunks() && *final(mem) == *old(mem),
            r.is_some() ==> {
                let a = r.unwrap();
                let f = (a.addr() - old(self).pool_base()) / (N as int);
                &&& is_first_fit(old(self).chunks(), num as int, f)
                &&& a.addr() == old(self).chunk_addr(f)
                &&& a.count() == num
                &&& !a.is_leaked()
                &&& final(self).chunks() == set_range(old(self).chunks(), f, num as int, true)
                &&& zeroed_range(*old(mem), *final(mem), a.addr() as int, num * N)
            },
    {
        proof { old(self).lemma_pool_bound(); }
        match self.nalloc(num) {
            Some(a) => {
                proof {
                    let f = (a.addr() - old(self).pool_base()) / (N as int);
                    let total = old(self).chunks().len() as int;
                    assert(is_first_fit(old(self).chunks(), num as int, f));
                    assert(0 <= f && f + num <= total);
                    assert(num * N <= total * N) by (nonlinear_arith)
                        requires num <= total, N >= 0;
                }
                a.clear(mem);
                Some(a)
            },
            None => None,
        }
    }

    /// Whether `allocation` can be freed here: it is valid, starts at a
    /// chunk of this pool and lies wholly inside it.
    pub fn dealloc_fits(&self, allocation: &ChunkAllocation<N>) -> (r: bool)
        requires
            self.wf(),
        ensures
            r == (allocation.addr() != 0
                && allocation.addr() >= self.pool_base()
                && (allocation.addr() - self.pool_base()) % (N as int) == 0
                && (allocation.addr() - self.pool_base()) / (N as int) + allocation.count() <= self.chunks().len()),
    {
        proof { lemma_mask_rounds_down(0, N); }
        if allocation.start_addr() == 0 || allocation.start_addr() < self.pool_start {
            return false;
        }
        let offset = allocation.start_addr() - self.pool_start;
        if offset % N != 0 {
            return false;
        }
        let first = offset / N;
        first <= self.pool_len as u64 && (allocation.num_chunks() as u64) <= self.pool_len as u64 - first
    }

    /// Free a chunk allocation: clear the bits of its chunks and invalidate
    /// the handle.
    ///
    /// The allocation must be valid, start at a chunk of this pool and lie
    /// wholly inside it; the caller
    /// guarantees that it came from this allocator and is not already free.
    pub fn dealloc(&mut self, allocation: &mut ChunkAllocation<N>)
        requires
            old(self).wf(),
            old(allocation).addr() != 0,
            old(allocation).addr() >= old(self).pool_base(),
            (old(allocation).addr() - old(self).pool_base()) % (N as int) == 0,
            (old(allocation).addr() - old(self).pool_base()) / (N as int) + old(allocation).count()
                <= old(self).chunks().len(),
        ensures
            final(self).wf(),
            final(self).pool_base() == old(self).pool_base(),
            final(self).chunks() == set_range(
                old(self).chunks(),
                (old(allocation).addr() - old(self).pool_base()) / (N as int),
                old(allocation).count() as int,
                false,
            ),
            final(allocation).addr() == 0,
            final(allocation).count() == 0,
            !final(allocation).is_leaked(),
    {
        proof { lemma_mask_rounds_down(0, N); }
        let offset = allocation.start_addr() - self.pool_start;
        let first_u64 = offset / N;
        let ghost bits = self.chunks();
        proof {
            assert(first_u64 <= self.pool_len);
        }
        let first = first_u64 as usize;
        let num = allocation.num_chunks();
        let mut which = first;
        while which < first + num
            invariant
                self.wf(),
                self.pool_base() == old(self).pool_base(),
                first + num <= bits.len(),
                self.chunks().len() == bits.len(),
                first <= which <= first + num,
                self.chunks() == set_range(bits, first as int, which - first, false),
            decreases first + num - which,
        {
            self.set_allocated(which, false);
            proof {
                assert(self.chunks() =~= set_range(bits, first as int, which + 1 - first, false));
            }
            which += 1;
        }
        allocation.invalidate();
    }

    /// The number of chunks in the pool.
    pub fn total_chunks(&self) -> (r: usize)
        ensures
            r == self.chunks().len(),
    {
        self.pool_len
    }

    /// The number of allocated chunks.
    pub fn allocated_chunks(&self) -> (r: usize)
        requires
            self.wf(),
        ensures
            r == count_true(self.chunks()),
    {
        let mut count: usize = 0;
        let mut which: usize = 0;
        while which < self.pool_len
            invariant
                self.wf(),
                which <= self.pool_len,
                count == count_true(self.chunks().take(which as int)),
                count <= which,
            decreases self.pool_len - which,
        {
            proof {
                let t = self.chunks().take(which + 1);
                assert(t.drop_last() =~= self.chunks().take(which as int));
            }
            if self.is_allocated(which) {
                count += 1;
            }
            which += 1;
        }
        proof {
            assert(self.chunks().take(which as int) =~= self.chunks());
        }
        count
    }

    /// The number of free chunks.
    pub fn free_chunks(&self) -> (r: usize)
        requires
            self.wf(),
        ensures
            r == self.chunks().len() - count_true(self.chunks()),
    {
        proof { lemma_count_true_bound(self.chunks()); }
        self.total_chunks() - self.allocated_chunks()
    }

    /// The number of bytes in the pool.
    pub fn total_bytes(&self) -> (r: u64)
        requires
            self.wf(),
        ensures
            r == self.chunks().len() * N,
    {
        self.total_chunks() as u64 * N
    }

    /// The number of free bytes in the pool.
    pub fn free_bytes(&self) -> (r: u64)
        requires
            self.wf(),
        ensures
            r == (self.chunks().len() - count_true(self.chunks())) * N,
    {
        let free = self.free_chunks();
        proof {
            let len = self.pool_len;
            assert(free * N <= len * N) by (nonlinear_arith) requires free <= len, N >= 0;
        }
        free as u64 * N
    }
}

/// Memory handed out once, in increasing address order, from one range
/// `[start, end)`: the kernel's first allocations, made before its heap
/// exists. Nothing is given back; `next` is the first byte not handed out.
pub struct BumpArena {
    start: u64,
    end: u64,
    next: u64,
}

impl BumpArena {
    /// First byte of the range.
    pub closed spec fn start(&self) -> u64 {
        self.start
    }

    /// End of the range.
    pub closed spec fn end(&self) -> u64 {
        self.end
    }

    /// First byte not handed out yet.
    pub closed spec fn next(&self) -> u64 {
        self.next
    }

    /// What has been handed out lies at the front of the range.
    pub closed spec fn wf(&self) -> bool {
        self.start <= self.next <= self.end
    }

    /// An arena over `[start, end)` with nothing handed out.
    pub fn new(start: u64, end: u64) -> (r: Self)
        requires
            start <= end,
        ensures
            r.wf(),
            r.start() == start,
            r.end() == end,
            r.next() == start,
    {
        BumpArena { start, end, next: start }
    }

    /// Hand out `size` bytes at the first multiple of `align` not before
    /// `next`, or `None` (nothing changed) when they do not fit before the
    /// end of the range.
    pub fn bump(&mut self, size: u64, align: u64) -> (r: Option<u64>)
        requires
            old(self).wf(),
            is_power_of_two(align),
        ensures
            final(self).wf(),
            final(self).start() == old(self).start(),
            final(self).end() == old(self).end(),
            r is Some <==> old(self).next() + align - 1 <= u64::MAX
                && round_up(old(self).next() as int, align as int) + size <= old(self).end(),
            r matches Some(a) ==> a == round_up(old(self).next() as int, align as int) && final(self).next() == a + size,
            r is None ==> final(self).next() == old(self).next(),
    {
        proof {
            assert(align >= 1) by {
                let k = choose|k: nat| k < 64 && align == pow2(k);
                lemma_pow2_pos(k);
            }
        }
        if self.next > u64::MAX - (align - 1) {
            return None;
        }
        let a = align_up_pot(self.next, align);
        if a > self.end || size > self.end - a {
            return None;
        }
        self.next = a + size;
        Some(a)
    }

    /// The address lies in the arena's range.
    pub fn contains(&self, addr: u64) -> (r: bool)
        ensures
            r == (self.start() <= addr < self.end()),
    {
        self.start <= addr && addr < self.end
    }
}

/// An allocation from an arena starts at or after the arena's `next`, and
/// `next` moves to its end: each allocation starts at or after the end of
/// the one before, so no two overlap.
pub proof fn lemma_arena_alloc_not_before(next: u64, align: u64)
    requires
        is_power_of_two(align),
    ensures
        round_up(next as int, align as int) >= next,
{
    let k = choose|k: nat| k < 64 && align == pow2(k);
    lemma_pow2_pos(k);
    vstd::arithmetic::div_mod::lemma_mod_bound(next + align - 1, align as int);
}

/// The chunks a request for `size` bytes aligned to `align` takes from the
/// kernel heap: `None` when the heap cannot serve it, because chunks are
/// aligned to their size and no more, or because the size rounded up to
/// whole chunks does not fit in a `usize`.
pub fn heap_request_chunks(size: usize, align: usize) -> (r: Option<usize>)
    ensures
        r == if align > HEAP_CHUNK_SIZE || size + HEAP_CHUNK_SIZE - 1 > usize::MAX {
            None::<usize>
        } else {
            Some(((size + HEAP_CHUNK_SIZE - 1) / (HEAP_CHUNK_SIZE as int)) as usize)
        },
{
    if align as u64 > HEAP_CHUNK_SIZE || size > usize::MAX - 7 {
        return None;
    }
    Some(chunks_for(size))
}

/// The number of heap chunks that hold `size` bytes.
pub fn chunks_for(size: usize) -> (r: usize)
    requires
        size + HEAP_CHUNK_SIZE - 1 <= usize::MAX,
    ensures
        r == (size + HEAP_CHUNK_SIZE - 1) / (HEAP_CHUNK_SIZE as int),
{
    (size + 7) / 8
}

/// Size of one physical page.
pub const PAGE_SIZE: u64 = 4096;

/// The kernel's allocator of 4 KiB physical pages.
pub type PageAllocator = FreeListAllocator<4096>;
/// One 4 KiB page from the page allocator.
pub type PageAllocation = FreeListAllocation<4096>;
/// The kernel heap allocator of 8-byte chunks.
pub type HeapAllocator = ChunkAllocator<8>;
/// One run of heap chunks.
pub type HeapAllocation = ChunkAllocation<8>;

/// 4096 is a power of two.
pub proof fn lemma_page_size_is_power_of_two()
    ensures
        is_power_of_two(4096),
{
    vstd::arithmetic::power2::lemma2_to64();
    assert(pow2(12) == 4096);
}

/// 8 is a power of two.
pub proof fn lemma_chunk_size_is_power_of_two()
    ensures
        is_power_of_two(8),
{
    vstd::arithmetic::power2::lemma2_to64();
    assert(pow2(3) == 8);
}

/// Freeing a block and then allocating hands the same block back and
/// leaves the free list as it was before the free.
pub proof fn lemma_dealloc_then_alloc(free: Seq<u64>, a: u64)
    ensures
        free.push(a).len() > 0,
        free.push(a).last() == a,
        free.push(a).drop_last() == free,
{
    assert(free.push(a).drop_last() =~= free);
}

/// Allocating a block and then freeing it gives back the free list as it
/// was.
pub proof fn lemma_alloc_then_dealloc(free: Seq<u64>)
    requires
        free.len() > 0,
    ensures
        free.drop_last().push(free.last()) == free,
{
    assert(free.drop_last().push(free.last()) =~= free);
}

/// Freeing the chunks of a first-fit allocation gives back the bitmap as it
/// was before the allocation.
pub proof fn lemma_nalloc_then_dealloc(bits: Seq<bool>, num: int, f: int)
    requires
        is_first_fit(bits, num, f),
    ensures
        set_range(set_range(bits, f, num, true), f, num, false) == bits,
{
    assert(set_range(set_range(bits, f, num, true), f, num, false) =~= bits);
}

/// The chunks of a first-fit allocation are all allocated afterwards, and
/// no chunk outside them changes.
pub proof fn lemma_nalloc_marks_exactly_its_chunks(bits: Seq<bool>, num: int, f: int)
    requires
        is_first_fit(bits, num, f),
    ensures
        set_range(bits, f, num, true).len() == bits.len(),
        forall|i: int| f <= i < f + num ==> #[trigger] set_range(bits, f, num, true)[i],
        forall|i: int| 0 <= i < bits.len() && !(f <= i < f + num)
            ==> #[trigger] set_range(bits, f, num, true)[i] == bits[i],
{
}
} // verus!
