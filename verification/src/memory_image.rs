//! A captured window of kernel virtual memory, read as little-endian
//! values. Bytes outside the window read as zero.
use vstd::prelude::*;

verus! {

/// `256` raised to `n`.
pub open spec fn pow256(n: nat) -> nat
    decreases n,
{
    if n == 0 { 1 } else { 256 * pow256((n - 1) as nat) }
}

/// `after` is `before` with the `n` bytes from virtual address `addr` set
/// to zero and nothing else changed.
pub open spec fn zeroed_range(before: MemoryImage, after: MemoryImage, addr: int, n: int) -> bool {
    &&& after.wf()
    &&& after.base() == before.base()
    &&& after.contents().len() == before.contents().len()
    &&& forall|a: int| #![trigger after.byte_at(a)]
        after.byte_at(a) == if addr <= a < addr + n { 0u8 } else { before.byte_at(a) }
}

/// The bytes of the window starting at virtual address `base`.
pub struct MemoryImage {
    base: u64,
    bytes: Vec<u8>,
}

impl MemoryImage {
    /// Virtual address of the first byte of the window.
    pub closed spec fn base(&self) -> u64 {
        self.base
    }

    /// The bytes of the window.
    pub closed spec fn contents(&self) -> Seq<u8> {
        self.bytes@
    }

    /// The window lies within the address space.
    pub closed spec fn wf(&self) -> bool {
        self.base + self.bytes@.len() <= u64::MAX + 1
    }

    /// The byte at virtual address `a`: the window's byte there, or zero
    /// outside the window.
    pub open spec fn byte_at(&self, a: int) -> u8 {
        if self.base() <= a < self.base() + self.contents().len() {
            self.contents()[a - self.base()]
        } else {
            0
        }
    }

    /// The little-endian value of the `n` bytes from virtual address `a`.
    pub open spec fn le(&self, a: int, n: nat) -> nat
        decreases n,
    {
        if n == 0 {
            0
        } else {
            self.byte_at(a) as nat + 256 * self.le(a + 1, (n - 1) as nat)
        }
    }

    /// A little-endian value of `n` bytes is below `256^n`.
    pub proof fn lemma_le_bound(&self, a: int, n: nat)
        ensures
            self.le(a, n) < pow256(n),
        decreases n,
    {
        if n > 0 {
            self.lemma_le_bound(a + 1, (n - 1) as nat);
        }
    }

    /// A one-byte value is the byte itself.
    pub proof fn lemma_le_one(&self, a: int)
        ensures
            self.le(a, 1) == self.byte_at(a) as nat,
    {
        assert(self.le(a + 1, 0) == 0);
    }

    /// The window ends within the address space.
    pub proof fn lemma_wf_bound(&self)
        requires
            self.wf(),
        ensures
            self.base() + self.contents().len() <= u64::MAX + 1,
    {
    }

    /// Capture `bytes` as the window starting at `base`; the window must lie
    /// within the address space.
    pub fn new(base: u64, bytes: Vec<u8>) -> (r: Self)
        requires
            base + bytes@.len() <= u64::MAX + 1,
        ensures
            r.wf(),
            r.base() == base,
            r.contents() == bytes@,
    {
        MemoryImage { base, bytes }
    }

    /// The byte at virtual address `addr`.
    pub fn byte(&self, addr: u64) -> (r: u8)
        requires
            self.wf(),
        ensures
            r == self.byte_at(addr as int),
    {
        if addr >= self.base && addr - self.base < self.bytes.len() as u64 {
            self.bytes[(addr - self.base) as usize]
        } else {
            0
        }
    }

    /// The little-endian value of the `n <= 8` bytes from `addr`; bytes past
    /// the end of the address space read as zero.
    pub fn read_le(&self, addr: u64, n: u64) -> (r: u64)
        requires
            self.wf(),
            n <= 8,
        ensures
            r == self.le(addr as int, n as nat),
    {
        let mut v: u64 = 0;
        let mut k: u64 = n;
        proof {
            assert(pow256(0) == 1 && pow256(1) == 256 && pow256(2) == 65536 && pow256(3) == 0x100_0000
                && pow256(4) == 0x1_0000_0000 && pow256(5) == 0x100_0000_0000 && pow256(6) == 0x1_0000_0000_0000
                && pow256(7) == 0x100_0000_0000_0000) by {
                reveal_with_fuel(pow256, 8);
            }
        }
        while k > 0
            invariant
                self.wf(),
                k <= n <= 8,
                v == self.le(addr + k, (n - k) as nat),
                pow256(0) == 1 && pow256(1) == 256 && pow256(2) == 65536 && pow256(3) == 0x100_0000
                    && pow256(4) == 0x1_0000_0000 && pow256(5) == 0x100_0000_0000 && pow256(6) == 0x1_0000_0000_0000
                    && pow256(7) == 0x100_0000_0000_0000,
            decreases k,
        {
            k -= 1;
            let b: u8 = match addr.checked_add(k) {
                Some(a) => self.byte(a),
                None => 0,
            };
            proof {
                self.lemma_le_bound(addr + k + 1, (n - k - 1) as nat);
                assert(b == self.byte_at(addr + k)) by {
                    if addr + k > u64::MAX {
                        assert(self.base() + self.contents().len() <= u64::MAX + 1);
                    }
                }
                assert(v < 0x100_0000_0000_0000);
            }
            v = b as u64 + 256 * v;
        }
        v
    }

    /// The byte at `addr`.
    pub fn read_u8(&self, addr: u64) -> (r: u8)
        requires
            self.wf(),
        ensures
            r == self.le(addr as int, 1),
    {
        proof {
            assert(self.le(addr + 1, 0) == 0);
        }
        self.byte(addr)
    }

    /// The little-endian 16-bit value at `addr`.
    pub fn read_u16(&self, addr: u64) -> (r: u16)
        requires
            self.wf(),
        ensures
            r == self.le(addr as int, 2),
    {
        proof {
            self.lemma_le_bound(addr as int, 2);
            reveal_with_fuel(pow256, 3);
        }
        self.read_le(addr, 2) as u16
    }

    /// The little-endian 32-bit value at `addr`.
    pub fn read_u32(&self, addr: u64) -> (r: u32)
        requires
            self.wf(),
        ensures
            r == self.le(addr as int, 4),
    {
        proof {
            self.lemma_le_bound(addr as int, 4);
            reveal_with_fuel(pow256, 5);
        }
        self.read_le(addr, 4) as u32
    }

    /// The little-endian 64-bit value at `addr`.
    pub fn read_u64(&self, addr: u64) -> (r: u64)
        requires
            self.wf(),
        ensures
            r == self.le(addr as int, 8),
    {
        self.read_le(addr, 8)
    }

    /// Set the `n` bytes from virtual address `addr` to zero; bytes outside
    /// the window already read as zero.
    pub fn fill_zero(&mut self, addr: u64, n: u64)
        requires
            old(self).wf(),
        ensures
            zeroed_range(*old(self), *final(self), addr as int, n as int),
    {
        let ulen: usize = self.bytes.len();
        let len: u64 = ulen as u64;
        assert(len == self.bytes@.len());
        let mut i: u64 = 0;
        while i < len
            invariant
                len == self.bytes@.len(),
                len == old(self).bytes@.len(),
                len == ulen,
                self.base == old(self).base,
                self.base + len <= u64::MAX + 1,
                i <= len,
                forall|k: int| 0 <= k < len ==> #[trigger] self.bytes@[k] == if k < i && addr <= self.base + k < addr + n {
                    0u8
                } else {
                    old(self).bytes@[k]
                },
            decreases len - i,
        {
            let a: u64 = self.base + i;
            let idx: usize = i as usize;
            assert(idx == i);
            if addr <= a && a - addr < n {
                self.bytes.set(idx, 0);
            }
            i += 1;
        }
        proof {
            assert forall|a: int| #![trigger self.byte_at(a)]
                self.byte_at(a) == if addr <= a < addr + n { 0u8 } else { old(self).byte_at(a) } by {
                if self.base <= a < self.base + len {
                    assert(self.bytes@[a - self.base] == (if addr <= a < addr + n { 0u8 } else { old(self).bytes@[a - self.base] }));
                }
            }
        }
    }
}

} // verus!
