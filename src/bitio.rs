use vstd::prelude::*;

use crate::code::HuffmanCode;

verus! {

/// Bit `i` of a packed buffer: bytes in order, most significant bit first.
pub open spec fn get_bit(s: Seq<u8>, i: int) -> bool {
    (s[i / 8] >> (7 - i % 8) as u8) & 1u8 == 1u8
}

/// The first `n` bits of a packed buffer.
pub open spec fn stream(s: Seq<u8>, n: nat) -> Seq<bool> {
    Seq::new(n, |i: int| get_bit(s, i))
}

/// Packs bits most significant first into a growing byte buffer.
pub struct BitWriter {
    pub buf: Vec<u8>,
    pub nbits: usize,
}

proof fn lemma_set_bit(x: u8, j: u8, k: u8)
    requires
        j < 8,
        k < 8,
    ensures
        ((x | (0x80u8 >> j)) >> (7 - k) as u8) & 1u8 == if k == j {
            1u8
        } else {
            (x >> (7 - k) as u8) & 1u8
        },
{
    assert(((x | (0x80u8 >> j)) >> (7 - k) as u8) & 1u8 == if k == j {
        1u8
    } else {
        (x >> (7 - k) as u8) & 1u8
    }) by (bit_vector)
        requires
            j < 8,
            k < 8,
    ;
}

proof fn lemma_zero_byte(k: u8)
    requires
        k < 8,
    ensures
        (0u8 >> (7 - k) as u8) & 1u8 == 0u8,
{
    assert((0u8 >> (7 - k) as u8) & 1u8 == 0u8) by (bit_vector);
}

impl BitWriter {
    /// Bits written so far; the buffer is exactly as long as they need and
    /// the unused low bits of its last byte are zero.
    pub open spec fn wf(&self) -> bool {
        &&& self.buf@.len() == (self.nbits + 7) / 8
        &&& forall|i: int| self.nbits <= i < 8 * self.buf@.len() ==> !#[trigger] get_bit(self.buf@, i)
    }

    pub open spec fn bits(&self) -> Seq<bool> {
        stream(self.buf@, self.nbits as nat)
    }

    pub fn new() -> (r: Self)
        ensures
            r.wf(),
            r.nbits == 0,
            r.bits() == Seq::<bool>::empty(),
    {
        let r = BitWriter { buf: Vec::new(), nbits: 0 };
        assert(r.bits() =~= Seq::<bool>::empty());
        r
    }

    pub fn write_bit(&mut self, b: bool)
        requires
            old(self).wf(),
            old(self).nbits < usize::MAX,
        ensures
            final(self).wf(),
            final(self).nbits == old(self).nbits + 1,
            final(self).bits() == old(self).bits().push(b),
    {
        let ghost old_buf = self.buf@;
        let n = self.nbits;
        let j = n % 8;
        if j == 0 {
            self.buf.push(0u8);
        }
        let idx = n / 8;
        let ghost mid = self.buf@;
        proof {
            assert(mid.len() == n / 8 + 1);
            assert forall|i: int| 0 <= i < 8 * mid.len() implies #[trigger] get_bit(mid, i) == if i < n { get_bit(old_buf, i) } else { false } by {
                if i / 8 == idx && j == 0 {
                    lemma_zero_byte((i % 8) as u8);
                } else {
                    assert(mid[i / 8] == old_buf[i / 8]);
                }
            }
        }
        if b {
            let x = self.buf[idx];
            self.buf.set(idx, x | (0x80u8 >> (j as u8)));
        }
        self.nbits = n + 1;
        proof {
            let nb = self.buf@;
            assert forall|i: int| 0 <= i < 8 * nb.len() implies #[trigger] get_bit(nb, i) == if i < n { get_bit(old_buf, i) } else if i == n { b } else { false } by {
                assert(get_bit(mid, i) == if i < n { get_bit(old_buf, i) } else { false });
                if i / 8 == idx {
                    if b {
                        assert((i % 8 == j) == (i == n));
                        lemma_set_bit(mid[idx as int], j as u8, (i % 8) as u8);
                    } else {
                        assert(nb == mid);
                    }
                } else {
                    assert(nb[i / 8] == mid[i / 8]);
                }
            }
            assert(self.bits() =~= stream(old_buf, n as nat).push(b));
        }
    }

    /// Appends the bits of `c`, most significant first.
    pub fn write_code(&mut self, c: HuffmanCode)
        requires
            old(self).wf(),
            c.wf(),
            old(self).nbits + 32 <= usize::MAX,
        ensures
            final(self).wf(),
            final(self).nbits == old(self).nbits + c.bits().len(),
            final(self).bits() == old(self).bits() + c.bits(),
    {
        let len = c.len();
        let code = c.code();
        let ghost start = self.bits();
        let mut k: u8 = 0;
        while k < len
            invariant
                self.wf(),
                k <= len <= 32,
                len == c.bits().len(),
                code == c.spec_code(),
                self.nbits == old(self).nbits + k,
                old(self).nbits + 32 <= usize::MAX,
                self.bits() == start + c.bits().take(k as int),
            decreases len - k,
        {
            let bit = (code >> ((len - 1 - k) as u32)) & 1u32 == 1u32;
            self.write_bit(bit);
            proof {
                assert(c.bits().take(k as int + 1) == c.bits().take(k as int).push(bit));
            }
            k = k + 1;
        }
        proof {
            assert(c.bits().take(len as int) == c.bits());
        }
    }

    /// The packed bytes and the number of unused low bits of the last byte.
    pub fn finish(self) -> (r: (Vec<u8>, u8))
        requires
            self.wf(),
        ensures
            r.1 == (8 - self.nbits % 8) % 8,
            r.0@ == self.buf@,
            8 * r.0@.len() == self.nbits + r.1,
    {
        let pad = ((8 - self.nbits % 8) % 8) as u8;
        (self.buf, pad)
    }
}

/// Two buffers of one length that agree on every bit are equal.
pub proof fn lemma_bytes_from_bits(d1: Seq<u8>, d2: Seq<u8>)
    requires
        d1.len() == d2.len(),
        forall|i: int| 0 <= i < 8 * d1.len() ==> #[trigger] get_bit(d1, i) == get_bit(d2, i),
    ensures
        d1 == d2,
{
    assert forall|m: int| 0 <= m < d1.len() implies d1[m] == d2[m] by {
        let x = d1[m];
        let y = d2[m];
        assert forall|k: u8| k < 8 implies (x >> k) & 1u8 == (y >> k) & 1u8 by {
            let i = 8 * m + (7 - k);
            assert(i / 8 == m && i % 8 == 7 - k);
            assert(get_bit(d1, i) == get_bit(d2, i));
            assert(((7 - (i % 8)) as u8) == k);
            assert(((x >> k) & 1u8 == 1u8) || ((x >> k) & 1u8 == 0u8)) by (bit_vector);
            assert(((y >> k) & 1u8 == 1u8) || ((y >> k) & 1u8 == 0u8)) by (bit_vector);
        }
        assert(x == y) by (bit_vector)
            requires
            (x >> 0u8) & 1u8 == (y >> 0u8) & 1u8,
            (x >> 1u8) & 1u8 == (y >> 1u8) & 1u8,
            (x >> 2u8) & 1u8 == (y >> 2u8) & 1u8,
            (x >> 3u8) & 1u8 == (y >> 3u8) & 1u8,
            (x >> 4u8) & 1u8 == (y >> 4u8) & 1u8,
            (x >> 5u8) & 1u8 == (y >> 5u8) & 1u8,
            (x >> 6u8) & 1u8 == (y >> 6u8) & 1u8,
            (x >> 7u8) & 1u8 == (y >> 7u8) & 1u8,
        ;
    }
    assert(d1 =~= d2);
}

/// Bit `i` of a packed buffer.
pub fn read_bit(buf: &[u8], i: usize) -> (r: bool)
    requires
        i < 8 * buf@.len(),
    ensures
        r == get_bit(buf@, i as int),
{
    let x = buf[i / 8];
    (x >> ((7 - i % 8) as u8)) & 1u8 == 1u8
}

} // verus!
