use vstd::prelude::*;

verus! {

/// Bit `k` (counting from the least significant end) of `x`.
pub open spec fn bit_of(x: u32, k: u32) -> bool {
    (x >> k) & 1u32 == 1u32
}

/// The first `len` bits of a right-aligned pattern, most significant first.
pub open spec fn pattern_bits(len: nat, code: u32) -> Seq<bool> {
    Seq::new(len, |i: int| bit_of(code, (len - 1 - i) as u32))
}

/// `code` with every bit at or above position `len` cleared.
pub open spec fn masked(len: u8, code: u32) -> u32 {
    code & (0xffff_ffffu32 >> (32 - len) as u32)
}

/// Bits as the characters `0` and `1`.
pub open spec fn bit_chars(b: Seq<bool>) -> Seq<char> {
    Seq::new(b.len(), |i: int| if b[i] {
        '1'
    } else {
        '0'
    })
}

/// The four bytes of `x`, most significant first.
pub open spec fn be_bytes(x: u32) -> Seq<u8> {
    seq![(x >> 24u32) as u8, (x >> 16u32) as u8, (x >> 8u32) as u8, x as u8]
}

/// The number held by the four bytes of `s` at `pos`, most significant first.
pub open spec fn be_value(s: Seq<u8>, pos: int) -> u32 {
    ((s[pos] as u32) << 24u32) | ((s[pos + 1] as u32) << 16u32) | ((s[pos + 2] as u32) << 8u32) | (
    s[pos + 3] as u32)
}

/// Four bytes written by `be_bytes` read back as the same number.
pub proof fn lemma_be_round_trip(x: u32)
    ensures
        be_value(be_bytes(x), 0) == x,
{
    let a = (x >> 24u32) as u8;
    let b = (x >> 16u32) as u8;
    let c = (x >> 8u32) as u8;
    let d = x as u8;
    assert(((a as u32) << 24u32) | ((b as u32) << 16u32) | ((c as u32) << 8u32) | (d as u32) == x)
        by (bit_vector)
        requires
            a == (x >> 24u32) as u8,
            b == (x >> 16u32) as u8,
            c == (x >> 8u32) as u8,
            d == x as u8,
    ;
}

/// `a` is a bit-prefix of `b` (possibly equal to it).
pub open spec fn is_prefix(a: Seq<bool>, b: Seq<bool>) -> bool {
    a.len() <= b.len() && b.subrange(0, a.len() as int) == a
}

/// One prefix code: a bit length and a right-aligned pattern whose bits
/// beyond the length are always zero.
#[derive(Debug, Clone, Copy, PartialEq, Eq, Structural)]
pub struct HuffmanCode {
    len: u8,
    code: u32,
}

impl HuffmanCode {
    pub closed spec fn spec_len(&self) -> u8 {
        self.len
    }

    pub closed spec fn spec_code(&self) -> u32 {
        self.code
    }

    /// The value that `new(len, code)` builds.
    pub closed spec fn spec_new(len: u8, code: u32) -> HuffmanCode {
        HuffmanCode { len, code: masked(len, code) }
    }

    /// Lengths are 1..=32 and unused high bits are zero.
    pub open spec fn wf(&self) -> bool {
        1 <= self.spec_len() <= 32 && self.spec_code() == masked(self.spec_len(), self.spec_code())
    }

    /// The code's bits, most significant first.
    pub open spec fn bits(&self) -> Seq<bool> {
        pattern_bits(self.spec_len() as nat, self.spec_code())
    }

    pub fn new(len: u8, code: u32) -> (r: Self)
        requires
            1 <= len <= 32,
        ensures
            r == Self::spec_new(len, code),
            r.spec_len() == len,
            r.spec_code() == masked(len, code),
            r.wf(),
            r.bits() == pattern_bits(len as nat, code),
    {
        let num_unused_bits: u32 = 32 - len as u32;
        let c: u32 = (code << num_unused_bits) >> num_unused_bits;
        proof {
            lemma_shift_mask(len, code);
            lemma_mask_idempotent(len, code);
            lemma_mask_bits(len, code);
        }
        Self { len, code: c }
    }

    /// The bits as a string of `0` and `1`, most significant first.
    pub fn to_string(&self) -> (r: String)
        requires
            self.wf(),
        ensures
            r@ == bit_chars(self.bits()),
    {
        let mut out = String::new();
        let mut k: u8 = 0;
        proof {
            reveal_strlit("0");
            reveal_strlit("1");
            assert(out@ =~= bit_chars(self.bits().take(0)));
        }
        while k < self.len
            invariant
                k <= self.len <= 32,
                out@ == bit_chars(self.bits().take(k as int)),
            decreases self.len - k,
        {
            let bit = (self.code >> ((self.len - 1 - k) as u32)) & 1u32 == 1u32;
            if bit {
                out.append("1");
            } else {
                out.append("0");
            }
            proof {
                reveal_strlit("0");
                reveal_strlit("1");
                assert(bit_chars(self.bits().take(k as int + 1)) =~= bit_chars(self.bits().take(k as int)) + if bit {
                    "1"@
                } else {
                    "0"@
                });
            }
            k = k + 1;
        }
        proof {
            assert(self.bits().take(self.len as int) == self.bits());
        }
        out
    }

    /// Appends the serialized code: the length byte, then the pattern as
    /// four bytes, most significant first.
    pub fn write(&self, out: &mut Vec<u8>)
        ensures
            final(out)@ == old(out)@ + seq![self.spec_len()] + be_bytes(self.spec_code()),
    {
        out.push(self.len);
        out.push((self.code >> 24u32) as u8);
        out.push((self.code >> 16u32) as u8);
        out.push((self.code >> 8u32) as u8);
        out.push(self.code as u8);
        proof {
            assert(final(out)@ =~= old(out)@ + seq![self.spec_len()] + be_bytes(self.spec_code()));
        }
    }

    /// Reads a serialized code at `pos`; `None` when fewer than five bytes
    /// remain, the length is outside 1..=32, or the pattern has bits set
    /// beyond the length.
    pub fn read(bytes: &[u8], pos: usize) -> (r: Option<Self>)
        ensures
            r == (if pos + 5 <= bytes@.len() && 1 <= bytes@[pos as int] <= 32 && masked(
                bytes@[pos as int],
                be_value(bytes@, pos + 1),
            ) == be_value(bytes@, pos + 1) {
                Some(Self::spec_new(bytes@[pos as int], be_value(bytes@, pos + 1)))
            } else {
                None
            }),
    {
        if pos > bytes.len() || bytes.len() - pos < 5 {
            return None;
        }
        let len = bytes[pos];
        let code: u32 = ((bytes[pos + 1] as u32) << 24u32) | ((bytes[pos + 2] as u32) << 16u32) | ((
        bytes[pos + 3] as u32) << 8u32) | (bytes[pos + 4] as u32);
        if len < 1 || len > 32 {
            return None;
        }
        let c = Self::new(len, code);
        if c.code != code {
            return None;
        }
        Some(c)
    }

    pub fn len(&self) -> (r: u8)
        ensures
            r == self.spec_len(),
    {
        self.len
    }

    pub fn code(&self) -> (r: u32)
        ensures
            r == self.spec_code(),
    {
        self.code
    }
}

proof fn lemma_shift_mask(len: u8, code: u32)
    requires
        1 <= len <= 32,
    ensures
        (code << (32 - len) as u32) >> (32 - len) as u32 == masked(len, code),
{
    let s = (32 - len) as u32;
    assert((code << s) >> s == code & (0xffff_ffffu32 >> s)) by (bit_vector)
        requires
            s < 32,
    ;
}

proof fn lemma_mask_idempotent(len: u8, code: u32)
    requires
        1 <= len <= 32,
    ensures
        masked(len, masked(len, code)) == masked(len, code),
{
    let s = (32 - len) as u32;
    assert((code & (0xffff_ffffu32 >> s)) & (0xffff_ffffu32 >> s) == code & (0xffff_ffffu32 >> s))
        by (bit_vector);
}

/// Two numbers that agree on every bit are equal.
proof fn lemma_bits_eq(a: u32, b: u32)
    requires
        forall|k: u32| k < 32 ==> bit_of(a, k) == bit_of(b, k),
    ensures
        a == b,
{
    assert forall|k: u32| k < 32 implies (a >> k) & 1u32 == (b >> k) & 1u32 by {
        assert(bit_of(a, k) == bit_of(b, k));
        assert(((a >> k) & 1u32 == 1u32) || ((a >> k) & 1u32 == 0u32)) by (bit_vector);
        assert(((b >> k) & 1u32 == 1u32) || ((b >> k) & 1u32 == 0u32)) by (bit_vector);
    }
    assert(a == b) by (bit_vector)
        requires
            (a >> 0u32) & 1u32 == (b >> 0u32) & 1u32,
            (a >> 1u32) & 1u32 == (b >> 1u32) & 1u32,
            (a >> 2u32) & 1u32 == (b >> 2u32) & 1u32,
            (a >> 3u32) & 1u32 == (b >> 3u32) & 1u32,
            (a >> 4u32) & 1u32 == (b >> 4u32) & 1u32,
            (a >> 5u32) & 1u32 == (b >> 5u32) & 1u32,
            (a >> 6u32) & 1u32 == (b >> 6u32) & 1u32,
            (a >> 7u32) & 1u32 == (b >> 7u32) & 1u32,
            (a >> 8u32) & 1u32 == (b >> 8u32) & 1u32,
            (a >> 9u32) & 1u32 == (b >> 9u32) & 1u32,
            (a >> 10u32) & 1u32 == (b >> 10u32) & 1u32,
            (a >> 11u32) & 1u32 == (b >> 11u32) & 1u32,
            (a >> 12u32) & 1u32 == (b >> 12u32) & 1u32,
            (a >> 13u32) & 1u32 == (b >> 13u32) & 1u32,
            (a >> 14u32) & 1u32 == (b >> 14u32) & 1u32,
            (a >> 15u32) & 1u32 == (b >> 15u32) & 1u32,
            (a >> 16u32) & 1u32 == (b >> 16u32) & 1u32,
            (a >> 17u32) & 1u32 == (b >> 17u32) & 1u32,
            (a >> 18u32) & 1u32 == (b >> 18u32) & 1u32,
            (a >> 19u32) & 1u32 == (b >> 19u32) & 1u32,
            (a >> 20u32) & 1u32 == (b >> 20u32) & 1u32,
            (a >> 21u32) & 1u32 == (b >> 21u32) & 1u32,
            (a >> 22u32) & 1u32 == (b >> 22u32) & 1u32,
            (a >> 23u32) & 1u32 == (b >> 23u32) & 1u32,
            (a >> 24u32) & 1u32 == (b >> 24u32) & 1u32,
            (a >> 25u32) & 1u32 == (b >> 25u32) & 1u32,
            (a >> 26u32) & 1u32 == (b >> 26u32) & 1u32,
            (a >> 27u32) & 1u32 == (b >> 27u32) & 1u32,
            (a >> 28u32) & 1u32 == (b >> 28u32) & 1u32,
            (a >> 29u32) & 1u32 == (b >> 29u32) & 1u32,
            (a >> 30u32) & 1u32 == (b >> 30u32) & 1u32,
            (a >> 31u32) & 1u32 == (b >> 31u32) & 1u32,
    ;
}

/// A well-formed code is determined by its bits.
pub proof fn lemma_bits_determine(a: HuffmanCode, b: HuffmanCode)
    requires
        a.wf(),
        b.wf(),
        a.bits() == b.bits(),
    ensures
        a == b,
{
    let len = a.len;
    assert(a.bits().len() == a.len as nat);
    assert(b.bits().len() == b.len as nat);
    assert(b.len == len);
    assert forall|k: u32| k < 32 implies bit_of(a.code, k) == bit_of(b.code, k) by {
        if k < len {
            let i: int = len - 1 - k;
            assert(((len - 1 - i) as u32) == k);
            assert(a.bits()[i] == b.bits()[i]);
            assert(a.bits()[i] == bit_of(a.code, k));
            assert(b.bits()[i] == bit_of(b.code, k));
        } else {
            let s = (32 - len) as u32;
            let x = a.code;
            let y = b.code;
            assert((x >> k) & 1u32 == 0u32) by (bit_vector)
                requires
                    x == x & (0xffff_ffffu32 >> s),
                    s + k >= 32,
                    k < 32,
            ;
            assert((y >> k) & 1u32 == 0u32) by (bit_vector)
                requires
                    y == y & (0xffff_ffffu32 >> s),
                    s + k >= 32,
                    k < 32,
            ;
            assert(!bit_of(x, k));
            assert(!bit_of(y, k));
        }
    }
    lemma_bits_eq(a.code, b.code);
}

/// Every constructed code is well formed.
pub proof fn lemma_new_wf(len: u8, code: u32)
    requires
        1 <= len <= 32,
    ensures
        HuffmanCode::spec_new(len, code).wf(),
        HuffmanCode::spec_new(len, code).spec_len() == len,
        HuffmanCode::spec_new(len, code).spec_code() == masked(len, code),
{
    lemma_mask_idempotent(len, code);
}

/// Two codes with the same length and pattern are the same code.
pub proof fn lemma_code_ext(a: HuffmanCode, b: HuffmanCode)
    requires
        a.spec_len() == b.spec_len(),
        a.spec_code() == b.spec_code(),
    ensures
        a == b,
{
}

/// Masking keeps every bit below the length.
pub proof fn lemma_mask_bits(len: u8, code: u32)
    requires
        1 <= len <= 32,
    ensures
        pattern_bits(len as nat, masked(len, code)) == pattern_bits(len as nat, code),
{
    let m = masked(len, code);
    assert forall|i: int| 0 <= i < len implies #[trigger] bit_of(m, (len - 1 - i) as u32)
        == bit_of(code, (len - 1 - i) as u32) by {
        let k = (len - 1 - i) as u32;
        let s = (32 - len) as u32;
        assert(((code & (0xffff_ffffu32 >> s)) >> k) & 1u32 == (code >> k) & 1u32)
            by (bit_vector)
            requires
                k + s < 32,
        ;
    }
    assert(pattern_bits(len as nat, m) =~= pattern_bits(len as nat, code));
}

/// Clearing the bits above the length does not change the code built.
pub proof fn lemma_code_ignores_high_bits(len: u8, a: u32)
    requires
        1 <= len <= 32,
    ensures
        HuffmanCode::spec_new(len, a) == HuffmanCode::spec_new(len, masked(len, a)),
{
    lemma_mask_idempotent(len, a);
}

} // verus!

verus! {

/// No code of the table is a bit-prefix of another entry's code.
pub open spec fn prefix_free(t: Seq<Option<HuffmanCode>>) -> bool {
    forall|i: int, j: int|
        0 <= i < t.len() && 0 <= j < t.len() && i != j && (#[trigger] t[i]).is_some() && (
        #[trigger] t[j]).is_some() ==> !is_prefix(t[i].unwrap().bits(), t[j].unwrap().bits())
}

/// The code of each byte value, indexed by the value; `None` for a value
/// that the input did not hold.
pub struct CodeTable {
    pub codes: Vec<Option<HuffmanCode>>,
}

impl CodeTable {
    /// One slot per byte value, each present code well formed.
    pub open spec fn wf(&self) -> bool {
        self.codes@.len() == 256 && forall|b: int|
            0 <= b < 256 && (#[trigger] self.codes@[b]).is_some() ==> self.codes@[b].unwrap().wf()
    }

    /// A usable table: well formed and prefix free.
    pub open spec fn valid(&self) -> bool {
        self.wf() && prefix_free(self.codes@)
    }

    pub fn get(&self, b: u8) -> (r: Option<HuffmanCode>)
        requires
            self.wf(),
        ensures
            r == self.codes@[b as int],
    {
        self.codes[b as usize]
    }

    /// Number of byte values that have a code.
    pub fn num_entries(&self) -> (r: usize)
        requires
            self.wf(),
        ensures
            r == num_present(self.codes@, 256),
            r <= 256,
    {
        let mut n: usize = 0;
        let mut b: usize = 0;
        while b < 256
            invariant
                b <= 256,
                self.codes@.len() == 256,
                n == num_present(self.codes@, b as nat),
                n <= b,
            decreases 256 - b,
        {
            if self.codes[b].is_some() {
                n = n + 1;
            }
            b = b + 1;
        }
        n
    }
}

/// Number of present entries among the first `n` slots.
pub open spec fn num_present(t: Seq<Option<HuffmanCode>>, n: nat) -> nat
    decreases n,
{
    if n == 0 {
        0
    } else {
        num_present(t, (n - 1) as nat) + if t[n - 1].is_some() {
            1nat
        } else {
            0nat
        }
    }
}

/// Appending one bit to a pattern of `len < 32` bits.
pub proof fn lemma_push_bit(len: u8, code: u32, b: bool)
    requires
        len < 32,
    ensures
        pattern_bits(len as nat + 1, if b {
            (code << 1u32) | 1u32
        } else {
            code << 1u32
        }) == pattern_bits(len as nat, code).push(b),
{
    let x: u32 = if b {
        1u32
    } else {
        0u32
    };
    let c2: u32 = (code << 1u32) | x;
    assert(c2 == if b {
        (code << 1u32) | 1u32
    } else {
        code << 1u32
    }) by {
        assert((code << 1u32) | 0u32 == code << 1u32) by (bit_vector);
    }
    let n = len as nat + 1;
    assert forall|i: int| 0 <= i < n implies #[trigger] pattern_bits(n, c2)[i] == pattern_bits(
        len as nat,
        code,
    ).push(b)[i] by {
        if i < len {
            let k = (len - 1 - i) as u32;
            assert((((code << 1u32) | x) >> (k + 1) as u32) & 1u32 == (code >> k) & 1u32)
                by (bit_vector)
                requires
                    k < 31,
                    x <= 1,
            ;
        } else {
            assert((((code << 1u32) | x) >> 0u32) & 1u32 == x) by (bit_vector)
                requires
                    x <= 1,
            ;
        }
    }
    assert(pattern_bits(n, c2) =~= pattern_bits(len as nat, code).push(b));
}

} // verus!
