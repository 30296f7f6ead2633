use vstd::prelude::*;

use crate::bitio::{get_bit, lemma_bytes_from_bits, stream};
use crate::code::{be_bytes, be_value, lemma_new_wf, num_present, prefix_free, CodeTable, HuffmanCode};
use crate::codec::{
    all_coded, data_bits, decode, encode, encode_bits, padding_ok, source, HuffmanError,
};
use crate::tree::{
    derived_from, height, lemma_table_unique, lemma_tree_distinct, lemma_tree_holds_input,
    lemma_tree_leaves_from_input, spec_tree, HuffmanTreeNode,
};

verus! {

/// A compressed input: the code table, the packed payload and the number of
/// unused low bits in the payload's last byte.
pub struct HuffmanArchive {
    pub codes: CodeTable,
    pub compressed_data: Vec<u8>,
    pub padding: u8,
}

/// Inputs small enough for the 32-bit frequency counters and for counting
/// every encoded bit.
pub open spec fn input_fits(n: nat) -> bool {
    n <= u32::MAX && 32 * n + 32 <= usize::MAX
}

impl HuffmanArchive {
    /// The archive of empty input: no codes, no payload.
    pub open spec fn is_empty(&self) -> bool {
        &&& self.codes.wf()
        &&& forall|v: int| 0 <= v < 256 ==> (#[trigger] self.codes.codes@[v]).is_none()
        &&& self.compressed_data@.len() == 0
        &&& self.padding == 0
    }

    /// The payload's data bits, without the padding.
    pub open spec fn data(&self) -> Seq<bool> {
        stream(
            self.compressed_data@,
            data_bits(self.compressed_data@.len(), self.padding) as nat,
        )
    }

    /// The archive holds a prefix-free table that codes every byte of `b`,
    /// and the payload is the codes of `b` in order, padded with zero bits to
    /// a whole byte; the padding count is the number of those zero bits.
    pub open spec fn compressed_from(&self, b: Seq<u8>) -> bool {
        let n = encode_bits(self.codes.codes@, b).len();
        &&& self.codes.valid()
        &&& all_coded(self.codes.codes@, b)
        &&& self.padding == (8 - n % 8) % 8
        &&& 8 * self.compressed_data@.len() == n + self.padding
        &&& stream(self.compressed_data@, n) == encode_bits(self.codes.codes@, b)
        &&& forall|i: int|
            n <= i < 8 * self.compressed_data@.len() ==> !#[trigger] get_bit(
                self.compressed_data@,
                i,
            )
    }

    /// Decoding the archive can only give `s`: its padding is consistent,
    /// its table is prefix free, and its data bits are the codes of `s`.
    pub open spec fn decodes_to(&self, s: Seq<u8>) -> bool {
        &&& padding_ok(self.compressed_data@.len(), self.padding)
        &&& prefix_free(self.codes.codes@)
        &&& source(self.codes.codes@, self.data(), s)
    }

    /// What compression of `b` returns: the archive compressed from `b`
    /// with the table of `b`'s tree, or the empty archive for empty input.
    pub open spec fn result_of(&self, b: Seq<u8>) -> bool {
        &&& self.compressed_from(b)
        &&& b.len() == 0 ==> self.is_empty()
        &&& b.len() > 0 ==> derived_from(self.codes.codes@, spec_tree(b).unwrap())
    }

    /// Compresses `bytes`: counts, builds the tree, derives the codes and
    /// packs the payload.
    pub fn compress(bytes: &[u8]) -> (r: Result<Self, HuffmanError>)
        ensures
            !input_fits(bytes@.len()) ==> r == Err::<Self, HuffmanError>(HuffmanError::InputTooLarge),
            input_fits(bytes@.len()) && bytes@.len() == 0 ==> (r matches Ok(a) && a.is_empty()),
            input_fits(bytes@.len()) && bytes@.len() > 0 ==> {
                &&& (r is Err <==> height(spec_tree(bytes@).unwrap()) > 32)
                &&& (r is Err ==> r == Err::<Self, HuffmanError>(HuffmanError::CodeTooLong))
            },
            r matches Ok(a) ==> a.result_of(bytes@),
            r matches Ok(a) ==> forall|v: u8|
                #[trigger] a.codes.codes@[v as int].is_some() <==> bytes@.contains(v),
    {
        if bytes.len() as u64 > 0xffff_ffffu64 || bytes.len() > (usize::MAX - 32) / 32 {
            return Err(HuffmanError::InputTooLarge);
        }
        let tree = match HuffmanTreeNode::build_tree(bytes) {
            Some(t) => t,
            None => {
                let a = HuffmanArchive {
                    codes: CodeTable { codes: vec![None; 256] },
                    compressed_data: Vec::new(),
                    padding: 0,
                };
                proof {
                    assert(encode_bits(a.codes.codes@, bytes@) == Seq::<bool>::empty());
                    assert(stream(a.compressed_data@, 0) =~= Seq::<bool>::empty());
                }
                return Ok(a);
            },
        };
        let codes = match tree.into_codes() {
            Some(c) => c,
            None => {
                return Err(HuffmanError::CodeTooLong);
            },
        };
        proof {
            assert forall|i: int| 0 <= i < bytes@.len() implies (#[trigger] codes.codes@[bytes@[i] as int]).is_some() by {
                lemma_tree_holds_input(bytes@, i);
            }
        }
        proof {
            assert forall|v: u8| #[trigger] codes.codes@[v as int].is_some() <==> bytes@.contains(v) by {
                if codes.codes@[v as int].is_some() {
                    lemma_tree_leaves_from_input(bytes@, v);
                }
                if bytes@.contains(v) {
                    let i = choose|i: int| 0 <= i < bytes@.len() && bytes@[i] == v;
                    lemma_tree_holds_input(bytes@, i);
                }
            }
        }
        let (compressed_data, padding) = encode(&codes, bytes);
        Ok(HuffmanArchive { codes, compressed_data, padding })
    }

    /// Decompresses the archive: the bytes whose codes make up its data bits.
    pub fn decompress(&self) -> (r: Result<Vec<u8>, HuffmanError>)
        requires
            self.codes.wf(),
            8 * self.compressed_data@.len() <= usize::MAX,
        ensures
            !padding_ok(self.compressed_data@.len(), self.padding) ==> r == Err::<Vec<u8>, HuffmanError>(
                HuffmanError::Malformed,
            ),
            padding_ok(self.compressed_data@.len(), self.padding) ==> (r is Err ==> r == Err::<Vec<u8>, HuffmanError>(HuffmanError::BadPayload)),
            r matches Ok(out) ==> source(self.codes.codes@, self.data(), out@),
            forall|s: Seq<u8>| #[trigger] self.decodes_to(s) ==> (r matches Ok(out) && out@ == s),
    {
        let r = decode(&self.codes, self.compressed_data.as_slice(), self.padding);
        proof {
            assert forall|s: Seq<u8>| #[trigger] self.decodes_to(s) implies (r matches Ok(out) && out@ == s) by {
                assert(source(self.codes.codes@, self.data(), s));
            }
        }
        r
    }
}

/// The serialized entries of the byte values below `n`, in ascending order:
/// the value, the code length, the pattern as four bytes.
pub open spec fn entry_bytes(t: Seq<Option<HuffmanCode>>, n: nat) -> Seq<u8>
    decreases n,
{
    if n == 0 {
        seq![]
    } else {
        entry_bytes(t, (n - 1) as nat) + if t[n - 1].is_some() {
            seq![(n - 1) as u8, t[n - 1].unwrap().spec_len()] + be_bytes(
                t[n - 1].unwrap().spec_code(),
            )
        } else {
            seq![]
        }
    }
}

impl HuffmanArchive {
    /// The byte layout: the number of entries (256 written as 0), the
    /// entries, the padding count, the payload.
    pub open spec fn layout(&self) -> Seq<u8> {
        seq![(num_present(self.codes.codes@, 256) % 256) as u8] + entry_bytes(self.codes.codes@, 256)
            + seq![self.padding] + self.compressed_data@
    }

    /// Serializes the archive.
    pub fn to_bytes(&self) -> (r: Vec<u8>)
        requires
            self.codes.wf(),
        ensures
            r@ == self.layout(),
    {
        let ghost t = self.codes.codes@;
        let n = self.codes.num_entries();
        let mut out: Vec<u8> = Vec::new();
        out.push((n % 256) as u8);
        let mut v: usize = 0;
        proof {
            assert(out@ == seq![(num_present(t, 256) % 256) as u8] + entry_bytes(t, 0));
        }
        while v < 256
            invariant
                v <= 256,
                self.codes.wf(),
                t == self.codes.codes@,
                out@ == seq![(num_present(t, 256) % 256) as u8] + entry_bytes(t, v as nat),
            decreases 256 - v,
        {
            match self.codes.codes[v] {
                Some(c) => {
                    out.push(v as u8);
                    c.write(&mut out);
                },
                None => {},
            }
            v = v + 1;
            proof {
                assert(out@ =~= seq![(num_present(t, 256) % 256) as u8] + entry_bytes(t, v as nat));
            }
        }
        out.push(self.padding);
        let ghost head = out@;
        let mut i: usize = 0;
        while i < self.compressed_data.len()
            invariant
                i <= self.compressed_data@.len(),
                out@ == head + self.compressed_data@.take(i as int),
            decreases self.compressed_data@.len() - i,
        {
            out.push(self.compressed_data[i]);
            i = i + 1;
            proof {
                assert(out@ =~= head + self.compressed_data@.take(i as int));
            }
        }
        proof {
            assert(self.compressed_data@.take(i as int) == self.compressed_data@);
        }
        out
    }

    /// Reads an archive from its byte layout. A count byte of 0 followed by
    /// more than the padding byte stands for 256 entries.
    pub fn from_bytes(bytes: &[u8]) -> (r: Result<Self, HuffmanError>)
        ensures
            r matches Ok(a) ==> a.codes.wf() && a.layout() == bytes@,
            r is Err ==> r == Err::<Self, HuffmanError>(HuffmanError::Malformed),
            bytes@.len() < 2 ==> r is Err,
            forall|a: HuffmanArchive| #[trigger] a.serialized_as(bytes@) ==> (r matches Ok(p) && p.codes.codes@
                == a.codes.codes@ && p.compressed_data@ == a.compressed_data@ && p.padding
                == a.padding),
    {
        proof {
            assert forall|a: HuffmanArchive| #[trigger] a.serialized_as(bytes@) implies bytes@.len() >= 2 + 6 * num_present(a.codes.codes@, 256)
                && bytes@[0] == (num_present(a.codes.codes@, 256) % 256) as u8
                && (num_present(a.codes.codes@, 256) == 0 ==> bytes@.len() == 2) by {
                lemma_entry_len(a.codes.codes@, 256);
            }
        }
        if bytes.len() < 2 {
            return Err(HuffmanError::Malformed);
        }
        let count = bytes[0];
        let n: usize = if count == 0 && bytes.len() > 2 {
            256
        } else {
            count as usize
        };
        proof {
            assert forall|a: HuffmanArchive| #[trigger] a.serialized_as(bytes@) implies n == num_present(a.codes.codes@, 256) by {
                lemma_num_present_le(a.codes.codes@, 256);
            }
        }
        if bytes.len() < 2 + 6 * n {
            return Err(HuffmanError::Malformed);
        }
        let mut codes: Vec<Option<HuffmanCode>> = vec![None; 256];
        let mut k: usize = 0;
        while k < n
            invariant
                k <= n <= 256,
                2 + 6 * n <= bytes@.len(),
                codes@.len() == 256,
                forall|b: int| 0 <= b < 256 && (#[trigger] codes@[b]).is_some() ==> codes@[b].unwrap().wf(),
                forall|a: HuffmanArchive| #[trigger] a.serialized_as(bytes@) ==> {
                    let t = a.codes.codes@;
                    let w = entry_bound(t, k as nat);
                    &&& n == num_present(t, 256)
                    &&& 0 <= w <= 256
                    &&& num_present(t, w as nat) == k
                    &&& codes@ == restrict(t, w)
                },
            decreases n - k,
        {
            let off = 1 + 6 * k;
            let v = bytes[off];
            let ghost before = codes@;
            let rc = HuffmanCode::read(bytes, off + 1);
            proof {
                assert forall|a: HuffmanArchive| #[trigger] a.serialized_as(bytes@) implies {
                    let t = a.codes.codes@;
                    let w = entry_bound(t, k as nat);
                    let nv = next_present(t, w);
                    &&& nv < 256
                    &&& t[nv].is_some()
                    &&& nv == v as int
                    &&& rc == t[nv]
                    &&& forall|x: int| w <= x < nv ==> (#[trigger] t[x]).is_none()
                } by {
                    let t = a.codes.codes@;
                    let w = entry_bound(t, k as nat);
                    lemma_next_present(t, w);
                    let nv = next_present(t, w);
                    if nv == 256 {
                        lemma_skip(t, w as nat, 256);
                    }
                    lemma_skip(t, w as nat, nv as nat);
                    let c = t[nv].unwrap();
                    let chunk = seq![nv as u8, c.spec_len()] + be_bytes(c.spec_code());
                    assert(entry_bytes(t, (nv + 1) as nat) == entry_bytes(t, w as nat) + chunk);
                    lemma_entry_len(t, w as nat);
                    lemma_entry_prefix(t, (nv + 1) as nat, 256);
                    let eb = entry_bytes(t, 256);
                    assert forall|j: int| 0 <= j < 6 implies bytes@[off + j] == chunk[j] by {
                        assert(bytes@[off + j] == eb[6 * k + j]);
                        assert(eb[6 * k + j] == entry_bytes(t, (nv + 1) as nat)[6 * k + j]);
                    }
                    let bb = be_bytes(c.spec_code());
                    assert(bytes@[off + 2] == chunk[2]);
                    assert(chunk[2] == bb[0]);
                    assert(bytes@[off + 3] == chunk[3]);
                    assert(chunk[3] == bb[1]);
                    assert(bytes@[off + 4] == chunk[4]);
                    assert(chunk[4] == bb[2]);
                    assert(bytes@[off + 5] == chunk[5]);
                    assert(chunk[5] == bb[3]);
                    assert(be_value(bytes@, off + 2) == be_value(bb, 0));
                    crate::code::lemma_be_round_trip(c.spec_code());
                    assert(c.wf());
                    lemma_new_wf(c.spec_len(), c.spec_code());
                    crate::code::lemma_code_ext(HuffmanCode::spec_new(c.spec_len(), c.spec_code()), c);
                    assert(bytes@[off + 0] == chunk[0]);
                    assert(bytes@[off + 1] == chunk[1]);
                    assert(nv < 256);
                    assert(v as int == nv);
                    assert(off + 1 + 5 <= bytes@.len());
                    assert(bytes@[off + 1] == c.spec_len());
                    assert(be_value(bytes@, off + 2) == c.spec_code());
                    assert(rc == t[nv]);
                }
            }
            match rc {
                Some(c) => {
                    proof {
                        lemma_new_wf(bytes@[off + 1], be_value(bytes@, off + 2));
                    }
                    codes.set(v as usize, Some(c));
                },
                None => {
                    return Err(HuffmanError::Malformed);
                },
            }
            proof {
                assert forall|a: HuffmanArchive| #[trigger] a.serialized_as(bytes@) implies {
                    let t = a.codes.codes@;
                    let w = entry_bound(t, (k + 1) as nat);
                    &&& 0 <= w <= 256
                    &&& num_present(t, w as nat) == k + 1
                    &&& codes@ == restrict(t, w)
                } by {
                    let t = a.codes.codes@;
                    let w = entry_bound(t, k as nat);
                    lemma_next_present(t, w);
                    let nv = next_present(t, w);
                    lemma_skip(t, w as nat, nv as nat);
                    assert(codes@ =~= restrict(t, nv + 1));
                }
            }
            k = k + 1;
        }
        let start = 2 + 6 * n;
        let padding = bytes[start - 1];
        let mut compressed_data: Vec<u8> = Vec::new();
        let mut i: usize = start;
        while i < bytes.len()
            invariant
                start <= i <= bytes@.len(),
                compressed_data@ == bytes@.subrange(start as int, i as int),
            decreases bytes@.len() - i,
        {
            compressed_data.push(bytes[i]);
            i = i + 1;
            proof {
                assert(compressed_data@ =~= bytes@.subrange(start as int, i as int));
            }
        }
        proof {
            assert forall|a: HuffmanArchive| #[trigger] a.serialized_as(bytes@) implies codes@ == a.codes.codes@
                && padding == a.padding && compressed_data@ == a.compressed_data@ by {
                let t = a.codes.codes@;
                let w = entry_bound(t, n as nat);
                lemma_next_present(t, w);
                assert forall|x: int| w <= x < 256 implies (#[trigger] t[x]).is_none() by {
                    if t[x].is_some() {
                        lemma_present_grows(t, w as nat, 256, x);
                    }
                }
                lemma_skip(t, w as nat, 256);
                lemma_entry_len(t, 256);
                assert(codes@ =~= t);
                assert(compressed_data@ =~= a.compressed_data@);
            }
        }
        let a = HuffmanArchive { codes: CodeTable { codes }, compressed_data, padding };
        let again = a.to_bytes();
        if !same_bytes(&again, bytes) {
            return Err(HuffmanError::Malformed);
        }
        Ok(a)
    }
}

/// The table cut to the byte values below `n`.
pub open spec fn restrict(t: Seq<Option<HuffmanCode>>, n: int) -> Seq<Option<HuffmanCode>> {
    Seq::new(256, |w: int| if w < n { t[w] } else { None })
}

/// The first value at or above `w` that has a code, or 256.
pub open spec fn next_present(t: Seq<Option<HuffmanCode>>, w: int) -> int
    decreases 256 - w,
{
    if w >= 256 {
        256
    } else if t[w].is_some() {
        w
    } else {
        next_present(t, w + 1)
    }
}

/// The value bound after the first `k` entries.
pub open spec fn entry_bound(t: Seq<Option<HuffmanCode>>, k: nat) -> int
    decreases k,
{
    if k == 0 {
        0
    } else {
        next_present(t, entry_bound(t, (k - 1) as nat)) + 1
    }
}

impl HuffmanArchive {
    /// `b` is the layout of this archive, which the layout can carry: a table
    /// with no entries goes with an empty payload.
    pub open spec fn serialized_as(&self, b: Seq<u8>) -> bool {
        &&& self.codes.wf()
        &&& self.layout() == b
        &&& num_present(self.codes.codes@, 256) == 0 ==> self.compressed_data@.len() == 0
    }
}

proof fn lemma_entry_len(t: Seq<Option<HuffmanCode>>, n: nat)
    requires
        n <= t.len(),
    ensures
        entry_bytes(t, n).len() == 6 * num_present(t, n),
    decreases n,
{
    if n > 0 {
        lemma_entry_len(t, (n - 1) as nat);
    }
}

proof fn lemma_num_present_le(t: Seq<Option<HuffmanCode>>, n: nat)
    requires
        n <= t.len(),
    ensures
        num_present(t, n) <= n,
    decreases n,
{
    if n > 0 {
        lemma_num_present_le(t, (n - 1) as nat);
    }
}

proof fn lemma_next_present(t: Seq<Option<HuffmanCode>>, w: int)
    requires
        0 <= w <= 256,
        t.len() == 256,
    ensures
        w <= next_present(t, w) <= 256,
        next_present(t, w) < 256 ==> t[next_present(t, w)].is_some(),
        forall|x: int| w <= x < next_present(t, w) ==> (#[trigger] t[x]).is_none(),
    decreases 256 - w,
{
    if w < 256 && t[w].is_none() {
        lemma_next_present(t, w + 1);
    }
}

/// Slots without a code add nothing to the layout or the count.
proof fn lemma_skip(t: Seq<Option<HuffmanCode>>, w: nat, u: nat)
    requires
        w <= u <= t.len(),
        forall|x: int| w <= x < u ==> (#[trigger] t[x]).is_none(),
    ensures
        entry_bytes(t, u) == entry_bytes(t, w),
        num_present(t, u) == num_present(t, w),
    decreases u,
{
    if u > w {
        lemma_skip(t, w, (u - 1) as nat);
        assert(entry_bytes(t, u) == entry_bytes(t, (u - 1) as nat) + seq![]);
    }
}

proof fn lemma_present_grows(t: Seq<Option<HuffmanCode>>, w: nat, u: nat, x: int)
    requires
        w <= x < u <= t.len(),
        t[x].is_some(),
    ensures
        num_present(t, u) > num_present(t, w),
    decreases u,
{
    if u - 1 > x {
        lemma_present_grows(t, w, (u - 1) as nat, x);
    } else {
        lemma_num_present_mono(t, w, x as nat);
    }
}

proof fn lemma_num_present_mono(t: Seq<Option<HuffmanCode>>, w: nat, u: nat)
    requires
        w <= u <= t.len(),
    ensures
        num_present(t, w) <= num_present(t, u),
    decreases u,
{
    if u > w {
        lemma_num_present_mono(t, w, (u - 1) as nat);
    }
}

proof fn lemma_entry_prefix(t: Seq<Option<HuffmanCode>>, m: nat, n: nat)
    requires
        m <= n <= t.len(),
    ensures
        entry_bytes(t, m).len() <= entry_bytes(t, n).len(),
        entry_bytes(t, n).subrange(0, entry_bytes(t, m).len() as int) == entry_bytes(t, m),
    decreases n,
{
    if n > m {
        lemma_entry_prefix(t, m, (n - 1) as nat);
    } else {
        assert(entry_bytes(t, n).subrange(0, entry_bytes(t, n).len() as int) == entry_bytes(t, n));
    }
}

/// Whether a buffer holds exactly the bytes of a slice.
fn same_bytes(a: &Vec<u8>, b: &[u8]) -> (r: bool)
    ensures
        r == (a@ == b@),
{
    if a.len() != b.len() {
        return false;
    }
    let mut i: usize = 0;
    while i < a.len()
        invariant
            i <= a@.len() == b@.len(),
            forall|j: int| 0 <= j < i ==> a@[j] == b@[j],
        decreases a@.len() - i,
    {
        if a[i] != b[i] {
            return false;
        }
        i = i + 1;
    }
    proof {
        assert(a@ =~= b@);
    }
    true
}

/// Determinism: two archives compressed from the same bytes are identical.
pub proof fn lemma_compress_deterministic(b: Seq<u8>, a1: HuffmanArchive, a2: HuffmanArchive)
    requires
        input_fits(b.len()),
        a1.result_of(b),
        a2.result_of(b),
    ensures
        a1.codes.codes@ == a2.codes.codes@,
        a1.padding == a2.padding,
        a1.compressed_data@ == a2.compressed_data@,
{
    if b.len() == 0 {
        assert(a1.codes.codes@ =~= a2.codes.codes@);
    } else {
        lemma_tree_holds_input(b, 0);
        lemma_tree_distinct(b);
        lemma_table_unique(spec_tree(b).unwrap(), a1.codes.codes@, a2.codes.codes@);
        let t = a1.codes.codes@;
        let n = encode_bits(t, b).len();
        let d1 = a1.compressed_data@;
        let d2 = a2.compressed_data@;
        assert forall|i: int| 0 <= i < 8 * d1.len() implies #[trigger] get_bit(d1, i) == get_bit(d2, i) by {
            if i < n {
                assert(stream(d1, n)[i] == stream(d2, n)[i]);
            }
        }
        lemma_bytes_from_bits(d1, d2);
    }
}

/// Round trip: an archive compressed from `b` decompresses to exactly `b`.
pub proof fn lemma_round_trip(a: HuffmanArchive, b: Seq<u8>)
    requires
        a.result_of(b),
    ensures
        a.decodes_to(b),
{
    let n = encode_bits(a.codes.codes@, b).len();
    assert(data_bits(a.compressed_data@.len(), a.padding) == n);
}

} // verus!
