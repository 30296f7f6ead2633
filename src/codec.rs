use vstd::prelude::*;

use crate::bitio::{get_bit, read_bit, stream, BitWriter};
use crate::code::{
    bit_of, is_prefix, lemma_code_ext, lemma_push_bit, masked, pattern_bits, prefix_free, CodeTable,
    HuffmanCode,
};

verus! {

/// Failures of compression and decompression.
#[derive(Debug, Clone, Copy, PartialEq, Eq, Structural)]
pub enum HuffmanError {
    /// The input is too large for the frequency counters or the bit counter.
    InputTooLarge,
    /// Some leaf lies deeper than the 32 bits a code can hold.
    CodeTooLong,
    /// The archive's layout is inconsistent.
    Malformed,
    /// The payload ends, or holds a bit sequence, that reaches no code.
    BadPayload,
}

/// Every byte of `s` has a code in `t`.
pub open spec fn all_coded(t: Seq<Option<HuffmanCode>>, s: Seq<u8>) -> bool {
    forall|i: int| 0 <= i < s.len() ==> (#[trigger] t[s[i] as int]).is_some()
}

/// The concatenated codes of the bytes of `s`.
pub open spec fn encode_bits(t: Seq<Option<HuffmanCode>>, s: Seq<u8>) -> Seq<bool>
    decreases s.len(),
{
    if s.len() == 0 {
        seq![]
    } else {
        encode_bits(t, s.drop_last()) + t[s.last() as int].unwrap().bits()
    }
}

/// Number of payload bits that carry data.
pub open spec fn data_bits(payload_len: nat, padding: u8) -> int {
    8 * payload_len - padding
}

/// A padding count that a payload of this length can have.
pub open spec fn padding_ok(payload_len: nat, padding: u8) -> bool {
    padding <= 7 && (payload_len == 0 ==> padding == 0)
}

/// `s` is a byte sequence whose encoding is `st`.
pub open spec fn source(t: Seq<Option<HuffmanCode>>, st: Seq<bool>, s: Seq<u8>) -> bool {
    all_coded(t, s) && encode_bits(t, s) == st
}

proof fn lemma_encode_step(t: Seq<Option<HuffmanCode>>, s: Seq<u8>, k: int)
    requires
        0 <= k < s.len(),
    ensures
        encode_bits(t, s.take(k + 1)) == encode_bits(t, s.take(k)) + t[s[k] as int].unwrap().bits(),
{
    assert(s.take(k + 1).drop_last() == s.take(k));
}

proof fn lemma_encode_prefix(t: Seq<Option<HuffmanCode>>, s: Seq<u8>, m: int)
    requires
        0 <= m <= s.len(),
    ensures
        encode_bits(t, s.take(m)).len() <= encode_bits(t, s).len(),
        encode_bits(t, s).subrange(0, encode_bits(t, s.take(m)).len() as int) == encode_bits(
            t,
            s.take(m),
        ),
    decreases s.len(),
{
    if m == s.len() {
        assert(s.take(m) == s);
    } else {
        lemma_encode_prefix(t, s.drop_last(), m);
        assert(s.drop_last().take(m) == s.take(m));
    }
}

/// The leading `n` bits of a code, as a number.
proof fn lemma_prefix_value(c: u32, len: u8, n: u8)
    requires
        1 <= n <= len <= 32,
    ensures
        pattern_bits(n as nat, c >> (len - n) as u32) == pattern_bits(len as nat, c).take(
            n as int,
        ),
{
    let a = (len - n) as u32;
    assert forall|i: int| 0 <= i < n implies #[trigger] pattern_bits(n as nat, c >> a)[i]
        == pattern_bits(len as nat, c)[i] by {
        let b = (n - 1 - i) as u32;
        assert(((c >> a) >> b) & 1u32 == (c >> (a + b) as u32) & 1u32) by (bit_vector)
            requires
                a + b < 32,
        ;
    }
    assert(pattern_bits(n as nat, c >> a) =~= pattern_bits(len as nat, c).take(n as int));
}

/// Shifting in the next bit of a code extends the numeric prefix by one bit.
proof fn lemma_acc_step(c: u32, len: u8, n: u8, acc: u32)
    requires
        n < len <= 32,
        c == masked(len, c),
        n == 0 ==> acc == 0,
        n > 0 ==> acc == c >> (len - n) as u32,
    ensures
        (if bit_of(c, (len - 1 - n) as u32) {
            (acc << 1u32) | 1u32
        } else {
            acc << 1u32
        }) == c >> (len - n - 1) as u32,
{
    let sh = (len - n - 1) as u32;
    let x: u32 = if bit_of(c, sh) {
        1
    } else {
        0
    };
    assert(x == (c >> sh) & 1u32) by {
        assert(((c >> sh) & 1u32 == 1u32) || ((c >> sh) & 1u32 == 0u32)) by (bit_vector);
    }
    assert((acc << 1u32) | 0u32 == acc << 1u32) by (bit_vector);
    if n == 0 {
        let s2 = (32 - len) as u32;
        assert((c >> sh) == (0u32 << 1u32) | ((c >> sh) & 1u32)) by (bit_vector)
            requires
                c == c & (0xffff_ffffu32 >> s2),
                sh + s2 == 31,
        ;
    } else {
        assert(((c >> (sh + 1) as u32) << 1u32) | ((c >> sh) & 1u32) == c >> sh) by (bit_vector)
            requires
                sh < 31,
        ;
    }
}

/// The byte whose code has exactly this length and pattern.
fn find_code(table: &CodeTable, len: u8, code: u32) -> (r: Option<u8>)
    requires
        table.wf(),
    ensures
        r matches Some(v) ==> table.codes@[v as int].is_some() && table.codes@[v as int].unwrap().spec_len() == len
            && table.codes@[v as int].unwrap().spec_code() == code,
        r is None ==> forall|v: int|
            0 <= v < 256 && (#[trigger] table.codes@[v]).is_some() ==> !(table.codes@[v].unwrap().spec_len() == len
                && table.codes@[v].unwrap().spec_code() == code),
{
    let mut v: usize = 0;
    while v < 256
        invariant
            v <= 256,
            table.wf(),
            forall|w: int|
                0 <= w < v && (#[trigger] table.codes@[w]).is_some() ==> !(table.codes@[w].unwrap().spec_len() == len
                    && table.codes@[w].unwrap().spec_code() == code),
        decreases 256 - v,
    {
        match table.codes[v] {
            Some(e) => {
                if e.len() == len && e.code() == code {
                    return Some(v as u8);
                }
            },
            None => {},
        }
        v = v + 1;
    }
    None
}

/// Packs the codes of `bytes`: the payload and its number of padding bits.
pub fn encode(table: &CodeTable, bytes: &[u8]) -> (r: (Vec<u8>, u8))
    requires
        table.wf(),
        all_coded(table.codes@, bytes@),
        32 * bytes@.len() + 32 <= usize::MAX,
    ensures
        ({
            let n = encode_bits(table.codes@, bytes@).len();
            &&& n <= 32 * bytes@.len()
            &&& r.1 == (8 - n % 8) % 8
            &&& 8 * r.0@.len() == n + r.1
            &&& stream(r.0@, n) == encode_bits(table.codes@, bytes@)
            &&& forall|i: int| n <= i < 8 * r.0@.len() ==> !#[trigger] get_bit(r.0@, i)
        }),
{
    let mut w = BitWriter::new();
    let mut i: usize = 0;
    while i < bytes.len()
        invariant
            i <= bytes@.len(),
            table.wf(),
            all_coded(table.codes@, bytes@),
            32 * bytes@.len() + 32 <= usize::MAX,
            w.wf(),
            w.nbits <= 32 * i,
            w.bits() == encode_bits(table.codes@, bytes@.take(i as int)),
        decreases bytes@.len() - i,
    {
        let x = bytes[i];
        assert(table.codes@[bytes@[i as int] as int].is_some());
        let c = table.get(x).unwrap();
        w.write_code(c);
        proof {
            lemma_encode_step(table.codes@, bytes@, i as int);
        }
        i = i + 1;
    }
    proof {
        assert(bytes@.take(i as int) == bytes@);
    }
    w.finish()
}

/// Decoding has emitted `out` and holds `acc_len` bits `acc` of the next
/// code, in step with the source `s` of the stream.
spec fn on_track(
    t: Seq<Option<HuffmanCode>>,
    s: Seq<u8>,
    out: Seq<u8>,
    i: int,
    acc_len: u8,
    acc: u32,
) -> bool {
    let k = out.len() as int;
    &&& k <= s.len()
    &&& out == s.take(k)
    &&& i == encode_bits(t, s.take(k)).len() + acc_len
    &&& (k == s.len() ==> acc_len == 0)
    &&& (k < s.len() ==> {
        let c = t[s[k] as int].unwrap();
        &&& acc_len < c.spec_len()
        &&& (acc_len == 0 ==> acc == 0)
        &&& (acc_len > 0 ==> acc == c.spec_code() >> (c.spec_len() - acc_len) as u32)
    })
}

proof fn lemma_encode_push(t: Seq<Option<HuffmanCode>>, out: Seq<u8>, v: u8)
    ensures
        encode_bits(t, out.push(v)) == encode_bits(t, out) + t[v as int].unwrap().bits(),
{
    assert(out.push(v).drop_last() == out);
}

proof fn lemma_self_prefix(a: Seq<bool>)
    ensures
        is_prefix(a, a),
{
    assert(a.subrange(0, a.len() as int) == a);
}

/// Unpacks `payload` with `table`: the bytes whose codes, concatenated, are
/// the payload's bits up to the padding.
pub fn decode(table: &CodeTable, payload: &[u8], padding: u8) -> (r: Result<Vec<u8>, HuffmanError>)
    requires
        table.wf(),
        8 * payload@.len() <= usize::MAX,
    ensures
        !padding_ok(payload@.len(), padding) ==> r == Err::<Vec<u8>, HuffmanError>(HuffmanError::Malformed),
        r matches Ok(out) ==> padding_ok(payload@.len(), padding) && source(
            table.codes@,
            stream(payload@, data_bits(payload@.len(), padding) as nat),
            out@,
        ),
        padding_ok(payload@.len(), padding) ==> (r is Err ==> r == Err::<Vec<u8>, HuffmanError>(HuffmanError::BadPayload)),
        padding_ok(payload@.len(), padding) && prefix_free(table.codes@) ==> forall|s: Seq<u8>|
            #[trigger] source(table.codes@, stream(payload@, data_bits(payload@.len(), padding) as nat), s)
                ==> (r matches Ok(out) && out@ == s),
{
    if padding > 7 || (payload.len() == 0 && padding != 0) {
        return Err(HuffmanError::Malformed);
    }
    let nbits: usize = 8 * payload.len() - padding as usize;
    let ghost t = table.codes@;
    let ghost st = stream(payload@, nbits as nat);
    let mut out: Vec<u8> = Vec::new();
    let mut acc: u32 = 0;
    let mut acc_len: u8 = 0;
    let mut i: usize = 0;
    proof {
        assert(encode_bits(t, out@) + pattern_bits(0, 0) =~= st.take(0));
        assert forall|s: Seq<u8>| #[trigger] source(t, st, s) implies on_track(t, s, out@, 0, 0, 0) by {
            assert(out@ == s.take(0));
        }
    }
    while i < nbits
        invariant
            table.wf(),
            t == table.codes@,
            padding_ok(payload@.len(), padding),
            nbits == data_bits(payload@.len(), padding),
            i <= nbits,
            nbits <= 8 * payload@.len(),
            st == stream(payload@, nbits as nat),
            acc_len <= 32,
            all_coded(t, out@),
            encode_bits(t, out@) + pattern_bits(acc_len as nat, acc) == st.take(i as int),
            prefix_free(t) ==> forall|s: Seq<u8>| #[trigger] source(t, st, s) ==> on_track(t, s, out@, i as int, acc_len, acc),
        decreases nbits - i,
    {
        if acc_len == 32 {
            proof {
                assert forall|s: Seq<u8>| prefix_free(t) && #[trigger] source(t, st, s) implies false by {
                    let k = out@.len() as int;
                    if k < s.len() {
                        assert(t[s[k] as int].is_some());
                    }
                }
            }
            return Err(HuffmanError::BadPayload);
        }
        let bit = read_bit(payload, i);
        let ghost old_acc = acc;
        let ghost old_len = acc_len;
        let ghost old_out = out@;
        acc = if bit {
            (acc << 1u32) | 1u32
        } else {
            acc << 1u32
        };
        acc_len = acc_len + 1;
        proof {
            lemma_push_bit(old_len, old_acc, bit);
            assert(bit == st[i as int]);
        }
        let found = find_code(table, acc_len, acc);
        match found {
            Some(v) => {
                out.push(v);
                acc = 0;
                acc_len = 0;
            },
            None => {},
        }
        proof {
            let pre = encode_bits(t, old_out) + pattern_bits(old_len as nat, old_acc);
            assert(pre.push(bit) =~= st.take(i as int + 1));
            match found {
                Some(v) => {
                    lemma_encode_push(t, old_out, v);
                    assert(t[v as int].unwrap().bits() == pattern_bits((old_len + 1) as nat, if bit { (old_acc << 1u32) | 1u32 } else { old_acc << 1u32 }));
                    assert(encode_bits(t, out@) + pattern_bits(0, 0) =~= st.take(i as int + 1));
                    assert forall|j: int| 0 <= j < out@.len() implies (#[trigger] t[out@[j] as int]).is_some() by {
                        if j < old_out.len() {
                            assert(out@[j] == old_out[j]);
                        }
                    }
                },
                None => {
                    assert(encode_bits(t, out@) + pattern_bits(acc_len as nat, acc) =~= st.take(i as int + 1));
                },
            }
            if prefix_free(t) {
                assert forall|s: Seq<u8>| #[trigger] source(t, st, s) implies on_track(t, s, out@, i as int + 1, acc_len, acc) by {
                    let k = old_out.len() as int;
                    assert(on_track(t, s, old_out, i as int, old_len, old_acc));
                    if k == s.len() {
                        assert(s.take(k) == s);
                    }
                    assert(k < s.len());
                    assert(t[s[k] as int].is_some());
                    let c = t[s[k] as int].unwrap();
                    let len = c.spec_len();
                    lemma_encode_step(t, s, k);
                    lemma_encode_prefix(t, s, k + 1);
                    assert(st[i as int] == encode_bits(t, s.take(k + 1))[i as int]);
                    assert(bit == bit_of(c.spec_code(), (len - 1 - old_len) as u32));
                    lemma_acc_step(c.spec_code(), len, old_len, old_acc);
                    let new_acc = c.spec_code() >> (len - old_len - 1) as u32;
                    if old_len + 1 == len {
                        assert(new_acc == c.spec_code()) by {
                            let cc = c.spec_code();
                            assert(cc >> 0u32 == cc) by (bit_vector);
                        }
                        match found {
                            Some(v) => {
                                let e = t[v as int].unwrap();
                                lemma_code_ext(e, c);
                                if v as int != s[k] as int {
                                    lemma_self_prefix(c.bits());
                                    assert(!is_prefix(t[v as int].unwrap().bits(), t[s[k] as int].unwrap().bits()));
                                }
                                assert(out@ =~= s.take(k + 1));
                                if k + 1 < s.len() {
                                    assert(t[s[k + 1] as int].is_some());
                                }
                            },
                            None => {
                                assert(t[s[k] as int].is_some());
                            },
                        }
                    } else {
                        match found {
                            Some(v) => {
                                let e = t[v as int].unwrap();
                                lemma_prefix_value(c.spec_code(), len, (old_len + 1) as u8);
                                assert(e.bits() == c.bits().take(old_len + 1));
                                assert(is_prefix(e.bits(), c.bits()));
                                assert(t[v as int].is_some() && t[s[k] as int].is_some());
                                assert(v as int != s[k] as int);
                            },
                            None => {},
                        }
                    }
                }
            }
        }
        i = i + 1;
    }
    if acc_len != 0 {
        proof {
            assert forall|s: Seq<u8>| prefix_free(t) && #[trigger] source(t, st, s) implies false by {
                let k = out@.len() as int;
                if k < s.len() {
                    assert(t[s[k] as int].is_some());
                    lemma_encode_step(t, s, k);
                    lemma_encode_prefix(t, s, k + 1);
                }
            }
        }
        return Err(HuffmanError::BadPayload);
    }
    proof {
        assert(encode_bits(t, out@) =~= st);
        assert forall|s: Seq<u8>| prefix_free(t) && #[trigger] source(t, st, s) implies out@ == s by {
            let k = out@.len() as int;
            if k < s.len() {
                assert(t[s[k] as int].is_some());
                lemma_encode_step(t, s, k);
                lemma_encode_prefix(t, s, k + 1);
            } else {
                assert(s.take(k) == s);
            }
        }
    }
    Ok(out)
}

} // verus!
