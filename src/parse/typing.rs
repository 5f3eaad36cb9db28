//! Conversions between bytes, 32-bit words and bits.
use crate::automata::b2n;
use crate::bits::BitWise;
use crate::key::le_u32;
use vstd::arithmetic::power2::pow2;
use vstd::prelude::*;

verus! {

/// The four bytes starting at byte `4 * i`, zero past the end of `b`.
pub open spec fn word_bytes(b: Seq<u8>, i: int) -> Seq<u8> {
    Seq::new(4, |j: int| if 4 * i + j < b.len() { b[4 * i + j] } else { 0u8 })
}

/// Byte `j` (least significant first) of a 32-bit word.
pub open spec fn u32_byte(w: u32, j: int) -> int {
    let v = w as int;
    if j == 0 {
        v % 256
    } else if j == 1 {
        (v / 256) % 256
    } else if j == 2 {
        (v / 65536) % 256
    } else {
        v / 16777216
    }
}

/// The value of a bit string, bit `i` contributing `2^i`.
pub open spec fn bits_value(s: Seq<bool>) -> nat
    decreases s.len(),
{
    if s.len() == 0 {
        0
    } else {
        bits_value(s.drop_last()) + b2n(s.last()) * pow2((s.len() - 1) as nat)
    }
}

/// Packs bytes into little-endian 32-bit words, zero-padding the last.
pub fn pack_u8s_to_u32s(bytes: &[u8]) -> (r: Vec<u32>)
    ensures
        r@.len() == (bytes@.len() + 3) / 4,
        forall|i: int| 0 <= i < r@.len() ==> #[trigger] r@[i] == le_u32(word_bytes(bytes@, i)),
{
    let n = bytes.len() / 4 + if bytes.len() % 4 == 0 {
        0
    } else {
        1
    };
    let mut result: Vec<u32> = Vec::new();
    let mut i: usize = 0;
    while i < n
        invariant
            n == (bytes@.len() + 3) / 4,
            i <= n,
            result@.len() == i,
            forall|k: int| 0 <= k < i ==> #[trigger] result@[k] == le_u32(word_bytes(bytes@, k)),
        decreases n - i,
    {
        let mut chunk: [u8; 4] = [0u8; 4];
        assert(4 * i < bytes@.len());
        let mut j: usize = 0;
        while j < 4
            invariant
                i < n,
                n == (bytes@.len() + 3) / 4,
                4 * i < bytes@.len(),
                j <= 4,
                forall|jj: int| 0 <= jj < j ==> chunk@[jj] == word_bytes(bytes@, i as int)[jj],
                forall|jj: int| j <= jj < 4 ==> chunk@[jj] == 0u8,
            decreases 4 - j,
        {
            if j < bytes.len() - 4 * i {
                chunk[j] = bytes[4 * i + j];
            }
            j += 1;
        }
        let w = chunk[0] as u32 + chunk[1] as u32 * 256 + chunk[2] as u32 * 65536 + chunk[3] as u32
            * 16777216;
        result.push(w);
        i += 1;
    }
    result
}

/// Unpacks 32-bit words into their little-endian bytes.
pub fn unpack_u32s_to_u8s(data: &[u32]) -> (r: Vec<u8>)
    ensures
        r@.len() == 4 * data@.len(),
        forall|i: int, j: int|
            0 <= i < data@.len() && 0 <= j < 4 ==> #[trigger] r@[4 * i + j] == u32_byte(data@[i], j),
{
    let mut result: Vec<u8> = Vec::new();
    let mut i: usize = 0;
    while i < data.len()
        invariant
            i <= data@.len(),
            result@.len() == 4 * i,
            forall|k: int, j: int|
                0 <= k < i && 0 <= j < 4 ==> #[trigger] result@[4 * k + j] == u32_byte(data@[k], j),
        decreases data@.len() - i,
    {
        let w = data[i];
        result.push((w % 256) as u8);
        result.push(((w / 256) % 256) as u8);
        result.push(((w / 65536) % 256) as u8);
        result.push((w / 16777216) as u8);
        i += 1;
    }
    result
}

/// The bits of a byte, least significant first.
pub fn explode_u8_to_bool(byte: u8) -> (r: Vec<bool>)
    ensures
        r@.len() == 8,
        forall|i: int| 0 <= i < 8 ==> #[trigger] r@[i] == byte.bit(i as nat),
{
    let mut result: Vec<bool> = Vec::new();
    let mut i: u8 = 0;
    while i < 8
        invariant
            i <= 8,
            result@.len() == i,
            forall|k: int| 0 <= k < i ==> #[trigger] result@[k] == byte.bit(k as nat),
        decreases 8 - i,
    {
        result.push((byte >> i) & 1 == 1);
        i += 1;
    }
    result
}

/// The bits of a sequence of bytes, each byte least significant bit first.
pub fn explode_u8_to_bool_vec(bytes: Vec<u8>) -> (r: Vec<bool>)
    requires
        bytes@.len() * 8 <= usize::MAX,
    ensures
        r@.len() == 8 * bytes@.len(),
        forall|k: int, i: int|
            0 <= k < bytes@.len() && 0 <= i < 8 ==> #[trigger] r@[8 * k + i] == bytes@[k].bit(
                i as nat,
            ),
{
    let mut result: Vec<bool> = Vec::new();
    let mut k: usize = 0;
    while k < bytes.len()
        invariant
            k <= bytes@.len(),
            result@.len() == 8 * k,
            forall|kk: int, i: int|
                0 <= kk < k && 0 <= i < 8 ==> #[trigger] result@[8 * kk + i] == bytes@[kk].bit(
                    i as nat,
                ),
        decreases bytes@.len() - k,
    {
        let mut bits = explode_u8_to_bool(bytes[k]);
        let ghost before = result@;
        result.append(&mut bits);
        proof {
            assert forall|kk: int, i: int| 0 <= kk < k + 1 && 0 <= i < 8 implies #[trigger] result@[8
                * kk + i] == bytes@[kk].bit(i as nat) by {
                if kk < k {
                    assert(result@[8 * kk + i] == before[8 * kk + i]);
                }
            }
        }
        k += 1;
    }
    result
}

/// The byte whose bits, least significant first, are `bits`.
pub fn concat_bool_to_u8(bits: Vec<bool>) -> (r: u8)
    requires
        bits@.len() <= 8,
    ensures
        r == bits_value(bits@),
{
    let mut result: u32 = 0;
    let mut weight: u32 = 1;
    let mut i: usize = 0;
    proof {
        vstd::arithmetic::power2::lemma2_to64();
        assert(bits@.take(0) =~= Seq::<bool>::empty());
    }
    while i < bits.len()
        invariant
            bits@.len() <= 8,
            i <= bits@.len(),
            weight == pow2(i as nat),
            result == bits_value(bits@.take(i as int)),
            result < pow2(i as nat),
        decreases bits@.len() - i,
    {
        proof {
            vstd::arithmetic::power2::lemma2_to64();
            vstd::arithmetic::power2::lemma_pow2_unfold((i + 1) as nat);
            assert(bits@.take(i + 1).drop_last() =~= bits@.take(i as int));
        }
        if bits[i] {
            result = result + weight;
        }
        weight = weight * 2;
        i += 1;
    }
    proof {
        assert(bits@.take(bits@.len() as int) =~= bits@);
        vstd::arithmetic::power2::lemma2_to64();
        if i < 8 {
            vstd::arithmetic::power2::lemma_pow2_strictly_increases(i as nat, 8);
        }
    }
    result as u8
}

/// The bytes whose bits, eight at a time, are `bits`; the last byte takes what remains.
pub fn concat_bool_to_u8_vec(bits: Vec<bool>) -> (r: Vec<u8>)
    ensures
        r@.len() == (bits@.len() + 7) / 8,
        forall|k: int|
            0 <= k < r@.len() ==> #[trigger] r@[k] == bits_value(
                bits@.subrange(8 * k, if 8 * k + 8 < bits@.len() { 8 * k + 8 } else { bits@.len() as int }),
            ),
{
    let len = bits.len();
    let n = len / 8 + if len % 8 == 0 {
        0
    } else {
        1
    };
    let mut result: Vec<u8> = Vec::new();
    let mut k: usize = 0;
    while k < n
        invariant
            len == bits@.len(),
            n == (len + 7) / 8,
            k <= n,
            result@.len() == k,
            forall|kk: int|
                0 <= kk < k ==> #[trigger] result@[kk] == bits_value(
                    bits@.subrange(8 * kk, if 8 * kk + 8 < len { 8 * kk + 8 } else { len as int }),
                ),
        decreases n - k,
    {
        assert(8 * k < len);
        let start = 8 * k;
        let end = if len - start > 8 {
            start + 8
        } else {
            len
        };
        let mut chunk: Vec<bool> = Vec::new();
        let mut p: usize = start;
        while p < end
            invariant
                start <= p <= end,
                end <= len,
                len == bits@.len(),
                chunk@ == bits@.subrange(start as int, p as int),
            decreases end - p,
        {
            chunk.push(bits[p]);
            p += 1;
            proof {
                assert(chunk@ =~= bits@.subrange(start as int, p as int));
            }
        }
        result.push(concat_bool_to_u8(chunk));
        k += 1;
    }
    result
}

} // verus!
