//! CRC-32 (ISO-HDLC) checksums of entry payloads, computed by the `crc` crate.

use vstd::prelude::*;

verus! {

/// One bit step of the reflected CRC-32 register: shift right, and fold in
/// the reflected polynomial 0xEDB88320 (0x04C11DB7 reflected) when the bit
/// shifted out is set.
pub open spec fn crc_bit(c: u32) -> u32 {
    if c & 1 == 1 {
        (c >> 1u32) ^ 0xEDB8_8320u32
    } else {
        c >> 1u32
    }
}

/// The register after taking in one byte, least significant bit first.
pub open spec fn crc_byte(c: u32, b: u8) -> u32 {
    crc_bit(crc_bit(crc_bit(crc_bit(crc_bit(crc_bit(crc_bit(crc_bit(c ^ (b as u32)))))))))
}

/// The register after taking in `bytes`, from the initial value 0xFFFFFFFF.
pub open spec fn crc_register(bytes: Seq<u8>) -> u32
    decreases bytes.len(),
{
    if bytes.len() == 0 {
        0xFFFF_FFFFu32
    } else {
        crc_byte(crc_register(bytes.drop_last()), bytes.last())
    }
}

/// CRC-32/ISO-HDLC of `bytes` (the `crc` catalogue's `CRC_32_ISO_HDLC`:
/// polynomial 0x04C11DB7, initial value and final xor 0xFFFFFFFF, input and
/// output reflected): the final register, xored with 0xFFFFFFFF. Opaque:
/// proofs that need the definition reveal it.
#[verifier::opaque]
pub open spec fn crc32_iso_hdlc(bytes: Seq<u8>) -> u32 {
    crc_register(bytes) ^ 0xFFFF_FFFFu32
}

/// A bit step keeps different registers different.
proof fn lemma_crc_bit_injective(x: u32, y: u32)
    ensures
        crc_bit(x) == crc_bit(y) ==> x == y,
{
    assert(crc_bit(x) == crc_bit(y) ==> x == y) by (bit_vector);
}

/// Taking in a byte keeps different inputs different: equal registers
/// afterwards mean equal register-xor-byte beforehand.
proof fn lemma_crc_byte_injective(c1: u32, b1: u8, c2: u32, b2: u8)
    ensures
        crc_byte(c1, b1) == crc_byte(c2, b2) ==> c1 ^ (b1 as u32) == c2 ^ (b2 as u32),
{
    let x0 = c1 ^ (b1 as u32);
    let y0 = c2 ^ (b2 as u32);
    let x1 = crc_bit(x0);
    let y1 = crc_bit(y0);
    let x2 = crc_bit(x1);
    let y2 = crc_bit(y1);
    let x3 = crc_bit(x2);
    let y3 = crc_bit(y2);
    let x4 = crc_bit(x3);
    let y4 = crc_bit(y3);
    let x5 = crc_bit(x4);
    let y5 = crc_bit(y4);
    let x6 = crc_bit(x5);
    let y6 = crc_bit(y5);
    let x7 = crc_bit(x6);
    let y7 = crc_bit(y6);
    lemma_crc_bit_injective(x7, y7);
    lemma_crc_bit_injective(x6, y6);
    lemma_crc_bit_injective(x5, y5);
    lemma_crc_bit_injective(x4, y4);
    lemma_crc_bit_injective(x3, y3);
    lemma_crc_bit_injective(x2, y2);
    lemma_crc_bit_injective(x1, y1);
    lemma_crc_bit_injective(x0, y0);
}

/// Two byte runs of one length that differ in exactly one byte leave
/// different registers.
proof fn lemma_crc_register_one_change(p: Seq<u8>, q: Seq<u8>, i: int)
    requires
        p.len() == q.len(),
        0 <= i < p.len(),
        p[i] != q[i],
        forall|j: int| 0 <= j < p.len() && j != i ==> p[j] == q[j],
    ensures
        crc_register(p) != crc_register(q),
    decreases p.len(),
{
    let n = p.len() - 1;
    let (b1, b2) = (p.last(), q.last());
    if i == n {
        assert(p.drop_last() =~= q.drop_last());
        let r = crc_register(p.drop_last());
        lemma_crc_byte_injective(r, b1, r, b2);
        assert(r ^ (b1 as u32) == r ^ (b2 as u32) ==> b1 == b2) by (bit_vector);
    } else {
        assert forall|j: int| 0 <= j < n && j != i implies p.drop_last()[j] == q.drop_last()[j] by {
            assert(p[j] == q[j]);
        }
        lemma_crc_register_one_change(p.drop_last(), q.drop_last(), i);
        let r1 = crc_register(p.drop_last());
        let r2 = crc_register(q.drop_last());
        assert(b1 == b2) by {
            assert(p[n] == q[n]);
        }
        lemma_crc_byte_injective(r1, b1, r2, b2);
        assert(r1 ^ (b1 as u32) == r2 ^ (b1 as u32) ==> r1 == r2) by (bit_vector);
    }
}

/// The checksum catches any change of a single byte: two byte runs of one
/// length that differ in exactly one byte have different checksums.
pub proof fn lemma_crc_catches_one_byte(p: Seq<u8>, q: Seq<u8>, i: int)
    requires
        p.len() == q.len(),
        0 <= i < p.len(),
        p[i] != q[i],
        forall|j: int| 0 <= j < p.len() && j != i ==> p[j] == q[j],
    ensures
        crc32_iso_hdlc(p) != crc32_iso_hdlc(q),
{
    reveal(crc32_iso_hdlc);
    lemma_crc_register_one_change(p, q, i);
    let r1 = crc_register(p);
    let r2 = crc_register(q);
    assert(r1 != r2 ==> r1 ^ 0xFFFF_FFFFu32 != r2 ^ 0xFFFF_FFFFu32) by (bit_vector);
}

/// Calls `crc::Crc::<u32>::checksum` with the `CRC_32_ISO_HDLC` algorithm.
/// Claimed: it computes `crc32_iso_hdlc` of the bytes handed in, the
/// algorithm that the catalogue's parameters for `CRC_32_ISO_HDLC` define.
#[verifier::external_body]
pub(crate) fn crc32_checksum(bytes: &[u8]) -> (sum: u32)
    ensures
        sum == crc32_iso_hdlc(bytes@),
{
    crc::Crc::<u32>::new(&crc::CRC_32_ISO_HDLC).checksum(bytes)
}

} // verus!
