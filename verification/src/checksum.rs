//! The checksum that guards what is read back.

use vstd::prelude::*;

verus! {

/// One step of the division that a CRC is the remainder of: the register moves
/// on by a bit, and where a one falls out the IEEE polynomial is taken off, its
/// bits reflected.
pub open spec fn crc_step(r: u32) -> u32 {
    if r & 1 == 1 {
        (r >> 1) ^ 0xedb8_8320u32
    } else {
        r >> 1
    }
}

/// The register after `n` steps.
pub open spec fn crc_steps(r: u32, n: nat) -> u32
    decreases n,
{
    if n == 0 {
        r
    } else {
        crc_step(crc_steps(r, (n - 1) as nat))
    }
}

/// The register after some bytes, from all ones.
pub open spec fn crc_register(bytes: Seq<u8>) -> u32
    decreases bytes.len(),
{
    if bytes.len() == 0 {
        0xffff_ffff
    } else {
        crc_steps(crc_register(bytes.drop_last()) ^ (bytes.last() as u32), 8)
    }
}

/// The CRC-32 of some bytes, as IEEE 802.3 has it.
pub open spec fn crc32(bytes: Seq<u8>) -> u32 {
    crc_register(bytes) ^ 0xffff_ffff
}

/// `crc32fast::hash` computes the CRC-32 (IEEE) of a byte slice: the register
/// starts as all ones, takes in each byte low bit first, and is inverted at the
/// end.
#[verifier::external_body]
pub(crate) fn crc32_of(bytes: &[u8]) -> (r: u32)
    ensures
        r == crc32(bytes@),
{
    crc32fast::hash(bytes)
}

proof fn lemma_step_tells_apart(a: u32, b: u32)
    requires
        a != b,
    ensures
        crc_step(a) != crc_step(b),
{
    assert(a != b ==> (if a & 1 == 1 {
        (a >> 1) ^ 0xedb8_8320u32
    } else {
        a >> 1
    }) != (if b & 1 == 1 {
        (b >> 1) ^ 0xedb8_8320u32
    } else {
        b >> 1
    })) by (bit_vector);
}

proof fn lemma_steps_tell_apart(a: u32, b: u32, n: nat)
    requires
        a != b,
    ensures
        crc_steps(a, n) != crc_steps(b, n),
    decreases n,
{
    if n > 0 {
        lemma_steps_tell_apart(a, b, (n - 1) as nat);
        lemma_step_tells_apart(crc_steps(a, (n - 1) as nat), crc_steps(b, (n - 1) as nat));
    }
}

proof fn lemma_register_tells_apart(a: Seq<u8>, b: Seq<u8>, i: int)
    requires
        a.len() == b.len(),
        0 <= i < a.len(),
        a[i] != b[i],
        forall|k: int| 0 <= k < a.len() && k != i ==> #[trigger] a[k] == b[k],
    ensures
        crc_register(a) != crc_register(b),
    decreases a.len(),
{
    let (r, s) = (crc_register(a.drop_last()), crc_register(b.drop_last()));
    let (x, y) = (a.last() as u32, b.last() as u32);
    if i == a.len() - 1 {
        assert(a.drop_last() =~= b.drop_last());
        assert(x != y ==> r ^ x != r ^ y) by (bit_vector);
    } else {
        lemma_register_tells_apart(a.drop_last(), b.drop_last(), i);
        assert(a[a.len() - 1] == b[a.len() - 1]);
        assert(r != s ==> r ^ x != s ^ x) by (bit_vector);
    }
    lemma_steps_tell_apart(r ^ x, s ^ y, 8);
}

/// Bytes that differ in one place have different checksums.
pub proof fn law_one_changed_byte_shows(a: Seq<u8>, b: Seq<u8>, i: int)
    requires
        a.len() == b.len(),
        0 <= i < a.len(),
        a[i] != b[i],
        forall|k: int| 0 <= k < a.len() && k != i ==> #[trigger] a[k] == b[k],
    ensures
        crc32(a) != crc32(b),
{
    lemma_register_tells_apart(a, b, i);
    let (r, s) = (crc_register(a), crc_register(b));
    assert(r != s ==> r ^ 0xffff_ffffu32 != s ^ 0xffff_ffffu32) by (bit_vector);
}

} // verus!
