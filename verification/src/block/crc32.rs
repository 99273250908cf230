use vstd::prelude::*;

verus! {

/// One step of the division by the generator polynomial, most significant bit first.
pub open spec fn crc_shift(crc: u32) -> u32 {
    if crc & 0x8000_0000u32 != 0 {
        (crc << 1u32) ^ 0x04C1_1DB7u32
    } else {
        crc << 1u32
    }
}

/// `n` steps of the division.
pub open spec fn crc_shifts(crc: u32, n: nat) -> u32
    decreases n,
{
    if n == 0 {
        crc
    } else {
        crc_shift(crc_shifts(crc, (n - 1) as nat))
    }
}

/// The register after one more byte has been fed in.
pub open spec fn crc_update(crc: u32, byte: u8) -> u32 {
    crc_shifts(crc ^ ((byte as u32) << 24u32), 8)
}

/// The register after all of `data` has been fed in, starting from all ones.
pub open spec fn crc_register(data: Seq<u8>) -> u32
    decreases data.len(),
{
    if data.len() == 0 {
        0xFFFF_FFFFu32
    } else {
        crc_update(crc_register(data.drop_last()), data.last())
    }
}

/// The checksum of `data`: the complement of the final register.
pub open spec fn crc32_spec(data: Seq<u8>) -> u32 {
    !crc_register(data)
}

/// The combined checksum of a stream after one more block with checksum `block_crc`.
pub open spec fn combine_crc_spec(total: u32, block_crc: u32) -> u32 {
    block_crc ^ ((total << 1u32) | (total >> 31u32))
}

/// The combined checksum of a stream whose blocks have the given checksums.
pub open spec fn combined_crc(block_crcs: Seq<u32>) -> u32
    decreases block_crcs.len(),
{
    if block_crcs.len() == 0 {
        0
    } else {
        combine_crc_spec(combined_crc(block_crcs.drop_last()), block_crcs.last())
    }
}

/// Computes the checksum of a block of data.
pub fn crc32(data: &[u8]) -> (crc: u32)
    ensures
        crc == crc32_spec(data@),
{
    let mut crc: u32 = 0xFFFF_FFFF;
    let mut i: usize = 0;
    while i < data.len()
        invariant
            i <= data.len(),
            crc == crc_register(data@.take(i as int)),
        decreases data.len() - i,
    {
        let ghost start = crc;
        crc = crc ^ ((data[i] as u32) << 24);
        let mut k: usize = 0;
        while k < 8
            invariant
                k <= 8,
                crc == crc_shifts(start ^ ((data@[i as int] as u32) << 24u32), k as nat),
            decreases 8 - k,
        {
            if crc & 0x8000_0000 != 0 {
                crc = (crc << 1) ^ 0x04C1_1DB7;
            } else {
                crc = crc << 1;
            }
            k = k + 1;
        }
        proof {
            assert(data@.take(i + 1).drop_last() =~= data@.take(i as int));
        }
        i = i + 1;
    }
    proof {
        assert(data@.take(i as int) =~= data@);
    }
    !crc
}

/// Folds the checksum of the next block into the combined checksum of a stream.
pub fn combine_crc(total: u32, block_crc: u32) -> (combined: u32)
    ensures
        combined == combine_crc_spec(total, block_crc),
{
    block_crc ^ ((total << 1) | (total >> 31))
}

/// The combined checksum of a stream of one block is that block's checksum.
pub proof fn lemma_combined_crc_single(block_crc: u32)
    ensures
        combined_crc(seq![block_crc]) == block_crc,
{
    assert(seq![block_crc].drop_last() =~= Seq::<u32>::empty());
    assert(combined_crc(seq![block_crc].drop_last()) == 0);
    assert(block_crc ^ ((0u32 << 1u32) | (0u32 >> 31u32)) == block_crc) by (bit_vector);
}

/// Adding a block folds its checksum into the combined checksum by the recurrence.
pub proof fn lemma_combined_crc_push(block_crcs: Seq<u32>, block_crc: u32)
    ensures
        combined_crc(block_crcs.push(block_crc)) == combine_crc_spec(
            combined_crc(block_crcs),
            block_crc,
        ),
{
    assert(block_crcs.push(block_crc).drop_last() =~= block_crcs);
}

} // verus!
