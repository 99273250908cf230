use vstd::prelude::*;
use crate::bitwise::Bit;
use crate::bitwise::bitreader::BitReader;
use crate::error::DecodeError;

verus! {

/// Whether a byte of the table lies in the region of sixteen bytes with the given
/// number.
pub open spec fn region_used(table: Seq<u8>, region: int) -> bool {
    exists|j: int| 0 <= j < 16 && #[trigger] table.contains((16 * region + j) as u8)
}

/// A bit for every region: whether a byte of the table lies in it.
pub open spec fn region_bits(table: Seq<u8>) -> Seq<Bit> {
    Seq::new(
        16,
        |region: int|
            if region_used(table, region) {
                Bit::One
            } else {
                Bit::Zero
            },
    )
}

/// A bit for every byte of a region: whether it is in the table.
pub open spec fn detail_bits(table: Seq<u8>, region: int) -> Seq<Bit> {
    Seq::new(
        16,
        |j: int|
            if table.contains((16 * region + j) as u8) {
                Bit::One
            } else {
                Bit::Zero
            },
    )
}

/// The bits of the bytes of the used regions below `region`, in order.
pub open spec fn details_below(table: Seq<u8>, region: int) -> Seq<Bit>
    decreases region,
{
    if region <= 0 {
        Seq::empty()
    } else if region_used(table, region - 1) {
        details_below(table, region - 1) + detail_bits(table, region - 1)
    } else {
        details_below(table, region - 1)
    }
}

/// The bits that say which bytes are in the table: sixteen bits for the regions, then
/// sixteen bits for every used region.
pub open spec fn symbol_table_bits(table: Seq<u8>) -> Seq<Bit> {
    region_bits(table) + details_below(table, 16)
}

/// Writes down which bytes are used: a bit for each of the sixteen regions of sixteen
/// bytes, and for every region in use a bit for each of its bytes.
pub fn get_symbol_table(table: Vec<u8>) -> (out: Vec<Bit>)
    ensures
        out@ == symbol_table_bits(table@),
{
    let mut used: Vec<bool> = vec![false; 256];
    let mut i: usize = 0;
    while i < table.len()
        invariant
            i <= table@.len(),
            used@.len() == 256,
            forall|b: int| 0 <= b < 256 ==> (#[trigger] used@[b] <==> table@.take(i as int).contains(b as u8)),
        decreases table@.len() - i,
    {
        let ghost before = table@.take(i as int);
        used[table[i] as usize] = true;
        i = i + 1;
        proof {
            let after = table@.take(i as int);
            assert(after =~= before.push(table@[i - 1]));
            assert forall|b: int| 0 <= b < 256 implies (#[trigger] used@[b] <==> after.contains(b as u8)) by {
                if before.contains(b as u8) {
                    let k = choose|k: int| 0 <= k < before.len() && before[k] == b as u8;
                    assert(after[k] == b as u8);
                }
                if b as u8 == table@[i - 1] {
                    assert(after[i - 1] == b as u8);
                }
                if after.contains(b as u8) {
                    let k = choose|k: int| 0 <= k < after.len() && after[k] == b as u8;
                    if k < i - 1 {
                        assert(before[k] == b as u8);
                    }
                }
            }
        }
    }
    proof {
        assert(table@.take(i as int) =~= table@);
    }
    let mut out_region: Vec<Bit> = Vec::new();
    let mut out_detail: Vec<Bit> = Vec::new();
    let mut region: usize = 0;
    while region < 16
        invariant
            region <= 16,
            used@.len() == 256,
            forall|b: int| 0 <= b < 256 ==> (#[trigger] used@[b] <==> table@.contains(b as u8)),
            out_region@ == region_bits(table@).take(region as int),
            out_detail@ == details_below(table@, region as int),
        decreases 16 - region,
    {
        let mut any = false;
        let mut detail: Vec<Bit> = Vec::new();
        let mut j: usize = 0;
        while j < 16
            invariant
                j <= 16,
                region < 16,
                used@.len() == 256,
                forall|b: int| 0 <= b < 256 ==> (#[trigger] used@[b] <==> table@.contains(b as u8)),
                detail@ == detail_bits(table@, region as int).take(j as int),
                any <==> exists|k: int| 0 <= k < j && #[trigger] table@.contains((16 * region + k) as u8),
            decreases 16 - j,
        {
            if used[16 * region + j] {
                any = true;
                detail.push(Bit::One);
            } else {
                detail.push(Bit::Zero);
            }
            j = j + 1;
            proof {
                assert(detail@ =~= detail_bits(table@, region as int).take(j as int));
            }
        }
        proof {
            assert(detail_bits(table@, region as int).take(16) =~= detail_bits(table@, region as int));
        }
        if any {
            out_region.push(Bit::One);
            out_detail.append(&mut detail);
        } else {
            out_region.push(Bit::Zero);
        }
        region = region + 1;
        proof {
            assert(out_region@ =~= region_bits(table@).take(region as int));
        }
    }
    proof {
        assert(region_bits(table@).take(16) =~= region_bits(table@));
    }
    out_region.append(&mut out_detail);
    out_region
}

/// The places below `k` at which a one stands, ascending.
pub open spec fn ones_below(input: Seq<Bit>, k: int) -> Seq<u8>
    decreases k,
{
    if k <= 0 {
        Seq::empty()
    } else if input[k - 1] == Bit::One {
        ones_below(input, k - 1).push((k - 1) as u8)
    } else {
        ones_below(input, k - 1)
    }
}

/// The ones are fewer than the places, and each names a place.
pub proof fn lemma_ones_below(input: Seq<Bit>, k: int)
    requires
        0 <= k <= input.len(),
        k <= 256,
    ensures
        ones_below(input, k).len() <= k,
        forall|i: int| 0 <= i < ones_below(input, k).len() ==> (#[trigger] ones_below(input, k)[i] as int) < k,
    decreases k,
{
    if k > 0 {
        lemma_ones_below(input, k - 1);
    }
}

/// Lists the regions that are in use: the places of the ones.
pub fn get_used_regions(input: &[Bit]) -> (out: Vec<u8>)
    requires
        input@.len() <= 256,
    ensures
        out@ == ones_below(input@, input@.len() as int),
{
    let mut out: Vec<u8> = Vec::new();
    let mut count: usize = 0;
    while count < input.len()
        invariant
            count <= input@.len() <= 256,
            out@ == ones_below(input@, count as int),
        decreases input@.len() - count,
    {
        match input[count] {
            Bit::One => {
                out.push(count as u8);
            },
            Bit::Zero => {},
        }
        count = count + 1;
    }
    out
}

/// The bytes that the first `k` bits mark as used, sixteen bits for every region.
pub open spec fn symbols_below(regions: Seq<u8>, input: Seq<Bit>, k: int) -> Seq<u8>
    decreases k,
{
    if k <= 0 {
        Seq::empty()
    } else if input[k - 1] == Bit::One {
        symbols_below(regions, input, k - 1).push((regions[(k - 1) / 16] * 16 + (k - 1) % 16) as u8)
    } else {
        symbols_below(regions, input, k - 1)
    }
}

/// The number of bits that are looked at: sixteen for every region, as far as there
/// are bits.
pub open spec fn detail_count(regions: Seq<u8>, input: Seq<Bit>) -> int {
    if 16 * regions.len() <= input.len() {
        16 * regions.len() as int
    } else {
        input.len() as int
    }
}

/// No more bytes are marked than there are bits.
pub proof fn lemma_symbols_below_len(regions: Seq<u8>, input: Seq<Bit>, k: int)
    requires
        0 <= k,
    ensures
        symbols_below(regions, input, k).len() <= k,
    decreases k,
{
    if k > 0 {
        lemma_symbols_below_len(regions, input, k - 1);
    }
}

/// Lists the bytes that are in use, from the regions in use and sixteen bits for each
/// of them.
pub fn get_used_symbols_from_regions(regions: &[u8], input: Vec<Bit>) -> (out: Vec<u8>)
    requires
        forall|r: int| 0 <= r < regions@.len() ==> #[trigger] regions@[r] < 16,
        regions@.len() <= 16,
    ensures
        out@ == symbols_below(regions@, input@, detail_count(regions@, input@)),
{
    let mut out: Vec<u8> = Vec::new();
    let total: usize = if 16 * regions.len() <= input.len() {
        16 * regions.len()
    } else {
        input.len()
    };
    let mut k: usize = 0;
    while k < total
        invariant
            k <= total,
            total <= 16 * regions@.len(),
            total <= input@.len(),
            regions@.len() <= 16,
            forall|r: int| 0 <= r < regions@.len() ==> #[trigger] regions@[r] < 16,
            out@ == symbols_below(regions@, input@, k as int),
        decreases total - k,
    {
        match input[k] {
            Bit::One => {
                let region = regions[k / 16];
                out.push(region * 16 + (k % 16) as u8);
            },
            Bit::Zero => {},
        }
        k = k + 1;
    }
    out
}

/// What reading the used bytes from `bits` gives: the bytes and the position after
/// them, or the reason for which they cannot be read.
pub open spec fn parse_symbol_table(bits: Seq<Bit>) -> Result<(Seq<u8>, int), DecodeError> {
    if bits.len() < 16 {
        Err(DecodeError::Io)
    } else {
        let regions = ones_below(bits.take(16), 16);
        let need = 16 * regions.len() as int;
        if bits.len() < 16 + need {
            Err(DecodeError::Io)
        } else {
            Ok((symbols_below(regions, bits.subrange(16, 16 + need), need), 16 + need))
        }
    }
}

/// Reads which bytes are in use.
pub fn read_symbol_table<R: BitReader>(reader: &mut R) -> (r: Result<Vec<u8>, DecodeError>)
    requires
        old(reader).inv(),
    ensures
        final(reader).inv(),
        match parse_symbol_table(old(reader).remaining()) {
            Ok((symbols, position)) => r is Ok && r.unwrap()@ == symbols && final(reader).remaining() == old(
                reader,
            ).remaining().skip(position),
            Err(e) => r == Err::<Vec<u8>, DecodeError>(e),
        },
{
    let ghost bits = reader.remaining();
    let index = match reader.read_bits(16) {
        Ok(index) => index,
        Err(_) => {
            return Err(DecodeError::Io);
        },
    };
    let used_regions = get_used_regions(index.as_slice());
    proof {
        lemma_ones_below(index@, 16);
    }
    let regions = match reader.read_bits(16 * used_regions.len()) {
        Ok(regions) => regions,
        Err(_) => {
            return Err(DecodeError::Io);
        },
    };
    proof {
        let need = 16 * used_regions@.len() as int;
        assert(regions@ =~= bits.subrange(16, 16 + need));
        assert(bits.skip(16).skip(need) =~= bits.skip(16 + need));
    }
    Ok(get_used_symbols_from_regions(used_regions.as_slice(), regions))
}

} // verus!
