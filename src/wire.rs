use vstd::prelude::*;

verus! {

/// The four little-endian bytes of `v`.
pub open spec fn u32_le(v: u32) -> Seq<u8> {
    seq![
        (v % 0x100) as u8,
        ((v / 0x100) % 0x100) as u8,
        ((v / 0x1_0000) % 0x100) as u8,
        (v / 0x100_0000) as u8,
    ]
}

/// The number whose little-endian bytes are the first four of `b`.
pub open spec fn le_u32(b: Seq<u8>) -> u32
    recommends
        b.len() >= 4,
{
    (b[0] as int + b[1] as int * 0x100 + b[2] as int * 0x1_0000 + b[3] as int * 0x100_0000) as u32
}

/// The eight little-endian bytes of `v`.
pub open spec fn u64_le(v: u64) -> Seq<u8> {
    u32_le((v % 0x1_0000_0000) as u32) + u32_le((v / 0x1_0000_0000) as u32)
}

/// The number whose little-endian bytes are the first eight of `b`.
pub open spec fn le_u64(b: Seq<u8>) -> u64
    recommends
        b.len() >= 8,
{
    (le_u32(b) as int + le_u32(b.subrange(4, 8)) as int * 0x1_0000_0000) as u64
}

pub open spec fn end_of_data_msg() -> Seq<char> {
    "failed to fill whole buffer"@
}

pub proof fn lemma_u32_round_trip(v: u32)
    ensures
        u32_le(v).len() == 4,
        le_u32(u32_le(v)) == v,
{
    let b = u32_le(v);
    assert(b[0] as int == v % 0x100);
    assert(b[1] as int == (v / 0x100) % 0x100);
    assert(b[2] as int == (v / 0x1_0000) % 0x100);
    assert(b[3] as int == v / 0x100_0000);
}

/// Appends the little-endian bytes of `value`.
pub fn write_u32(out: &mut Vec<u8>, value: u32)
    ensures
        final(out)@ == old(out)@ + u32_le(value),
{
    out.push((value % 0x100) as u8);
    out.push(((value / 0x100) % 0x100) as u8);
    out.push(((value / 0x1_0000) % 0x100) as u8);
    out.push((value / 0x100_0000) as u8);
    assert(final(out)@ =~= old(out)@ + u32_le(value));
}

/// Reads a little-endian `u32` at `*pos` and moves `*pos` past it; fails
/// when fewer than four bytes remain.
pub fn read_u32(data: &[u8], pos: &mut usize) -> (r: Result<u32, String>)
    requires
        *old(pos) <= data@.len(),
    ensures
        old(pos) + 4 <= data@.len() ==> r == Ok::<u32, String>(le_u32(data@.subrange(*old(pos) as int, data@.len() as int)))
            && *final(pos) == *old(pos) + 4,
        *old(pos) + 4 > data@.len() ==> (r matches Err(e) && e@ == end_of_data_msg()) && *final(pos) == *old(pos),
{
    if data.len() - *pos < 4 {
        return Err("failed to fill whole buffer".to_string());
    }
    let p = *pos;
    let v = data[p] as u32 + data[p + 1] as u32 * 0x100 + data[p + 2] as u32 * 0x1_0000
        + data[p + 3] as u32 * 0x100_0000;
    *pos = p + 4;
    Ok(v)
}

/// Appends the little-endian bytes of `value`.
pub fn write_u64(out: &mut Vec<u8>, value: u64)
    ensures
        final(out)@ == old(out)@ + u64_le(value),
{
    write_u32(out, (value % 0x1_0000_0000) as u32);
    write_u32(out, (value / 0x1_0000_0000) as u32);
    assert(final(out)@ =~= old(out)@ + u64_le(value));
}

/// Reads a little-endian `u64` at `*pos` and moves `*pos` past it; fails
/// when fewer than eight bytes remain.
pub fn read_u64(data: &[u8], pos: &mut usize) -> (r: Result<u64, String>)
    requires
        *old(pos) <= data@.len(),
    ensures
        old(pos) + 8 <= data@.len() ==> r == Ok::<u64, String>(le_u64(data@.subrange(*old(pos) as int, data@.len() as int)))
            && *final(pos) == *old(pos) + 8,
        *old(pos) + 8 > data@.len() ==> (r matches Err(e) && e@ == end_of_data_msg()) && *final(pos) == *old(pos),
{
    if data.len() - *pos < 8 {
        return Err("failed to fill whole buffer".to_string());
    }
    let at0 = *pos;
    let lo = read_u32(data, pos);
    let hi = read_u32(data, pos);
    match (lo, hi) {
        (Ok(lo), Ok(hi)) => {
            proof {
                let rest = data@.subrange(at0 as int, data@.len() as int);
                assert(data@.subrange(at0 + 4, data@.len() as int).subrange(0, 4) =~= rest.subrange(4, 8));
            }
            Ok(lo as u64 + hi as u64 * 0x1_0000_0000)
        },
        _ => Err("failed to fill whole buffer".to_string()),
    }
}

} // verus!
