use vstd::prelude::*;

verus! {

/// Big-endian 16-bit value at `p`.
pub open spec fn be16(b: Seq<u8>, p: int) -> int {
    b[p] as int * 256 + b[p + 1] as int
}

/// Big-endian 32-bit value at `p`.
pub open spec fn be32(b: Seq<u8>, p: int) -> int {
    be16(b, p) * 65536 + be16(b, p + 2)
}

/// Big-endian 64-bit value at `p`.
pub open spec fn be64(b: Seq<u8>, p: int) -> int {
    be32(b, p) * 4294967296 + be32(b, p + 4)
}

pub fn read_u1(b: &[u8], p: usize) -> (r: Option<u8>)
    ensures
        r is Some <==> p < b@.len(),
        r is Some ==> r->0 == b@[p as int],
{
    if p < b.len() {
        Some(b[p])
    } else {
        None
    }
}

pub fn read_u2(b: &[u8], p: usize) -> (r: Option<u16>)
    ensures
        r is Some <==> p + 2 <= b@.len(),
        r is Some ==> r->0 as int == be16(b@, p as int),
{
    if p < b.len() && b.len() - p >= 2 {
        let hi = b[p] as u16;
        let lo = b[p + 1] as u16;
        Some(hi * 256 + lo)
    } else {
        None
    }
}

pub fn read_u4(b: &[u8], p: usize) -> (r: Option<u32>)
    ensures
        r is Some <==> p + 4 <= b@.len(),
        r is Some ==> r->0 as int == be32(b@, p as int),
{
    if p < b.len() && b.len() - p >= 4 {
        let hi = read_u2(b, p).unwrap() as u32;
        let lo = read_u2(b, p + 2).unwrap() as u32;
        Some(hi * 65536 + lo)
    } else {
        None
    }
}

pub fn read_u8(b: &[u8], p: usize) -> (r: Option<u64>)
    ensures
        r is Some <==> p + 8 <= b@.len(),
        r is Some ==> r->0 as int == be64(b@, p as int),
{
    if p < b.len() && b.len() - p >= 8 {
        let hi = read_u4(b, p).unwrap() as u64;
        let lo = read_u4(b, p + 4).unwrap() as u64;
        Some(hi * 4294967296 + lo)
    } else {
        None
    }
}

} // verus!
