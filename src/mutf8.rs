use vstd::prelude::*;

verus! {

pub open spec fn is_continuation(x: u8) -> bool {
    0x80 <= x < 0xC0
}

/// Prefix `p` to a decoding that may have failed.
pub open spec fn prefixed(p: Seq<u16>, o: Option<Seq<u16>>) -> Option<Seq<u16>> {
    match o {
        Some(t) => Some(p + t),
        None => None,
    }
}

/// The UTF-16 code units that a modified-UTF-8 byte string encodes, or
/// `None` where it is malformed. A zero byte never stands for itself (NUL is
/// written `C0 80`), and characters beyond the basic plane arrive as two
/// three-byte surrogate halves.
pub open spec fn mutf8_units(b: Seq<u8>) -> Option<Seq<u16>>
    decreases b.len(),
{
    if b.len() == 0 {
        Some(Seq::empty())
    } else if 0 < b[0] < 0x80 {
        prefixed(seq![b[0] as u16], mutf8_units(b.subrange(1, b.len() as int)))
    } else if 0xC0 <= b[0] < 0xE0 && b.len() >= 2 && is_continuation(b[1]) {
        let u = (b[0] - 0xC0) * 64 + (b[1] - 0x80);
        prefixed(seq![u as u16], mutf8_units(b.subrange(2, b.len() as int)))
    } else if 0xE0 <= b[0] < 0xF0 && b.len() >= 3 && is_continuation(b[1]) && is_continuation(
        b[2],
    ) {
        let u = (b[0] - 0xE0) * 4096 + (b[1] - 0x80) * 64 + (b[2] - 0x80);
        prefixed(seq![u as u16], mutf8_units(b.subrange(3, b.len() as int)))
    } else {
        None
    }
}

pub open spec fn is_high_surrogate(u: u16) -> bool {
    0xD800 <= u < 0xDC00
}

pub open spec fn is_low_surrogate(u: u16) -> bool {
    0xDC00 <= u < 0xE000
}

/// The scalar values that well-formed UTF-16 encodes, or `None` where a
/// surrogate stands unpaired.
pub open spec fn utf16_scalars(u: Seq<u16>) -> Option<Seq<u32>>
    decreases u.len(),
{
    if u.len() == 0 {
        Some(Seq::empty())
    } else if is_high_surrogate(u[0]) {
        if u.len() >= 2 && is_low_surrogate(u[1]) {
            let c = 0x10000 + (u[0] - 0xD800) * 1024 + (u[1] - 0xDC00);
            match utf16_scalars(u.subrange(2, u.len() as int)) {
                Some(t) => Some(seq![c as u32] + t),
                None => None,
            }
        } else {
            None
        }
    } else if is_low_surrogate(u[0]) {
        None
    } else {
        match utf16_scalars(u.subrange(1, u.len() as int)) {
            Some(t) => Some(seq![u[0] as u32] + t),
            None => None,
        }
    }
}

pub open spec fn scalars_of(s: Seq<char>) -> Seq<u32> {
    s.map_values(|c: char| c as u32)
}

/// Relies on `String::from_utf16`: it fails exactly where the units hold an
/// unpaired surrogate, and otherwise yields the characters they encode.
#[verifier::external_body]
pub(crate) fn from_utf16(units: &[u16]) -> (r: Option<String>)
    ensures
        r is Some <==> utf16_scalars(units@) is Some,
        r is Some ==> scalars_of(r->0@) == utf16_scalars(units@)->0,
{
    String::from_utf16(units).ok()
}

/// Decodes modified UTF-8 into UTF-16 code units.
pub fn decode_mutf8(b: &[u8]) -> (r: Option<Vec<u16>>)
    ensures
        r is Some <==> mutf8_units(b@) is Some,
        r is Some ==> r->0@ == mutf8_units(b@)->0,
{
    let mut out: Vec<u16> = Vec::new();
    let mut i: usize = 0;
    let n = b.len();
    assert(b@.subrange(0, n as int) =~= b@);
    while i < n
        invariant
            n == b@.len(),
            i <= n,
            mutf8_units(b@) == prefixed(out@, mutf8_units(b@.subrange(i as int, n as int))),
        decreases n - i,
    {
        let rest = Ghost(b@.subrange(i as int, n as int));
        let b0 = b[i];
        if 0 < b0 && b0 < 0x80 {
            assert(rest@.subrange(1, rest@.len() as int) =~= b@.subrange(i + 1, n as int));
            proof {
                let o = mutf8_units(b@.subrange(i + 1, n as int));
                assert(out@ + (seq![b0 as u16] + o->0) =~= out@.push(b0 as u16) + o->0);
            }
            out.push(b0 as u16);
            i = i + 1;
        } else if 0xC0 <= b0 && b0 < 0xE0 && n - i >= 2 && 0x80 <= b[i + 1] && b[i + 1] < 0xC0 {
            let u = ((b0 - 0xC0) as u16) * 64 + ((b[i + 1] - 0x80) as u16);
            assert(rest@.subrange(2, rest@.len() as int) =~= b@.subrange(i + 2, n as int));
            proof {
                let o = mutf8_units(b@.subrange(i + 2, n as int));
                assert(out@ + (seq![u] + o->0) =~= out@.push(u) + o->0);
            }
            out.push(u);
            i = i + 2;
        } else if 0xE0 <= b0 && b0 < 0xF0 && n - i >= 3 && 0x80 <= b[i + 1] && b[i + 1] < 0xC0
            && 0x80 <= b[i + 2] && b[i + 2] < 0xC0 {
            let u = ((b0 - 0xE0) as u16) * 4096 + ((b[i + 1] - 0x80) as u16) * 64 + ((b[i + 2]
                - 0x80) as u16);
            assert(rest@.subrange(3, rest@.len() as int) =~= b@.subrange(i + 3, n as int));
            proof {
                let o = mutf8_units(b@.subrange(i + 3, n as int));
                assert(out@ + (seq![u] + o->0) =~= out@.push(u) + o->0);
            }
            out.push(u);
            i = i + 3;
        } else {
            return None;
        }
    }
    assert(out@ + Seq::<u16>::empty() =~= out@);
    Some(out)
}

} // verus!
