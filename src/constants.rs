use vstd::prelude::*;
use crate::bytes::{be16, be32, be64, read_u1, read_u2, read_u4, read_u8};
use crate::error::{ConstantKind, Error};
use crate::mutf8::{decode_mutf8, from_utf16, mutf8_units, scalars_of, utf16_scalars};

verus! {

/// One entry of a class file's constant pool. Floating-point values are
/// kept as their IEEE 754 bit patterns; Utf8 entries as their raw
/// modified-UTF-8 bytes, decoded on access.
#[allow(inconsistent_fields)]
#[derive(Clone, Debug)]
pub enum Constant {
    Utf8(Vec<u8>),
    Integer(i32),
    Float { bits: u32 },
    Long(i64),
    Double { bits: u64 },
    Class { name_index: u16 },
    String { string_index: u16 },
    Fieldref { class_index: u16, name_and_type_index: u16 },
    Methodref { class_index: u16, name_and_type_index: u16 },
    InterfaceMethodref { class_index: u16, name_and_type_index: u16 },
    NameAndType { name_index: u16, descriptor_index: u16 },
    MethodHandle { reference_kind: u8, reference_index: u16 },
    MethodType { descriptor_index: u16 },
    Dynamic { bootstrap_method_attr_index: u16, name_and_type_index: u16 },
    InvokeDynamic { bootstrap_method_attr_index: u16, name_and_type_index: u16 },
    Module { name_index: u16 },
    Package { name_index: u16 },
}

pub open spec fn kind_spec(c: Constant) -> ConstantKind {
    match c {
        Constant::Utf8(_) => ConstantKind::Utf8,
        Constant::Integer(_) => ConstantKind::Integer,
        Constant::Float { .. } => ConstantKind::Float,
        Constant::Long(_) => ConstantKind::Long,
        Constant::Double { .. } => ConstantKind::Double,
        Constant::Class { .. } => ConstantKind::Class,
        Constant::String { .. } => ConstantKind::String,
        Constant::Fieldref { .. } => ConstantKind::Fieldref,
        Constant::Methodref { .. } => ConstantKind::Methodref,
        Constant::InterfaceMethodref { .. } => ConstantKind::InterfaceMethodref,
        Constant::NameAndType { .. } => ConstantKind::NameAndType,
        Constant::MethodHandle { .. } => ConstantKind::MethodHandle,
        Constant::MethodType { .. } => ConstantKind::MethodType,
        Constant::Dynamic { .. } => ConstantKind::Dynamic,
        Constant::InvokeDynamic { .. } => ConstantKind::InvokeDynamic,
        Constant::Module { .. } => ConstantKind::Module,
        Constant::Package { .. } => ConstantKind::Package,
    }
}

/// Whether an entry takes two pool slots.
pub open spec fn is_wide(c: Constant) -> bool {
    c is Long || c is Double
}

impl Constant {
    pub fn kind(&self) -> (k: ConstantKind)
        ensures
            k == kind_spec(*self),
    {
        match self {
            Constant::Utf8(_) => ConstantKind::Utf8,
            Constant::Integer(_) => ConstantKind::Integer,
            Constant::Float { .. } => ConstantKind::Float,
            Constant::Long(_) => ConstantKind::Long,
            Constant::Double { .. } => ConstantKind::Double,
            Constant::Class { .. } => ConstantKind::Class,
            Constant::String { .. } => ConstantKind::String,
            Constant::Fieldref { .. } => ConstantKind::Fieldref,
            Constant::Methodref { .. } => ConstantKind::Methodref,
            Constant::InterfaceMethodref { .. } => ConstantKind::InterfaceMethodref,
            Constant::NameAndType { .. } => ConstantKind::NameAndType,
            Constant::MethodHandle { .. } => ConstantKind::MethodHandle,
            Constant::MethodType { .. } => ConstantKind::MethodType,
            Constant::Dynamic { .. } => ConstantKind::Dynamic,
            Constant::InvokeDynamic { .. } => ConstantKind::InvokeDynamic,
            Constant::Module { .. } => ConstantKind::Module,
            Constant::Package { .. } => ConstantKind::Package,
        }
    }
}

/// Total bytes of the entry whose tag byte is at `p`, where the tag is known
/// and the bytes reach far enough to tell.
pub open spec fn entry_size(b: Seq<u8>, p: int) -> int {
    let t = b[p];
    if t == 1 {
        3 + be16(b, p + 1)
    } else if t == 3 || t == 4 || t == 9 || t == 10 || t == 11 || t == 12 || t == 17 || t == 18 {
        5
    } else if t == 5 || t == 6 {
        9
    } else if t == 15 {
        4
    } else {
        3
    }
}

pub open spec fn known_tag(t: u8) -> bool {
    t == 1 || (3 <= t <= 12) || (15 <= t <= 20)
}

/// Whether a constant-pool entry can be read at `p`.
pub open spec fn entry_fits(b: Seq<u8>, p: int) -> bool {
    &&& 0 <= p < b.len()
    &&& known_tag(b[p])
    &&& (b[p] == 1 ==> p + 3 <= b.len())
    &&& p + entry_size(b, p) <= b.len()
}

/// `c` is the entry whose tag byte is at `p`.
pub open spec fn entry_is(b: Seq<u8>, p: int, c: Constant) -> bool {
    let t = b[p];
    match c {
        Constant::Utf8(raw) => t == 1 && raw@ == b.subrange(p + 3, p + 3 + be16(b, p + 1)),
        Constant::Integer(v) => t == 3 && v as u32 as int == be32(b, p + 1),
        Constant::Float { bits } => t == 4 && bits as int == be32(b, p + 1),
        Constant::Long(v) => t == 5 && v as u64 as int == be64(b, p + 1),
        Constant::Double { bits } => t == 6 && bits as int == be64(b, p + 1),
        Constant::Class { name_index } => t == 7 && name_index as int == be16(b, p + 1),
        Constant::String { string_index } => t == 8 && string_index as int == be16(b, p + 1),
        Constant::Fieldref { class_index, name_and_type_index } => t == 9 && class_index as int
            == be16(b, p + 1) && name_and_type_index as int == be16(b, p + 3),
        Constant::Methodref { class_index, name_and_type_index } => t == 10 && class_index as int
            == be16(b, p + 1) && name_and_type_index as int == be16(b, p + 3),
        Constant::InterfaceMethodref { class_index, name_and_type_index } => t == 11
            && class_index as int == be16(b, p + 1) && name_and_type_index as int == be16(
            b,
            p + 3,
        ),
        Constant::NameAndType { name_index, descriptor_index } => t == 12 && name_index as int
            == be16(b, p + 1) && descriptor_index as int == be16(b, p + 3),
        Constant::MethodHandle { reference_kind, reference_index } => t == 15 && reference_kind
            == b[p + 1] && reference_index as int == be16(b, p + 2),
        Constant::MethodType { descriptor_index } => t == 16 && descriptor_index as int == be16(
            b,
            p + 1,
        ),
        Constant::Dynamic { bootstrap_method_attr_index, name_and_type_index } => t == 17
            && bootstrap_method_attr_index as int == be16(b, p + 1) && name_and_type_index as int
            == be16(b, p + 3),
        Constant::InvokeDynamic { bootstrap_method_attr_index, name_and_type_index } => t == 18
            && bootstrap_method_attr_index as int == be16(b, p + 1) && name_and_type_index as int
            == be16(b, p + 3),
        Constant::Module { name_index } => t == 19 && name_index as int == be16(b, p + 1),
        Constant::Package { name_index } => t == 20 && name_index as int == be16(b, p + 1),
    }
}

/// Reads the constant-pool entry whose tag byte is at `p`, returning it and
/// the position just past it.
pub fn read_constant(b: &[u8], p: usize) -> (r: Result<(Constant, usize), Error>)
    ensures
        r is Ok <==> entry_fits(b@, p as int),
        r matches Ok((c, n)) ==> entry_is(b@, p as int, c) && n == p + entry_size(b@, p as int),
        r matches Err(e) ==> (e == Error::Malformed <==> p < b@.len() && !known_tag(b@[p as int])),
        r matches Err(e) ==> e == Error::Malformed || e == Error::UnexpectedEof,
{
    let t = match read_u1(b, p) {
        Some(t) => t,
        None => return Err(Error::UnexpectedEof),
    };
    if !(t == 1 || (3 <= t && t <= 12) || (15 <= t && t <= 20)) {
        return Err(Error::Malformed);
    }
    let n = b.len();
    assert(p < n);
    let q = p + 1;
    if t == 1 {
        let len = match read_u2(b, q) {
            Some(v) => v as usize,
            None => return Err(Error::UnexpectedEof),
        };
        if b.len() - (q + 2) < len {
            return Err(Error::UnexpectedEof);
        }
        let mut raw: Vec<u8> = Vec::new();
        raw.extend_from_slice(&b[q + 2..q + 2 + len]);
        proof {
            assert(raw@ =~= b@.subrange(p + 3, p + 3 + be16(b@, p + 1)));
        }
        return Ok((Constant::Utf8(raw), q + 2 + len));
    }
    if t == 5 || t == 6 {
        let v = match read_u8(b, q) {
            Some(v) => v,
            None => return Err(Error::UnexpectedEof),
        };
        assert((#[verifier::truncate] (v as i64)) as u64 == v) by (bit_vector);
        let c = if t == 5 {
            Constant::Long(#[verifier::truncate] (v as i64))
        } else {
            Constant::Double { bits: v }
        };
        return Ok((c, q + 8));
    }
    if t == 3 || t == 4 {
        let v = match read_u4(b, q) {
            Some(v) => v,
            None => return Err(Error::UnexpectedEof),
        };
        assert((#[verifier::truncate] (v as i32)) as u32 == v) by (bit_vector);
        let c = if t == 3 {
            Constant::Integer(#[verifier::truncate] (v as i32))
        } else {
            Constant::Float { bits: v }
        };
        return Ok((c, q + 4));
    }
    if t == 15 {
        let k = match read_u1(b, q) {
            Some(v) => v,
            None => return Err(Error::UnexpectedEof),
        };
        let i = match read_u2(b, q + 1) {
            Some(v) => v,
            None => return Err(Error::UnexpectedEof),
        };
        return Ok((Constant::MethodHandle { reference_kind: k, reference_index: i }, q + 3));
    }
    let x = match read_u2(b, q) {
        Some(v) => v,
        None => return Err(Error::UnexpectedEof),
    };
    assert(q + 2 <= n);
    if t == 7 || t == 8 || t == 16 || t == 19 || t == 20 {
        let c = if t == 7 {
            Constant::Class { name_index: x }
        } else if t == 8 {
            Constant::String { string_index: x }
        } else if t == 16 {
            Constant::MethodType { descriptor_index: x }
        } else if t == 19 {
            Constant::Module { name_index: x }
        } else {
            Constant::Package { name_index: x }
        };
        return Ok((c, q + 2));
    }
    let y = match read_u2(b, q + 2) {
        Some(v) => v,
        None => return Err(Error::UnexpectedEof),
    };
    let c = if t == 9 {
        Constant::Fieldref { class_index: x, name_and_type_index: y }
    } else if t == 10 {
        Constant::Methodref { class_index: x, name_and_type_index: y }
    } else if t == 11 {
        Constant::InterfaceMethodref { class_index: x, name_and_type_index: y }
    } else if t == 12 {
        Constant::NameAndType { name_index: x, descriptor_index: y }
    } else if t == 17 {
        Constant::Dynamic { bootstrap_method_attr_index: x, name_and_type_index: y }
    } else {
        Constant::InvokeDynamic { bootstrap_method_attr_index: x, name_and_type_index: y }
    };
    Ok((c, q + 4))
}

/// The characters, as scalar values, that a Utf8 entry's raw bytes encode,
/// or `None` where they are not valid modified UTF-8 of well-formed text.
pub open spec fn text_of(raw: Seq<u8>) -> Option<Seq<u32>> {
    match mutf8_units(raw) {
        Some(u) => utf16_scalars(u),
        None => None,
    }
}

/// Where the entries for slots `i..count` end when the one for slot `i`
/// starts at `pos`, or `None` where one of them cannot be read. A Long or
/// Double takes two slots.
pub open spec fn pool_walk(b: Seq<u8>, pos: int, i: int, count: int) -> Option<int>
    decreases count - i,
{
    if i >= count {
        Some(pos)
    } else if !entry_fits(b, pos) {
        None
    } else {
        pool_walk(
            b,
            pos + entry_size(b, pos),
            if (b[pos] == 5 || b[pos] == 6) && i + 2 <= count {
                i + 2
            } else {
                i + 1
            },
            count,
        )
    }
}

/// Where the entry for slot `t` starts, walking from slot `i` at `pos`;
/// `None` for the slot after a Long or Double, for slots out of range, and
/// where an earlier entry cannot be read.
pub open spec fn slot_start(b: Seq<u8>, pos: int, i: int, count: int, t: int) -> Option<int>
    decreases count - i,
{
    if i >= count || !entry_fits(b, pos) {
        None
    } else if i == t {
        Some(pos)
    } else {
        slot_start(
            b,
            pos + entry_size(b, pos),
            if (b[pos] == 5 || b[pos] == 6) && i + 2 <= count {
                i + 2
            } else {
                i + 1
            },
            count,
            t,
        )
    }
}

pub proof fn lemma_slot_start_passed(b: Seq<u8>, pos: int, i: int, count: int, t: int)
    requires
        t < i,
    ensures
        slot_start(b, pos, i, count, t) is None,
    decreases count - i,
{
    if i < count && entry_fits(b, pos) {
        let j = if (b[pos] == 5 || b[pos] == 6) && i + 2 <= count {
            i + 2
        } else {
            i + 1
        };
        lemma_slot_start_passed(b, pos + entry_size(b, pos), j, count, t);
    }
}

/// Slot `t` of `slots` holds what the bytes of the pool whose count stands
/// at `p` give it.
pub open spec fn slot_matches(b: Seq<u8>, p: int, slots: Seq<Option<Constant>>, count: int, t: int) -> bool {
    match slots[t] {
        Some(c) => slot_start(b, p + 2, 1, count, t) is Some && entry_is(
            b,
            slot_start(b, p + 2, 1, count, t)->0,
            c,
        ),
        None => slot_start(b, p + 2, 1, count, t) is None,
    }
}

/// Where the constant pool whose count stands at `p` ends, or `None`.
pub open spec fn pool_end(b: Seq<u8>, p: int) -> Option<int> {
    if p + 2 > b.len() || be16(b, p) == 0 {
        None
    } else {
        pool_walk(b, p + 2, 1, be16(b, p))
    }
}

/// A class file's constant pool: slot `i` holds entry `i`; slot 0 and the
/// slot after each Long or Double hold nothing.
#[derive(Debug)]
pub struct Constants {
    pub slots: Vec<Option<Constant>>,
}

impl Constants {
    pub open spec fn wf(&self) -> bool {
        wf_slots(self.slots@)
    }

    /// The number of slots, as the class file's `constant_pool_count`.
    pub open spec fn count(&self) -> int {
        self.slots@.len() as int
    }

    /// What `get` yields for `index`.
    pub open spec fn lookup(&self, index: u16) -> Result<Constant, Error> {
        if (index as int) < self.count() && self.slots@[index as int] is Some {
            Ok(self.slots@[index as int]->0)
        } else {
            Err(Error::OutOfRange { index })
        }
    }

    /// What `get_utf8` yields for `index`: the entry's text as scalar values.
    pub open spec fn utf8_lookup(&self, index: u16) -> Result<Seq<u32>, Error> {
        match self.lookup(index) {
            Ok(Constant::Utf8(raw)) => match text_of(raw@) {
                Some(t) => Ok(t),
                None => Err(Error::Malformed),
            },
            Ok(c) => Err(Error::WrongKind { index, found: kind_spec(c) }),
            Err(e) => Err(e),
        }
    }

    /// What `get_utf8_units` yields for `index`: the entry's UTF-16 units.
    pub open spec fn units_lookup(&self, index: u16) -> Result<Seq<u16>, Error> {
        match self.lookup(index) {
            Ok(Constant::Utf8(raw)) => match mutf8_units(raw@) {
                Some(u) => Ok(u),
                None => Err(Error::Malformed),
            },
            Ok(c) => Err(Error::WrongKind { index, found: kind_spec(c) }),
            Err(e) => Err(e),
        }
    }

    /// Reads `constant_pool_count` and the entries that follow it, starting
    /// at `p`; returns the pool and the position just past it.
    #[verifier::rlimit(40)]
    pub fn read(b: &[u8], p: usize) -> (r: Result<(Constants, usize), Error>)
        ensures
            r matches Ok((pool, end)) ==> pool.wf() && p + 2 <= b@.len() && pool.count() == be16(
                b@,
                p as int,
            ) && end <= b@.len(),
            p + 2 > b@.len() ==> r == Err::<(Constants, usize), Error>(Error::UnexpectedEof),
            r is Ok <==> pool_end(b@, p as int) is Some,
            r matches Ok((pool, end)) ==> end == pool_end(b@, p as int)->0,
            r matches Err(e) ==> e == Error::UnexpectedEof || e == Error::Malformed,
            r matches Ok((pool, end)) ==> forall|t: int|
                1 <= t < pool.count() ==> slot_matches(b@, p as int, pool.slots@, pool.count(), t),
    {
        let count = match read_u2(b, p) {
            Some(v) => v as usize,
            None => return Err(Error::UnexpectedEof),
        };
        if count == 0 {
            return Err(Error::Malformed);
        }
        let n = b.len();
        let mut slots: Vec<Option<Constant>> = Vec::new();
        slots.push(None);
        assert(wf_slots(slots@)) by {
            reveal(wf_slots);
        }
        let mut pos: usize = p + 2;
        while slots.len() < count
            invariant
                1 <= slots@.len() <= count,
                count as int == be16(b@, p as int),
                wf_slots(slots@),
                slots@.len() < count ==> !ends_wide(slots@),
                p + 2 <= pos <= n,
                n == b@.len(),
                pool_end(b@, p as int) == pool_walk(b@, pos as int, slots@.len() as int, count as int),
                forall|t: int|
                    1 <= t < slots@.len() ==> slot_matches(b@, p as int, slots@, count as int, t),
                forall|t: int|
                    t >= slots@.len() ==> #[trigger] slot_start(b@, p + 2, 1, count as int, t)
                        == slot_start(b@, pos as int, slots@.len() as int, count as int, t),
            decreases count - slots@.len(),
        {
            let ghost k = slots@.len() as int;
            let ghost s0 = slots@;
            let next = read_slot(b, pos, &mut slots, count)?;
            proof {
                let k2 = slots@.len() as int;
                assert forall|t: int| 1 <= t < k2 implies slot_matches(b@, p as int, slots@, count as int, t) by {
                    if t < k {
                        assert(slots@[t] == s0[t]);
                        assert(slot_matches(b@, p as int, s0, count as int, t));
                    } else if t == k {
                        assert(slot_start(b@, pos as int, k, count as int, k) == Some(pos as int));
                    } else {
                        lemma_slot_start_passed(b@, next as int, k2, count as int, t);
                    }
                }
                assert forall|t: int| t >= k2 implies #[trigger] slot_start(b@, p + 2, 1, count as int, t)
                    == slot_start(b@, next as int, k2, count as int, t) by {
                    assert(slot_start(b@, p + 2, 1, count as int, t) == slot_start(b@, pos as int, k, count as int, t));
                }
            }
            pos = next;
        }
        Ok((Constants { slots }, pos))
    }

    /// The entry at `index`, which must be in `[1, count)` and not the slot
    /// after a Long or Double.
    pub fn get(&self, index: u16) -> (r: Result<&Constant, Error>)
        ensures
            r matches Ok(c) ==> self.lookup(index) == Ok::<Constant, Error>(*c),
            r matches Err(e) ==> self.lookup(index) == Err::<Constant, Error>(e),
    {
        let i = index as usize;
        if i >= self.slots.len() {
            return Err(Error::OutOfRange { index });
        }
        match &self.slots[i] {
            Some(c) => Ok(c),
            None => Err(Error::OutOfRange { index }),
        }
    }

    /// The UTF-16 units of the Utf8 entry at `index`.
    pub fn get_utf8_units(&self, index: u16) -> (r: Result<Vec<u16>, Error>)
        ensures
            r matches Ok(u) ==> self.units_lookup(index) == Ok::<Seq<u16>, Error>(u@),
            r matches Err(e) ==> self.units_lookup(index) == Err::<Seq<u16>, Error>(e),
    {
        let c = self.get(index)?;
        match c {
            Constant::Utf8(raw) => match decode_mutf8(raw.as_slice()) {
                Some(u) => Ok(u),
                None => Err(Error::Malformed),
            },
            _ => Err(Error::WrongKind { index, found: c.kind() }),
        }
    }

    /// The text of the Utf8 entry at `index`.
    pub fn get_utf8(&self, index: u16) -> (r: Result<String, Error>)
        ensures
            r matches Ok(s) ==> self.utf8_lookup(index) == Ok::<Seq<u32>, Error>(scalars_of(s@)),
            r matches Err(e) ==> self.utf8_lookup(index) == Err::<Seq<u32>, Error>(e),
    {
        let u = self.get_utf8_units(index)?;
        match from_utf16(u.as_slice()) {
            Some(s) => Ok(s),
            None => Err(Error::Malformed),
        }
    }

    /// Like `get_utf8`, but text that does not decode gives `Ok(None)`
    /// rather than an error.
    pub fn get_utf8_possibly_invalid(&self, index: u16) -> (r: Result<Option<String>, Error>)
        ensures
            r matches Ok(Some(s)) ==> self.utf8_lookup(index) == Ok::<Seq<u32>, Error>(
                scalars_of(s@),
            ),
            r matches Ok(None) ==> self.utf8_lookup(index) == Err::<Seq<u32>, Error>(
                Error::Malformed,
            ),
            r matches Err(e) ==> self.utf8_lookup(index) == Err::<Seq<u32>, Error>(e) && e
                != Error::Malformed,
    {
        match self.get_utf8(index) {
            Ok(s) => Ok(Some(s)),
            Err(Error::Malformed) => Ok(None),
            Err(e) => Err(e),
        }
    }
}

/// Reads the entry at `pos` into the next slot; returns where it ends.
#[verifier::rlimit(30)]
fn read_slot(b: &[u8], pos: usize, slots: &mut Vec<Option<Constant>>, count: usize) -> (r: Result<
    usize,
    Error,
>)
    requires
        wf_slots(old(slots)@),
        !ends_wide(old(slots)@),
        old(slots)@.len() < count,
        pos <= b@.len(),
    ensures
        r matches Ok(next) ==> {
            &&& wf_slots(final(slots)@)
            &&& old(slots)@.len() < final(slots)@.len() <= count
            &&& final(slots)@.len() < count ==> !ends_wide(final(slots)@)
            &&& pos < next <= b@.len()
            &&& final(slots)@.subrange(0, old(slots)@.len() as int) == old(slots)@
            &&& final(slots)@[old(slots)@.len() as int] is Some
            &&& entry_fits(b@, pos as int)
            &&& next == pos + entry_size(b@, pos as int)
            &&& entry_is(b@, pos as int, final(slots)@[old(slots)@.len() as int]->0)
            &&& final(slots)@.len() == if (b@[pos as int] == 5 || b@[pos as int] == 6) && old(slots)@.len() + 2 <= count {
                old(slots)@.len() + 2
            } else {
                old(slots)@.len() + 1
            }
            &&& final(slots)@.len() == old(slots)@.len() + 2 ==> final(slots)@[old(slots)@.len() + 1int] is None
            &&& pool_walk(b@, pos as int, old(slots)@.len() as int, count as int) == pool_walk(
                b@,
                next as int,
                final(slots)@.len() as int,
                count as int,
            )
        },
        r is Err ==> pool_walk(b@, pos as int, old(slots)@.len() as int, count as int) is None,
        r matches Err(e) ==> e == Error::UnexpectedEof || e == Error::Malformed,
{
    let (c, next) = match read_constant(b, pos) {
        Ok(x) => x,
        Err(e) => return Err(e),
    };
    let wide = match &c {
        Constant::Long(_) => true,
        Constant::Double { .. } => true,
        _ => false,
    };
    assert(wide == is_wide(c));
    assert(wide == (b@[pos as int] == 5 || b@[pos as int] == 6));
    assert(pool_walk(b@, pos as int, slots@.len() as int, count as int) == pool_walk(
        b@,
        next as int,
        slots@.len() + if wide && slots@.len() + 1 < count {
            2int
        } else {
            1int
        },
        count as int,
    ));
    push_entry(slots, c, wide, count);
    Ok(next)
}

pub open spec fn ends_wide(s: Seq<Option<Constant>>) -> bool {
    s.last() is Some && is_wide(s.last()->0)
}

/// Appends an entry, and the empty slot after it where it is wide and room
/// remains.
fn push_entry(slots: &mut Vec<Option<Constant>>, c: Constant, wide: bool, count: usize)
    requires
        wide == is_wide(c),
        wf_slots(old(slots)@),
        !ends_wide(old(slots)@),
        old(slots)@.len() < count,
    ensures
        wf_slots(final(slots)@),
        final(slots)@.len() == old(slots)@.len() + if wide && old(slots)@.len() + 1 < count {
            2int
        } else {
            1int
        },
        final(slots)@.len() < count ==> !ends_wide(final(slots)@),
        final(slots)@.subrange(0, old(slots)@.len() as int) == old(slots)@,
        final(slots)@[old(slots)@.len() as int] == Some(c),
        final(slots)@.len() == old(slots)@.len() + 2 ==> final(slots)@[old(slots)@.len() + 1int] is None,
{
    reveal(wf_slots);
    let ghost s0 = slots@;
    slots.push(Some(c));
    assert(wf_slots(slots@)) by {
        assert(slots@.len() == s0.len() + 1);
        assert forall|i: int| 1 <= i < slots@.len() && (#[trigger] slots@[i]) is None implies slots@[i
            - 1] is Some && is_wide(slots@[i - 1]->0) by {
            assert(slots@[i] == s0[i]);
            assert(slots@[i - 1] == s0[i - 1]);
        }
        assert forall|i: int|
            0 <= i < slots@.len() - 1 && (#[trigger] slots@[i]) is Some && is_wide(
                slots@[i]->0,
            ) implies slots@[i + 1] is None by {
            assert(slots@[i] == s0[i]);
            if i + 1 < s0.len() {
                assert(slots@[i + 1] == s0[i + 1]);
            }
        }
    }
    if wide && slots.len() < count {
        let ghost s1 = slots@;
        slots.push(None);
        assert(wf_slots(slots@)) by {
            assert forall|i: int| 1 <= i < slots@.len() && (#[trigger] slots@[i]) is None implies slots@[i
                - 1] is Some && is_wide(slots@[i - 1]->0) by {
                if i < s1.len() {
                    assert(slots@[i] == s1[i]);
                    assert(slots@[i - 1] == s1[i - 1]);
                }
            }
            assert forall|i: int|
                0 <= i < slots@.len() - 1 && (#[trigger] slots@[i]) is Some && is_wide(
                    slots@[i]->0,
                ) implies slots@[i + 1] is None by {
                assert(slots@[i] == s1[i]);
                if i + 1 < s1.len() {
                    assert(slots@[i + 1] == s1[i + 1]);
                }
            }
        }
    }
}

/// Slot 0 is empty; every other empty slot follows a Long or Double, and
/// every Long or Double not in the last slot is followed by an empty one.
#[verifier::opaque]
pub open spec fn wf_slots(s: Seq<Option<Constant>>) -> bool {
    &&& s.len() >= 1
    &&& s[0] is None
    &&& forall|i: int|
        1 <= i < s.len() && (#[trigger] s[i]) is None ==> s[i - 1] is Some && is_wide(
            s[i - 1]->0,
        )
    &&& forall|i: int|
        0 <= i < s.len() - 1 && (#[trigger] s[i]) is Some && is_wide(s[i]->0) ==> s[i
            + 1] is None
}

/// Index 0, an index at or past the count, and the slot right after a Long
/// or Double all fail with `OutOfRange`, for `get` and for `get_utf8`.
pub proof fn lemma_out_of_range(pool: Constants, index: u16)
    requires
        pool.wf(),
        index == 0 || index as int >= pool.count() || (1 <= index < pool.count()
            && pool.slots@[index - 1] is Some && is_wide(pool.slots@[index - 1]->0)),
    ensures
        pool.lookup(index) == Err::<Constant, Error>(Error::OutOfRange { index }),
        pool.utf8_lookup(index) == Err::<Seq<u32>, Error>(Error::OutOfRange { index }),
{
    reveal(wf_slots);
    if 1 <= index < pool.count() && pool.slots@[index - 1] is Some && is_wide(
        pool.slots@[index - 1]->0,
    ) {
        let i = index - 1;
        assert(pool.slots@[i] is Some && is_wide(pool.slots@[i]->0));
        assert(pool.slots@[i + 1] is None);
    }
}

} // verus!
