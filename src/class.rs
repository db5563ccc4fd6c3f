use vstd::prelude::*;
use crate::attributes::{
    attribute_is, attribute_outcome, lemma_attribute_consumes_declared_length, Attribute,
};
use crate::bytes::{be16, be32, read_u2, read_u4};
use crate::constants::{entry_is, kind_spec, pool_end, slot_matches, slot_start, Constant, Constants};
use crate::error::Error;

verus! {

/// Where `k` consecutive attributes starting at `p` end, or the first error.
pub open spec fn attrs_walk(b: Seq<u8>, p: int, pool: Constants, k: nat) -> Result<int, Error>
    decreases k,
{
    if k == 0 {
        Ok(p)
    } else {
        match attrs_walk(b, p, pool, (k - 1) as nat) {
            Ok(q) => attribute_outcome(b, q, pool),
            Err(e) => Err(e),
        }
    }
}

/// Where a count-prefixed attribute list at `p` ends, or the first error.
pub open spec fn attr_list_end(b: Seq<u8>, p: int, pool: Constants) -> Result<int, Error> {
    if p + 2 > b.len() {
        Err(Error::UnexpectedEof)
    } else {
        attrs_walk(b, p + 2, pool, be16(b, p) as nat)
    }
}

/// `v` holds the attributes of the count-prefixed list at `p`.
pub open spec fn attr_list_is(b: Seq<u8>, p: int, pool: Constants, v: Seq<Attribute>) -> bool {
    &&& p + 2 <= b.len()
    &&& v.len() == be16(b, p)
    &&& forall|i: int|
        0 <= i < v.len() ==> attribute_is(
            b,
            attrs_walk(b, p + 2, pool, i as nat)->Ok_0,
            pool,
            #[trigger] v[i],
        )
}

/// Reads a 2-byte count and that many attributes.
pub fn read_attributes(b: &[u8], p: usize, pool: &Constants) -> (r: Result<
    (Vec<Attribute>, usize),
    Error,
>)
    ensures
        r matches Ok((v, end)) ==> attr_list_end(b@, p as int, *pool) == Ok::<int, Error>(
            end as int,
        ) && attr_list_is(b@, p as int, *pool, v@),
        r matches Err(e) ==> attr_list_end(b@, p as int, *pool) == Err::<int, Error>(e),
{
    let count = match read_u2(b, p) {
        Some(v) => v as usize,
        None => return Err(Error::UnexpectedEof),
    };
    let n = b.len();
    let mut v: Vec<Attribute> = Vec::new();
    let mut pos: usize = p + 2;
    while v.len() < count
        invariant
            p + 2 <= b@.len(),
            count == be16(b@, p as int),
            v@.len() <= count,
            attrs_walk(b@, p + 2, *pool, v@.len() as nat) == Ok::<int, Error>(pos as int),
            forall|i: int|
                0 <= i < v@.len() ==> attribute_is(
                    b@,
                    attrs_walk(b@, p + 2, *pool, i as nat)->Ok_0,
                    *pool,
                    #[trigger] v@[i],
                ),
        decreases count - v@.len(),
    {
        proof {
            lemma_attrs_walk_stops(b@, (p + 2) as int, *pool, (v@.len() + 1) as nat, count as nat);
        }
        let (a, end) = match Attribute::read(b, pos, pool) {
            Ok(x) => x,
            Err(e) => return Err(e),
        };
        v.push(a);
        pos = end;
    }
    Ok((v, pos))
}

/// Once a walk fails, every longer walk fails with the same error.
pub proof fn lemma_attrs_walk_stops(b: Seq<u8>, p: int, pool: Constants, k: nat, m: nat)
    requires
        k <= m,
    ensures
        attrs_walk(b, p, pool, k) is Err ==> attrs_walk(b, p, pool, m) == attrs_walk(b, p, pool, k),
    decreases m - k,
{
    if k < m {
        lemma_attrs_walk_stops(b, p, pool, k, (m - 1) as nat);
    }
}

/// A field or method: its flags, name and descriptor indices, attributes.
#[derive(Debug)]
pub struct Member {
    pub access_flags: u16,
    pub name_index: u16,
    pub descriptor_index: u16,
    pub attributes: Vec<Attribute>,
}

/// Where `k` consecutive members starting at `p` end, or the first error.
pub open spec fn members_walk(b: Seq<u8>, p: int, pool: Constants, k: nat) -> Result<int, Error>
    decreases k,
{
    if k == 0 {
        Ok(p)
    } else {
        match members_walk(b, p, pool, (k - 1) as nat) {
            Ok(q) => if q + 6 > b.len() {
                Err(Error::UnexpectedEof)
            } else {
                attr_list_end(b, q + 6, pool)
            },
            Err(e) => Err(e),
        }
    }
}

/// Member `m` is the one whose header starts at `q`.
pub open spec fn member_is(b: Seq<u8>, q: int, pool: Constants, m: Member) -> bool {
    &&& m.access_flags == be16(b, q)
    &&& m.name_index == be16(b, q + 2)
    &&& m.descriptor_index == be16(b, q + 4)
    &&& attr_list_is(b, q + 6, pool, m.attributes@)
}

/// `v` holds the members of the count-prefixed table at `p`.
pub open spec fn member_table_is(b: Seq<u8>, p: int, pool: Constants, v: Seq<Member>) -> bool {
    &&& v.len() == be16(b, p)
    &&& forall|i: int|
        0 <= i < v.len() ==> member_is(
            b,
            members_walk(b, p + 2, pool, i as nat)->Ok_0,
            pool,
            #[trigger] v[i],
        )
}

/// Where a count-prefixed member table at `p` ends, or the first error.
pub open spec fn member_table_end(b: Seq<u8>, p: int, pool: Constants) -> Result<int, Error> {
    if p + 2 > b.len() {
        Err(Error::UnexpectedEof)
    } else {
        members_walk(b, p + 2, pool, be16(b, p) as nat)
    }
}

pub proof fn lemma_members_walk_stops(b: Seq<u8>, p: int, pool: Constants, k: nat, m: nat)
    requires
        k <= m,
    ensures
        members_walk(b, p, pool, k) is Err ==> members_walk(b, p, pool, m) == members_walk(
            b,
            p,
            pool,
            k,
        ),
    decreases m - k,
{
    if k < m {
        lemma_members_walk_stops(b, p, pool, k, (m - 1) as nat);
    }
}

/// Reads a 2-byte count and that many fields or methods.
pub fn read_members(b: &[u8], p: usize, pool: &Constants) -> (r: Result<
    (Vec<Member>, usize),
    Error,
>)
    ensures
        r matches Ok((v, end)) ==> member_table_end(b@, p as int, *pool) == Ok::<int, Error>(
            end as int,
        ) && member_table_is(b@, p as int, *pool, v@),
        r matches Err(e) ==> member_table_end(b@, p as int, *pool) == Err::<int, Error>(e),
{
    let count = match read_u2(b, p) {
        Some(v) => v as usize,
        None => return Err(Error::UnexpectedEof),
    };
    let n = b.len();
    let mut v: Vec<Member> = Vec::new();
    let mut pos: usize = p + 2;
    while v.len() < count
        invariant
            p + 2 <= n,
            n == b@.len(),
            count == be16(b@, p as int),
            v@.len() <= count,
            members_walk(b@, p + 2, *pool, v@.len() as nat) == Ok::<int, Error>(pos as int),
            pos <= n,
            forall|i: int|
                0 <= i < v@.len() ==> member_is(
                    b@,
                    members_walk(b@, p + 2, *pool, i as nat)->Ok_0,
                    *pool,
                    #[trigger] v@[i],
                ),
        decreases count - v@.len(),
    {
        proof {
            lemma_members_walk_stops(b@, (p + 2) as int, *pool, (v@.len() + 1) as nat, count as nat);
        }
        if n - pos < 6 {
            return Err(Error::UnexpectedEof);
        }
        let access_flags = read_u2(b, pos).unwrap();
        let name_index = read_u2(b, pos + 2).unwrap();
        let descriptor_index = read_u2(b, pos + 4).unwrap();
        let (attributes, end) = match read_attributes(b, pos + 6, pool) {
            Ok(x) => x,
            Err(e) => return Err(e),
        };
        proof {
            lemma_attr_list_in_bounds(b@, (pos + 6) as int, *pool);
        }
        v.push(Member { access_flags, name_index, descriptor_index, attributes });
        pos = end;
    }
    Ok((v, pos))
}

/// A successful walk ends within the bytes.
pub proof fn lemma_attrs_walk_in_bounds(b: Seq<u8>, p: int, pool: Constants, k: nat)
    requires
        p <= b.len(),
        attrs_walk(b, p, pool, k) is Ok,
    ensures
        p <= attrs_walk(b, p, pool, k)->Ok_0 <= b.len(),
    decreases k,
{
    if k > 0 {
        lemma_attrs_walk_in_bounds(b, p, pool, (k - 1) as nat);
    }
}

pub proof fn lemma_attr_list_in_bounds(b: Seq<u8>, p: int, pool: Constants)
    requires
        p <= b.len(),
        attr_list_end(b, p, pool) is Ok,
    ensures
        p + 2 <= attr_list_end(b, p, pool)->Ok_0 <= b.len(),
{
    lemma_attrs_walk_in_bounds(b, p + 2, pool, be16(b, p) as nat);
}

pub const MAGIC: u32 = 0xCAFEBABE;

pub const ACC_PUBLIC: u16 = 0x0001;

/// Where the class header that follows the constant pool starts.
pub open spec fn header_start(b: Seq<u8>) -> int {
    pool_end(b, 8)->0
}

/// Where the field table starts: after the flags, this and super indices,
/// and the interface list.
pub open spec fn fields_start(b: Seq<u8>) -> int {
    header_start(b) + 8 + 2 * be16(b, header_start(b) + 6)
}

/// `c` is what the class file `b` holds.
pub open spec fn decodes_to(b: Seq<u8>, c: Class) -> bool {
    let h = header_start(b);
    let methods_at = member_table_end(b, fields_start(b), c.constants)->Ok_0;
    let attrs_at = member_table_end(b, methods_at, c.constants)->Ok_0;
    &&& 8 <= b.len() && be32(b, 0) == MAGIC
    &&& pool_end(b, 8) is Some
    &&& c.constants.wf() && c.constants.count() == be16(b, 8)
    &&& forall|t: int|
        1 <= t < c.constants.count() ==> slot_matches(b, 8, c.constants.slots@, c.constants.count(), t)
    &&& c.access_flags == be16(b, h)
    &&& c.this_class == be16(b, h + 2)
    &&& c.super_class == be16(b, h + 4)
    &&& c.interfaces@.len() == be16(b, h + 6)
    &&& forall|i: int| 0 <= i < c.interfaces@.len() ==> #[trigger] c.interfaces@[i] == be16(b, h + 8 + 2 * i)
    &&& member_table_is(b, fields_start(b), c.constants, c.fields@)
    &&& member_table_end(b, fields_start(b), c.constants) is Ok
    &&& member_table_is(b, methods_at, c.constants, c.methods@)
    &&& member_table_end(b, methods_at, c.constants) is Ok
    &&& attr_list_end(b, attrs_at, c.constants) is Ok
    &&& attr_list_is(b, attrs_at, c.constants, c.attributes@)
}

/// `pool` holds what the bytes of the constant pool at `p` give it.
pub open spec fn pool_from_bytes(b: Seq<u8>, p: int, pool: Constants) -> bool {
    &&& pool.wf()
    &&& p + 2 <= b.len()
    &&& pool.count() == be16(b, p)
    &&& forall|t: int| 1 <= t < pool.count() ==> slot_matches(b, p, pool.slots@, pool.count(), t)
}

/// The magic number, the version or the constant pool cannot be read.
pub open spec fn class_header_fails(b: Seq<u8>) -> bool {
    b.len() < 8 || be32(b, 0) != MAGIC || pool_end(b, 8) is None
}

/// What follows the constant pool cannot be read with `pool`.
pub open spec fn class_body_fails(b: Seq<u8>, pool: Constants) -> bool {
    let f = member_table_end(b, fields_start(b), pool);
    let m = member_table_end(b, f->Ok_0, pool);
    ||| header_start(b) + 8 > b.len()
    ||| fields_start(b) > b.len()
    ||| f is Err
    ||| m is Err
    ||| attr_list_end(b, m->Ok_0, pool) is Err
}

/// The decoded facts of one class file.
#[derive(Debug)]
pub struct Class {
    pub constants: Constants,
    pub access_flags: u16,
    pub this_class: u16,
    pub super_class: u16,
    pub interfaces: Vec<u16>,
    pub fields: Vec<Member>,
    pub methods: Vec<Member>,
    pub attributes: Vec<Attribute>,
}

impl Class {
    pub open spec fn is_public_spec(&self) -> bool {
        self.access_flags & ACC_PUBLIC != 0
    }

    #[verifier::when_used_as_spec(is_public_spec)]
    pub fn is_public(&self) -> (r: bool)
        ensures
            r == self.is_public_spec(),
    {
        self.access_flags & ACC_PUBLIC != 0
    }

    /// Decodes a class file.
    pub fn read(b: &[u8]) -> (r: Result<Class, Error>)
        ensures
            r matches Ok(c) ==> decodes_to(b@, c),
            r matches Err(e) ==> decode_error(e),
            r is Err ==> class_header_fails(b@) || forall|pool: Constants|
                #[trigger] pool_from_bytes(b@, 8, pool) ==> class_body_fails(b@, pool),
            b@.len() < 4 ==> r == Err::<Class, Error>(Error::UnexpectedEof),
            b@.len() >= 4 && be32(b@, 0) != MAGIC ==> r == Err::<Class, Error>(Error::Malformed),
    {
        let magic = match read_u4(b, 0) {
            Some(v) => v,
            None => return Err(Error::UnexpectedEof),
        };
        if magic != MAGIC {
            return Err(Error::Malformed);
        }
        let n = b.len();
        if n < 8 {
            return Err(Error::UnexpectedEof);
        }
        let (constants, h) = Constants::read(b, 8)?;
        assert(pool_from_bytes(b@, 8, constants));
        if n - h < 8 {
            proof { lemma_body_fails_for_all(b@, constants); }
            return Err(Error::UnexpectedEof);
        }
        let access_flags = read_u2(b, h).unwrap();
        let this_class = read_u2(b, h + 2).unwrap();
        let super_class = read_u2(b, h + 4).unwrap();
        let icount = read_u2(b, h + 6).unwrap() as usize;
        let mut interfaces: Vec<u16> = Vec::new();
        let mut pos: usize = h + 8;
        while interfaces.len() < icount
            invariant
                h + 8 <= n,
                n == b@.len(),
                4 <= n && be32(b@, 0) == MAGIC,
                h == header_start(b@),
                pool_from_bytes(b@, 8, constants),
                !class_header_fails(b@),
                icount == be16(b@, h + 6),
                interfaces@.len() <= icount,
                pos == h + 8 + 2 * interfaces@.len(),
                forall|i: int| 0 <= i < interfaces@.len() ==> #[trigger] interfaces@[i] == be16(b@, h + 8 + 2 * i),
            decreases icount - interfaces@.len(),
        {
            let x = match read_u2(b, pos) {
                Some(v) => v,
                None => {
                    proof { lemma_body_fails_for_all(b@, constants); }
                    return Err(Error::UnexpectedEof);
                },
            };
            interfaces.push(x);
            pos = pos + 2;
        }
        assert(pos == fields_start(b@));
        let (fields, methods_at) = match read_members(b, pos, &constants) {
            Ok(x) => x,
            Err(e) => {
                proof {
                    lemma_body_fails_for_all(b@, constants);
                    lemma_member_table_error(b@, pos as int, constants);
                }
                return Err(e);
            },
        };
        let (methods, attrs_at) = match read_members(b, methods_at, &constants) {
            Ok(x) => x,
            Err(e) => {
                proof {
                    lemma_body_fails_for_all(b@, constants);
                    lemma_member_table_error(b@, methods_at as int, constants);
                }
                return Err(e);
            },
        };
        let (attributes, _end) = match read_attributes(b, attrs_at, &constants) {
            Ok(x) => x,
            Err(e) => {
                proof {
                    lemma_body_fails_for_all(b@, constants);
                    lemma_attr_list_error(b@, attrs_at as int, constants);
                }
                return Err(e);
            },
        };
        Ok(
            Class {
                constants,
                access_flags,
                this_class,
                super_class,
                interfaces,
                fields,
                methods,
                attributes,
            },
        )
    }
}

/// Stream alignment: in a successful walk over attributes of any mix of
/// kinds, each attribute ends exactly its declared length past its header,
/// and the next one starts right there.
pub proof fn lemma_attribute_stream_alignment(b: Seq<u8>, p: int, pool: Constants, k: nat)
    requires
        attrs_walk(b, p, pool, k + 1) is Ok,
    ensures
        attrs_walk(b, p, pool, k) is Ok,
        ({
            let q = attrs_walk(b, p, pool, k)->Ok_0;
            attrs_walk(b, p, pool, k + 1)->Ok_0 == q + 6 + be32(b, q + 2)
        }),
{
    let q = attrs_walk(b, p, pool, k)->Ok_0;
    assert(attrs_walk(b, p, pool, k) is Ok);
    lemma_attribute_consumes_declared_length(b, q, pool);
}

/// Two entries read from the same bytes: equal, Utf8 ones up to their
/// buffers.
pub open spec fn same_entry(x: Constant, y: Constant) -> bool {
    match (x, y) {
        (Constant::Utf8(r1), Constant::Utf8(r2)) => r1@ == r2@,
        _ => x == y,
    }
}

proof fn lemma_entry_unique(b: Seq<u8>, q: int, x: Constant, y: Constant)
    requires
        entry_is(b, q, x),
        entry_is(b, q, y),
    ensures
        same_entry(x, y),
{
    match (x, y) {
        (Constant::Integer(v1), Constant::Integer(v2)) => {
            assert(v1 as u32 == v2 as u32);
            assert(v1 == v2) by (bit_vector)
                requires
                    v1 as u32 == v2 as u32,
            ;
        },
        (Constant::Long(v1), Constant::Long(v2)) => {
            assert(v1 as u64 == v2 as u64);
            assert(v1 == v2) by (bit_vector)
                requires
                    v1 as u64 == v2 as u64,
            ;
        },
        _ => {},
    }
}

proof fn lemma_pools_agree_at(b: Seq<u8>, p: int, a: Constants, c: Constants, i: u16)
    requires
        pool_from_bytes(b, p, a),
        pool_from_bytes(b, p, c),
    ensures
        a.units_lookup(i) == c.units_lookup(i),
        a.utf8_lookup(i) == c.utf8_lookup(i),
        a.lookup(i) is Ok <==> c.lookup(i) is Ok,
        a.lookup(i) is Err ==> a.lookup(i) == c.lookup(i),
        a.lookup(i) is Ok ==> same_entry(a.lookup(i)->Ok_0, c.lookup(i)->Ok_0),
{
    let t = i as int;
    if 1 <= t < a.count() {
        assert(slot_matches(b, p, a.slots@, a.count(), t));
        assert(slot_matches(b, p, c.slots@, c.count(), t));
        if a.slots@[t] is Some {
            lemma_entry_unique(b, slot_start(b, p + 2, 1, a.count(), t)->0, a.slots@[t]->0, c.slots@[t]->0);
        }
    } else if t == 0 {
        crate::constants::lemma_out_of_range(a, i);
        crate::constants::lemma_out_of_range(c, i);
    }
}

proof fn lemma_attribute_outcome_agrees(b: Seq<u8>, p: int, a: Constants, c: Constants, q: int)
    requires
        pool_from_bytes(b, p, a),
        pool_from_bytes(b, p, c),
    ensures
        attribute_outcome(b, q, a) == attribute_outcome(b, q, c),
{
    if q + 6 <= b.len() {
        lemma_pools_agree_at(b, p, a, c, be16(b, q) as u16);
        if q + 8 <= b.len() {
            let vi = be16(b, q + 6) as u16;
            lemma_pools_agree_at(b, p, a, c, vi);
            match a.lookup(vi) {
                Ok(Constant::String { string_index }) => {
                    lemma_pools_agree_at(b, p, a, c, string_index);
                },
                _ => {},
            }
        }
    }
}

proof fn lemma_attrs_walk_agrees(b: Seq<u8>, p: int, a: Constants, c: Constants, q: int, k: nat)
    requires
        pool_from_bytes(b, p, a),
        pool_from_bytes(b, p, c),
    ensures
        attrs_walk(b, q, a, k) == attrs_walk(b, q, c, k),
    decreases k,
{
    if k > 0 {
        lemma_attrs_walk_agrees(b, p, a, c, q, (k - 1) as nat);
        if attrs_walk(b, q, a, (k - 1) as nat) is Ok {
            lemma_attribute_outcome_agrees(b, p, a, c, attrs_walk(b, q, a, (k - 1) as nat)->Ok_0);
        }
    }
}

proof fn lemma_attr_list_end_agrees(b: Seq<u8>, p: int, a: Constants, c: Constants, q: int)
    requires
        pool_from_bytes(b, p, a),
        pool_from_bytes(b, p, c),
    ensures
        attr_list_end(b, q, a) == attr_list_end(b, q, c),
{
    if q + 2 <= b.len() {
        lemma_attrs_walk_agrees(b, p, a, c, q + 2, be16(b, q) as nat);
    }
}

proof fn lemma_members_walk_agrees(b: Seq<u8>, p: int, a: Constants, c: Constants, q: int, k: nat)
    requires
        pool_from_bytes(b, p, a),
        pool_from_bytes(b, p, c),
    ensures
        members_walk(b, q, a, k) == members_walk(b, q, c, k),
    decreases k,
{
    if k > 0 {
        lemma_members_walk_agrees(b, p, a, c, q, (k - 1) as nat);
        if members_walk(b, q, a, (k - 1) as nat) is Ok {
            lemma_attr_list_end_agrees(b, p, a, c, members_walk(b, q, a, (k - 1) as nat)->Ok_0 + 6);
        }
    }
}

proof fn lemma_member_table_end_agrees(b: Seq<u8>, p: int, a: Constants, c: Constants, q: int)
    requires
        pool_from_bytes(b, p, a),
        pool_from_bytes(b, p, c),
    ensures
        member_table_end(b, q, a) == member_table_end(b, q, c),
{
    if q + 2 <= b.len() {
        lemma_members_walk_agrees(b, p, a, c, q + 2, be16(b, q) as nat);
    }
}

proof fn lemma_body_fails_for_all(b: Seq<u8>, a: Constants)
    requires
        pool_from_bytes(b, 8, a),
        class_body_fails(b, a),
    ensures
        forall|pool: Constants| #[trigger] pool_from_bytes(b, 8, pool) ==> class_body_fails(b, pool),
{
    assert forall|pool: Constants| #[trigger] pool_from_bytes(b, 8, pool) implies class_body_fails(b, pool) by {
        lemma_class_body_agrees(b, a, pool);
    }
}

/// Every pool that the bytes give decides the rest of a class file alike.
pub proof fn lemma_class_body_agrees(b: Seq<u8>, a: Constants, c: Constants)
    requires
        pool_from_bytes(b, 8, a),
        pool_from_bytes(b, 8, c),
    ensures
        class_body_fails(b, a) == class_body_fails(b, c),
{
    lemma_member_table_end_agrees(b, 8, a, c, fields_start(b));
    let f = member_table_end(b, fields_start(b), a);
    if f is Ok {
        lemma_member_table_end_agrees(b, 8, a, c, f->Ok_0);
        let m = member_table_end(b, f->Ok_0, a);
        if m is Ok {
            lemma_attr_list_end_agrees(b, 8, a, c, m->Ok_0);
        }
    }
}

/// An error that decoding bytes can give: never one of the container's.
pub open spec fn decode_error(e: Error) -> bool {
    e is UnexpectedEof || e is Malformed || e is OutOfRange || e is WrongKind
        || e is StructuralMismatch
}

/// Bytes that `Class::read` decodes: the header reads, and the rest reads
/// with a pool that the bytes give.
pub open spec fn class_decodes(b: Seq<u8>) -> bool {
    !class_header_fails(b) && exists|pool: Constants|
        #[trigger] pool_from_bytes(b, 8, pool) && !class_body_fails(b, pool)
}

proof fn lemma_attribute_outcome_error(b: Seq<u8>, p: int, pool: Constants)
    ensures
        attribute_outcome(b, p, pool) matches Err(e) ==> decode_error(e),
{
}

proof fn lemma_attrs_walk_error(b: Seq<u8>, p: int, pool: Constants, k: nat)
    ensures
        attrs_walk(b, p, pool, k) matches Err(e) ==> decode_error(e),
    decreases k,
{
    if k > 0 {
        lemma_attrs_walk_error(b, p, pool, (k - 1) as nat);
        if attrs_walk(b, p, pool, (k - 1) as nat) is Ok {
            lemma_attribute_outcome_error(b, attrs_walk(b, p, pool, (k - 1) as nat)->Ok_0, pool);
        }
    }
}

proof fn lemma_attr_list_error(b: Seq<u8>, p: int, pool: Constants)
    ensures
        attr_list_end(b, p, pool) matches Err(e) ==> decode_error(e),
{
    if p + 2 <= b.len() {
        lemma_attrs_walk_error(b, p + 2, pool, be16(b, p) as nat);
    }
}

proof fn lemma_members_walk_error(b: Seq<u8>, p: int, pool: Constants, k: nat)
    ensures
        members_walk(b, p, pool, k) matches Err(e) ==> decode_error(e),
    decreases k,
{
    if k > 0 {
        lemma_members_walk_error(b, p, pool, (k - 1) as nat);
        if members_walk(b, p, pool, (k - 1) as nat) is Ok {
            lemma_attr_list_error(b, members_walk(b, p, pool, (k - 1) as nat)->Ok_0 + 6, pool);
        }
    }
}

proof fn lemma_member_table_error(b: Seq<u8>, p: int, pool: Constants)
    ensures
        member_table_end(b, p, pool) matches Err(e) ==> decode_error(e),
{
    if p + 2 <= b.len() {
        lemma_members_walk_error(b, p + 2, pool, be16(b, p) as nat);
    }
}

/// An outcome moved `q` bytes along.
pub open spec fn shifted(o: Result<int, Error>, q: int) -> Result<int, Error> {
    match o {
        Ok(e) => Ok(e + q),
        Err(x) => Err(x),
    }
}

/// An attribute reads the same at `q` of `b` as at the start of the bytes
/// from `q` on: nothing before it matters.
#[verifier::rlimit(100)]
pub proof fn lemma_attribute_reads_alone(b: Seq<u8>, q: int, pool: Constants)
    requires
        0 <= q <= b.len(),
    ensures
        attribute_outcome(b, q, pool) == shifted(attribute_outcome(b.subrange(q, b.len() as int), 0, pool), q),
{
    let t = b.subrange(q, b.len() as int);
    if q + 8 <= b.len() {
        assert(be16(b, q) == be16(t, 0));
        assert(be32(b, q + 2) == be32(t, 2));
        assert(be16(b, q + 6) == be16(t, 6));
    } else if q + 6 <= b.len() {
        assert(be16(b, q) == be16(t, 0));
        assert(be32(b, q + 2) == be32(t, 2));
    }
}

/// Stream alignment over any number of attributes of any mix of kinds: in a
/// walk that reads `k` of them, each one reads exactly as it would alone,
/// ends its declared length past its header, and the next one starts
/// there; what follows the last starts where the walk ends.
pub proof fn lemma_attribute_walk_aligned(b: Seq<u8>, p: int, pool: Constants, k: nat)
    requires
        0 <= p <= b.len(),
        attrs_walk(b, p, pool, k) is Ok,
    ensures
        forall|j: nat|
            j < k ==> {
                let q = (#[trigger] attrs_walk(b, p, pool, j))->Ok_0;
                &&& attrs_walk(b, p, pool, j) is Ok
                &&& p <= q <= b.len()
                &&& attrs_walk(b, p, pool, j + 1) == Ok::<int, Error>(q + 6 + be32(b, q + 2))
                &&& attribute_outcome(b.subrange(q, b.len() as int), 0, pool) == Ok::<int, Error>(
                    6 + be32(b, q + 2),
                )
            },
    decreases k,
{
    if k > 0 {
        let k1 = (k - 1) as nat;
        lemma_attrs_walk_stops(b, p, pool, k1, k);
        lemma_attribute_walk_aligned(b, p, pool, k1);
        assert forall|j: nat|
            j < k implies {
                let q = (#[trigger] attrs_walk(b, p, pool, j))->Ok_0;
                &&& attrs_walk(b, p, pool, j) is Ok
                &&& p <= q <= b.len()
                &&& attrs_walk(b, p, pool, j + 1) == Ok::<int, Error>(q + 6 + be32(b, q + 2))
                &&& attribute_outcome(b.subrange(q, b.len() as int), 0, pool) == Ok::<int, Error>(
                    6 + be32(b, q + 2),
                )
            } by {
            lemma_attrs_walk_stops(b, p, pool, j + 1, k);
            lemma_attrs_walk_stops(b, p, pool, j, j + 1);
            lemma_attrs_walk_in_bounds(b, p, pool, j);
            let q = attrs_walk(b, p, pool, j)->Ok_0;
            lemma_attribute_consumes_declared_length(b, q, pool);
            lemma_attribute_reads_alone(b, q, pool);
        }
    }
}

} // verus!
