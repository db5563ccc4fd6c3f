use vstd::prelude::*;
use vstd::string::StringSliceAdditionalSpecFns;
use crate::bytes::{be16, be32, read_u2, read_u4};
use crate::constants::{kind_spec, Constant, Constants};
use crate::error::{ConstantKind, Error};
use crate::mutf8::scalars_of;

verus! {

/// The value a ConstantValue attribute gives a field. Floating-point values
/// are kept as their bit patterns; a string whose bytes do not decode is
/// `String(None)`.
#[allow(inconsistent_fields)]
#[derive(Clone, Debug)]
pub enum FieldConstant {
    Long(i64),
    Float { bits: u32 },
    Double { bits: u64 },
    Integer(i32),
    String(Option<String>),
}

/// An attribute of a class, field or method. ConstantValue, Signature and
/// Deprecated are decoded; the other kinds of the JVM specification are
/// recognised and skipped; any other name is `Unknown`.
#[derive(Clone, Debug)]
pub enum Attribute {
    ConstantValue(FieldConstant),
    Code,
    StackMapTable,
    Exceptions,
    InnerClasses,
    EnclosingMethod,
    Synthetic,
    Signature(String),
    SourceFile,
    SourceDebugExtension,
    LineNumberTable,
    LocalVariableTable,
    LocalVariableTypeTable,
    Deprecated,
    RuntimeVisibleAnnotations,
    RuntimeInvisibleAnnotations,
    RuntimeVisibleParameterAnnotations,
    RuntimeInvisibleParameterAnnotations,
    AnnotationDefault,
    BootstrapMethods,
    Unknown,
}

/// The UTF-16 units of an ASCII name.
pub open spec fn name_units(s: &str) -> Seq<u16> {
    s.spec_bytes().map_values(|x: u8| x as u16)
}

/// Whether `u` spells the ASCII name `s`.
fn units_are(u: &[u16], s: &str) -> (r: bool)
    ensures
        r == (u@ == name_units(s)),
{
    let b = s.as_bytes();
    if u.len() != b.len() {
        return false;
    }
    let mut i: usize = 0;
    while i < u.len()
        invariant
            u@.len() == b@.len(),
            b@ == s.spec_bytes(),
            i <= u@.len(),
            forall|j: int| 0 <= j < i ==> u@[j] == b@[j] as u16,
        decreases u@.len() - i,
    {
        if u[i] != b[i] as u16 {
            assert(u@[i as int] != name_units(s)[i as int]);
            return false;
        }
        i = i + 1;
    }
    assert(u@ =~= name_units(s));
    true
}

/// The marker for a name that is neither ConstantValue nor Signature.
pub open spec fn marker_for(u: Seq<u16>) -> Attribute {
    if u == name_units("Deprecated") {
        Attribute::Deprecated
    } else if u == name_units("Code") {
        Attribute::Code
    } else if u == name_units("StackMapTable") {
        Attribute::StackMapTable
    } else if u == name_units("Exceptions") {
        Attribute::Exceptions
    } else if u == name_units("InnerClasses") {
        Attribute::InnerClasses
    } else if u == name_units("EnclosingMethod") {
        Attribute::EnclosingMethod
    } else if u == name_units("Synthetic") {
        Attribute::Synthetic
    } else if u == name_units("SourceFile") {
        Attribute::SourceFile
    } else if u == name_units("SourceDebugExtension") {
        Attribute::SourceDebugExtension
    } else if u == name_units("LineNumberTable") {
        Attribute::LineNumberTable
    } else if u == name_units("LocalVariableTable") {
        Attribute::LocalVariableTable
    } else if u == name_units("LocalVariableTypeTable") {
        Attribute::LocalVariableTypeTable
    } else if u == name_units("RuntimeVisibleAnnotations") {
        Attribute::RuntimeVisibleAnnotations
    } else if u == name_units("RuntimeInvisibleAnnotations") {
        Attribute::RuntimeInvisibleAnnotations
    } else if u == name_units("RuntimeVisibleParameterAnnotations") {
        Attribute::RuntimeVisibleParameterAnnotations
    } else if u == name_units("RuntimeInvisibleParameterAnnotations") {
        Attribute::RuntimeInvisibleParameterAnnotations
    } else if u == name_units("AnnotationDefault") {
        Attribute::AnnotationDefault
    } else if u == name_units("BootstrapMethods") {
        Attribute::BootstrapMethods
    } else {
        Attribute::Unknown
    }
}

fn marker(u: &[u16]) -> (a: Attribute)
    ensures
        a == marker_for(u@),
{
    if units_are(u, "Deprecated") {
        Attribute::Deprecated
    } else if units_are(u, "Code") {
        Attribute::Code
    } else if units_are(u, "StackMapTable") {
        Attribute::StackMapTable
    } else if units_are(u, "Exceptions") {
        Attribute::Exceptions
    } else if units_are(u, "InnerClasses") {
        Attribute::InnerClasses
    } else if units_are(u, "EnclosingMethod") {
        Attribute::EnclosingMethod
    } else if units_are(u, "Synthetic") {
        Attribute::Synthetic
    } else if units_are(u, "SourceFile") {
        Attribute::SourceFile
    } else if units_are(u, "SourceDebugExtension") {
        Attribute::SourceDebugExtension
    } else if units_are(u, "LineNumberTable") {
        Attribute::LineNumberTable
    } else if units_are(u, "LocalVariableTable") {
        Attribute::LocalVariableTable
    } else if units_are(u, "LocalVariableTypeTable") {
        Attribute::LocalVariableTypeTable
    } else if units_are(u, "RuntimeVisibleAnnotations") {
        Attribute::RuntimeVisibleAnnotations
    } else if units_are(u, "RuntimeInvisibleAnnotations") {
        Attribute::RuntimeInvisibleAnnotations
    } else if units_are(u, "RuntimeVisibleParameterAnnotations") {
        Attribute::RuntimeVisibleParameterAnnotations
    } else if units_are(u, "RuntimeInvisibleParameterAnnotations") {
        Attribute::RuntimeInvisibleParameterAnnotations
    } else if units_are(u, "AnnotationDefault") {
        Attribute::AnnotationDefault
    } else if units_are(u, "BootstrapMethods") {
        Attribute::BootstrapMethods
    } else {
        Attribute::Unknown
    }
}

/// Whether a ConstantValue may point at an entry of this kind.
pub open spec fn field_constant_kind(c: Constant) -> bool {
    c is Long || c is Float || c is Double || c is Integer || c is String
}

/// The outcome of reading the attribute at `p`: the position just past it,
/// or the error. The header is a 2-byte name index and a 4-byte length.
pub open spec fn attribute_outcome(b: Seq<u8>, p: int, pool: Constants) -> Result<int, Error> {
    if p + 6 > b.len() {
        Err(Error::UnexpectedEof)
    } else {
        let len = be32(b, p + 2);
        let end = p + 6 + len;
        match pool.units_lookup(be16(b, p) as u16) {
            Err(e) => Err(e),
            Ok(u) => if u == name_units("ConstantValue") {
                if len != 2 {
                    Err(Error::StructuralMismatch { declared: len as u32 })
                } else if end > b.len() {
                    Err(Error::UnexpectedEof)
                } else {
                    let vi = be16(b, p + 6) as u16;
                    match pool.lookup(vi) {
                        Err(e) => Err(e),
                        Ok(c) => if !field_constant_kind(c) {
                            Err(Error::WrongKind { index: vi, found: kind_spec(c) })
                        } else {
                            match c {
                                Constant::String { string_index } => match pool.utf8_lookup(
                                    string_index,
                                ) {
                                    Err(e) => if e == Error::Malformed {
                                        Ok(end)
                                    } else {
                                        Err(e)
                                    },
                                    Ok(_) => Ok(end),
                                },
                                _ => Ok(end),
                            }
                        },
                    }
                }
            } else if u == name_units("Signature") {
                if len != 2 {
                    Err(Error::StructuralMismatch { declared: len as u32 })
                } else if end > b.len() {
                    Err(Error::UnexpectedEof)
                } else {
                    match pool.utf8_lookup(be16(b, p + 6) as u16) {
                        Err(e) => Err(e),
                        Ok(_) => Ok(end),
                    }
                }
            } else if end > b.len() {
                Err(Error::UnexpectedEof)
            } else {
                Ok(end)
            },
        }
    }
}

/// `f` is the value that the pool entry `vi` gives a field.
pub open spec fn field_constant_is(pool: Constants, vi: u16, f: FieldConstant) -> bool {
    match f {
        FieldConstant::Long(v) => pool.lookup(vi) == Ok::<Constant, Error>(Constant::Long(v)),
        FieldConstant::Float { bits } => pool.lookup(vi) == Ok::<Constant, Error>(
            Constant::Float { bits },
        ),
        FieldConstant::Double { bits } => pool.lookup(vi) == Ok::<Constant, Error>(
            Constant::Double { bits },
        ),
        FieldConstant::Integer(v) => pool.lookup(vi) == Ok::<Constant, Error>(
            Constant::Integer(v),
        ),
        FieldConstant::String(o) => match pool.lookup(vi) {
            Ok(Constant::String { string_index }) => match o {
                Some(s) => pool.utf8_lookup(string_index) == Ok::<Seq<u32>, Error>(
                    scalars_of(s@),
                ),
                None => pool.utf8_lookup(string_index) == Err::<Seq<u32>, Error>(
                    Error::Malformed,
                ),
            },
            _ => false,
        },
    }
}

/// `a` is the attribute at `p`, given that its name resolves.
pub open spec fn attribute_is(b: Seq<u8>, p: int, pool: Constants, a: Attribute) -> bool {
    let u = pool.units_lookup(be16(b, p) as u16)->Ok_0;
    match a {
        Attribute::ConstantValue(f) => u == name_units("ConstantValue") && field_constant_is(
            pool,
            be16(b, p + 6) as u16,
            f,
        ),
        Attribute::Signature(s) => u == name_units("Signature") && pool.utf8_lookup(
            be16(b, p + 6) as u16,
        ) == Ok::<Seq<u32>, Error>(scalars_of(s@)),
        _ => u != name_units("ConstantValue") && u != name_units("Signature") && a == marker_for(
            u,
        ),
    }
}

impl Attribute {
    /// Reads the attribute at `p` of `b`, resolving its name through
    /// `constants`. Whatever its kind, the attribute ends exactly its
    /// declared length past its header, which is where the next structure
    /// starts.
    pub fn read(b: &[u8], p: usize, constants: &Constants) -> (r: Result<(Attribute, usize), Error>)
        ensures
            r matches Ok((a, end)) ==> attribute_outcome(b@, p as int, *constants) == Ok::<
                int,
                Error,
            >(end as int) && end == p + 6 + be32(b@, p + 2) && attribute_is(
                b@,
                p as int,
                *constants,
                a,
            ),
            r matches Err(e) ==> attribute_outcome(b@, p as int, *constants) == Err::<int, Error>(
                e,
            ),
    {
        let n = b.len();
        let attribute_name_index = match read_u2(b, p) {
            Some(v) => v,
            None => return Err(Error::UnexpectedEof),
        };
        let attribute_length = match read_u4(b, p + 2) {
            Some(v) => v,
            None => return Err(Error::UnexpectedEof),
        };
        assert(attribute_name_index == be16(b@, p as int) as u16);
        let name = constants.get_utf8_units(attribute_name_index)?;
        let start = p + 6;
        let fits = (attribute_length as usize) <= n - start;
        if units_are(name.as_slice(), "ConstantValue") {
            if attribute_length != 2 {
                return Err(Error::StructuralMismatch { declared: attribute_length });
            }
            let vi = match read_u2(b, start) {
                Some(v) => v,
                None => return Err(Error::UnexpectedEof),
            };
            let c = constants.get(vi)?;
            let f = match c {
                Constant::Long(v) => FieldConstant::Long(*v),
                Constant::Float { bits } => FieldConstant::Float { bits: *bits },
                Constant::Double { bits } => FieldConstant::Double { bits: *bits },
                Constant::Integer(v) => FieldConstant::Integer(*v),
                Constant::String { string_index } => FieldConstant::String(
                    constants.get_utf8_possibly_invalid(*string_index)?,
                ),
                _ => return Err(Error::WrongKind { index: vi, found: c.kind() }),
            };
            Ok((Attribute::ConstantValue(f), start + 2))
        } else if units_are(name.as_slice(), "Signature") {
            if attribute_length != 2 {
                return Err(Error::StructuralMismatch { declared: attribute_length });
            }
            let si = match read_u2(b, start) {
                Some(v) => v,
                None => return Err(Error::UnexpectedEof),
            };
            let s = constants.get_utf8(si)?;
            Ok((Attribute::Signature(s), start + 2))
        } else {
            if !fits {
                return Err(Error::UnexpectedEof);
            }
            Ok((marker(name.as_slice()), start + attribute_length as usize))
        }
    }
}

/// A ConstantValue attribute whose declared length is not 2 fails with
/// `StructuralMismatch`; one of length 2 whose index names a Utf8 entry
/// fails with a `WrongKind` naming Utf8.
pub proof fn lemma_constant_value_checks(b: Seq<u8>, p: int, pool: Constants)
    requires
        p + 6 <= b.len(),
        pool.units_lookup(be16(b, p) as u16) == Ok::<Seq<u16>, Error>(name_units("ConstantValue")),
    ensures
        be32(b, p + 2) != 2 ==> attribute_outcome(b, p, pool) == Err::<int, Error>(
            Error::StructuralMismatch { declared: be32(b, p + 2) as u32 },
        ),
        be32(b, p + 2) == 2 && p + 8 <= b.len() && pool.lookup(be16(b, p + 6) as u16) is Ok
            && pool.lookup(be16(b, p + 6) as u16)->Ok_0 is Utf8 ==> attribute_outcome(b, p, pool)
            == Err::<int, Error>(
            Error::WrongKind { index: be16(b, p + 6) as u16, found: ConstantKind::Utf8 },
        ),
{
}

/// Whatever the attribute's kind, a successful read ends exactly its
/// declared length past its 6-byte header.
pub proof fn lemma_attribute_consumes_declared_length(b: Seq<u8>, p: int, pool: Constants)
    requires
        attribute_outcome(b, p, pool) is Ok,
    ensures
        attribute_outcome(b, p, pool)->Ok_0 == p + 6 + be32(b, p + 2),
        attribute_outcome(b, p, pool)->Ok_0 <= b.len(),
{
}

} // verus!
