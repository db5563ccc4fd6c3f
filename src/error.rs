use vstd::prelude::*;

verus! {

/// The kind of a constant-pool slot, as named in errors.
#[derive(Clone, Copy, Debug, PartialEq, Eq, Structural)]
pub enum ConstantKind {
    Utf8,
    Integer,
    Float,
    Long,
    Double,
    Class,
    String,
    Fieldref,
    Methodref,
    InterfaceMethodref,
    NameAndType,
    MethodHandle,
    MethodType,
    Dynamic,
    InvokeDynamic,
    Module,
    Package,
}

/// Everything that can go wrong while reading or enumerating classes.
#[derive(Clone, Copy, Debug, PartialEq, Eq, Structural)]
pub enum Error {
    /// The bytes ended before the structure being read was complete.
    UnexpectedEof,
    /// The bytes do not form a class file (bad magic, unknown constant tag,
    /// malformed modified UTF-8).
    Malformed,
    /// A constant-pool index of 0, at or past the pool's count, or naming the
    /// unusable slot after a Long or Double.
    OutOfRange { index: u16 },
    /// A constant-pool slot holds another kind than the one required.
    WrongKind { index: u16, found: ConstantKind },
    /// A fully-decoded attribute declared a length other than what it holds.
    StructuralMismatch { declared: u32 },
    /// The requested class is absent from the container.
    NotFound,
    /// No recognised runtime-directory layout.
    InvalidInput,
    /// An oversized or truncated container resource.
    InvalidData,
    /// The consumer asked to stop an enumeration.
    Cancelled,
    /// The container itself could not be read.
    Archive,
}

} // verus!
