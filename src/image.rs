use vstd::prelude::*;
use vstd::string::{StringExecFns, StringSliceAdditionalSpecFns};
use crate::order::{compare_bytes, key_of, lemma_key_injective};
use crate::class::{class_decodes, decode_error, decodes_to, Class};
use crate::error::Error;

verus! {

/// The largest module-image resource read, in bytes.
pub const MAX_RESOURCE_SIZE: u64 = 100_000_000;

/// "class" in UTF-8: the extension of class resources.
pub open spec fn class_extension() -> Seq<u8> {
    seq![0x63u8, 0x6Cu8, 0x61u8, 0x73u8, 0x73u8]
}

/// The class path a visited module-image resource stands for: `None` for a
/// resource that is not a class and for the root-level module descriptor;
/// otherwise package and simple name joined by a slash.
pub open spec fn image_path_spec(ext: Seq<u8>, package: Seq<char>, name: Seq<char>) -> Option<
    Seq<char>,
> {
    if ext != class_extension() {
        None
    } else if package.len() == 0 && name == "module-info"@ {
        None
    } else if package.len() > 0 {
        Some(package + seq!['/'] + name)
    } else {
        Some(name)
    }
}

/// Whether a resource extension marks a class.
pub fn is_class_extension(extension: &[u8]) -> (r: bool)
    ensures
        r == (extension@ == class_extension()),
{
    let is_class = extension.len() == 5 && extension[0] == 0x63 && extension[1] == 0x6C
        && extension[2] == 0x61 && extension[3] == 0x73 && extension[4] == 0x73;
    if !is_class {
        assert(extension@ != class_extension()) by {
            if extension@ == class_extension() {
                assert(extension@[0] == 0x63u8 && extension@[1] == 0x6Cu8 && extension@[2] == 0x61u8
                    && extension@[3] == 0x73u8 && extension@[4] == 0x73u8);
            }
        }
    } else {
        assert(extension@ =~= class_extension());
    }
    is_class
}

pub fn image_class_path(extension: &[u8], package: &str, name: &str) -> (r: Option<String>)
    ensures
        r is Some <==> image_path_spec(extension@, package@, name@) is Some,
        r is Some ==> r->0@ == image_path_spec(extension@, package@, name@)->0,
{
    if !is_class_extension(extension) {
        return None;
    }
    if package.is_empty() {
        let descriptor = "module-info";
        if compare_bytes(name.as_bytes(), descriptor.as_bytes()) == 0 {
            proof {
                lemma_key_injective(name@, descriptor@);
            }
            return None;
        }
        proof {
            if name@ == descriptor@ {
                assert(name.spec_bytes() == descriptor.spec_bytes());
            }
        }
        return Some(name.to_owned());
    }
    let mut s = package.to_owned();
    proof { reveal_strlit("/"); }
    s.append("/");
    s.append(name);
    Some(s)
}

/// The position of the last slash (byte 0x2F) in `b`, or -1.
pub open spec fn last_slash(b: Seq<u8>) -> int
    decreases b.len(),
{
    if b.len() == 0 {
        -1
    } else if b.last() == 0x2Fu8 {
        b.len() - 1
    } else {
        last_slash(b.drop_last())
    }
}

pub proof fn lemma_last_slash(b: Seq<u8>)
    ensures
        -1 <= last_slash(b) < b.len(),
        last_slash(b) >= 0 ==> b[last_slash(b)] == 0x2Fu8,
        forall|j: int| last_slash(b) < j < b.len() ==> b[j] != 0x2Fu8,
    decreases b.len(),
{
    if b.len() > 0 && b.last() != 0x2Fu8 {
        lemma_last_slash(b.drop_last());
        assert forall|j: int| last_slash(b) < j < b.len() implies b[j] != 0x2Fu8 by {
            if j < b.len() - 1 {
                assert(b[j] == b.drop_last()[j]);
            }
        }
    }
}

/// The package of a class path as UTF-8: what precedes its last slash, or
/// nothing where it has none.
pub open spec fn package_bytes(path: Seq<char>) -> Seq<u8> {
    let b = key_of(path);
    if last_slash(b) < 0 {
        Seq::empty()
    } else {
        b.subrange(0, last_slash(b))
    }
}

/// What a module image is asked for to find class `path`: its package and
/// the resource name (the path with ".class").
pub fn image_lookup(path: &str) -> (r: (String, String))
    ensures
        key_of(r.0@) == package_bytes(path@),
        r.1@ == path@ + ".class"@,
{
    let b = path.as_bytes();
    let mut i: usize = b.len();
    proof { lemma_last_slash(b@); }
    while i > 0 && b[i - 1] != 0x2F
        invariant
            i <= b@.len(),
            b@ == key_of(path@),
            forall|j: int| i <= j < b@.len() ==> b@[j] != 0x2Fu8,
        decreases i,
    {
        i = i - 1;
    }
    let package = if i == 0 {
        proof {
            if last_slash(b@) >= 0 {
                lemma_last_slash(b@);
            }
        }
        String::new()
    } else {
        proof {
            lemma_last_slash(b@);
            if last_slash(b@) != i - 1 {
                assert(b@[i - 1] == 0x2Fu8);
            }
            vstd::utf8::encode_utf8_valid_utf8(path@);
            vstd::utf8::is_char_boundary_iff_is_leading_byte(b@, i - 1);
        }
        let (pre, _) = path.split_at(i - 1);
        pre.to_owned()
    };
    proof {
        if i == 0 {
            assert(key_of(package@) =~= Seq::<u8>::empty()) by {
                reveal_strlit("");
            }
        }
    }
    let mut resource = path.to_owned();
    resource.append(".class");
    (package, resource)
}

/// Checks a module-image resource's reported size against the bound.
pub fn check_resource_size(size: u64) -> (r: Result<usize, Error>)
    ensures
        size > MAX_RESOURCE_SIZE ==> r == Err::<usize, Error>(Error::InvalidData),
        size <= MAX_RESOURCE_SIZE ==> r == Ok::<usize, Error>(size as usize),
{
    if size > MAX_RESOURCE_SIZE {
        Err(Error::InvalidData)
    } else {
        Ok(size as usize)
    }
}

/// Decodes a module-image resource whose read reported `reported` bytes;
/// a count other than the buffer's is a truncated read.
pub fn decode_resource(reported: u64, buf: &[u8]) -> (r: Result<Class, Error>)
    ensures
        reported != buf@.len() ==> r == Err::<Class, Error>(Error::InvalidData),
        r matches Ok(c) ==> reported == buf@.len() && decodes_to(buf@, c),
        reported == buf@.len() ==> (r matches Err(e) ==> decode_error(e)),
        reported == buf@.len() && class_decodes(buf@) ==> r is Ok,
{
    if reported != buf.len() as u64 {
        return Err(Error::InvalidData);
    }
    Class::read(buf)
}

/// How a JDK or JRE directory is laid out, as its probes found it.
#[derive(Clone, Copy, Debug, PartialEq, Eq, Structural)]
pub enum JdkLayout {
    /// `lib/modules` with the jimage reader under `bin/`.
    ModuleImage,
    /// `lib/modules` without the reader to read it: an error, not a reason
    /// to look further.
    MissingImageTool,
    /// `jre/lib/rt.jar`.
    JreRtJar,
    /// `lib/rt.jar`.
    LibRtJar,
    /// None of these.
    Unrecognized,
}

/// Which layout a directory has, probing in order: the module image, then
/// `jre/lib/rt.jar`, then `lib/rt.jar`.
pub fn choose_layout(has_modules: bool, has_image_tool: bool, has_jre_rt_jar: bool, has_lib_rt_jar: bool) -> (r: JdkLayout)
    ensures
        has_modules && has_image_tool ==> r == JdkLayout::ModuleImage,
        has_modules && !has_image_tool ==> r == JdkLayout::MissingImageTool,
        !has_modules && has_jre_rt_jar ==> r == JdkLayout::JreRtJar,
        !has_modules && !has_jre_rt_jar && has_lib_rt_jar ==> r == JdkLayout::LibRtJar,
        !has_modules && !has_jre_rt_jar && !has_lib_rt_jar ==> r == JdkLayout::Unrecognized,
{
    if has_modules {
        if has_image_tool {
            JdkLayout::ModuleImage
        } else {
            JdkLayout::MissingImageTool
        }
    } else if has_jre_rt_jar {
        JdkLayout::JreRtJar
    } else if has_lib_rt_jar {
        JdkLayout::LibRtJar
    } else {
        JdkLayout::Unrecognized
    }
}

} // verus!
