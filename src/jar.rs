use vstd::prelude::*;
use vstd::string::StringExecFns;
use crate::order::key_of;
use crate::class::{class_decodes, decode_error, decodes_to, Class};
use vstd::utf8::valid_utf8;
use crate::error::Error;
use std::io::Read;

verus! {

#[verifier::external_type_specification]
#[verifier::external_body]
#[verifier::reject_recursive_types(T)]
pub struct ExCursor<T>(std::io::Cursor<T>);

#[verifier::external_type_specification]
#[verifier::external_body]
#[verifier::reject_recursive_types(R)]
pub struct ExZipArchive<R>(zip::ZipArchive<R>);

/// A zip archive read from memory.
pub type Archive = zip::ZipArchive<std::io::Cursor<Vec<u8>>>;

/// The raw names of an archive's entries, in the order of its central
/// directory, each name once.
pub uninterp spec fn zip_entry_keys(z: Archive) -> Seq<Seq<u8>>;

/// The decompressed bytes of the entry whose raw name is `key`.
pub uninterp spec fn zip_entry_data(z: Archive, key: Seq<u8>) -> Seq<u8>;

/// Whether `ZipArchive::new` reads these bytes as an archive.
pub uninterp spec fn zip_opens(bytes: Seq<u8>) -> bool;

/// Whether `by_index` opens entry `i` of the archive.
pub uninterp spec fn zip_entry_opens(z: Archive, i: int) -> bool;

/// Whether the entry whose raw name is `key` opens and reads to its end.
pub uninterp spec fn zip_entry_reads(z: Archive, key: Seq<u8>) -> bool;

/// Two states of one archive: opening or reading an entry moves the reader
/// and changes nothing that the names above speak of.
pub open spec fn same_archive(a: Archive, b: Archive) -> bool {
    &&& zip_entry_keys(a) == zip_entry_keys(b)
    &&& forall|n: Seq<u8>| #[trigger] zip_entry_data(a, n) == zip_entry_data(b, n)
    &&& forall|i: int| #[trigger] zip_entry_opens(a, i) == zip_entry_opens(b, i)
    &&& forall|n: Seq<u8>| #[trigger] zip_entry_reads(a, n) == zip_entry_reads(b, n)
}

/// Relies on `zip::ZipArchive::new` (zip 9): it reads the central directory
/// into a map keyed by raw name, or fails where the bytes are not a
/// readable zip archive; which of the two depends on the bytes alone. Its
/// offset arithmetic is checked, so a crafted archive gives an error.
#[verifier::external_body]
fn open_archive(bytes: Vec<u8>) -> (r: Option<Archive>)
    ensures
        r is Some <==> zip_opens(bytes@),
        r matches Some(z) ==> zip_entry_keys(z).no_duplicates(),
{
    zip::ZipArchive::new(std::io::Cursor::new(bytes)).ok()
}

/// Relies on `zip::ZipArchive::len`: the number of entries.
#[verifier::external_body]
fn archive_len(z: &Archive) -> (r: usize)
    ensures
        r == zip_entry_keys(*z).len(),
{
    z.len()
}

/// Relies on `zip::ZipArchive::by_index` and `ZipFile::name_raw`: the raw
/// name of entry `i`, where that entry opens (never past the end). Opening
/// an entry moves the reader but changes no entry.
#[verifier::external_body]
fn entry_name(z: &mut Archive, i: usize) -> (r: Option<Vec<u8>>)
    ensures
        same_archive(*final(z), *old(z)),
        r is Some <==> i < zip_entry_keys(*old(z)).len() && zip_entry_opens(*old(z), i as int),
        r is Some ==> r->0@ == zip_entry_keys(*old(z))[i as int],
{
    match z.by_index(i) {
        Ok(f) => Some(f.name_raw().to_vec()),
        Err(_) => None,
    }
}

/// Why an entry could not be read.
enum EntryFault {
    Missing,
    Broken,
}

/// Relies on `zip::ZipArchive::by_name` and `Read::read_to_end`: the
/// decompressed bytes of the entry whose raw name is the UTF-8 of `name`;
/// `FileNotFound` exactly where there is none.
#[verifier::external_body]
fn read_entry(z: &mut Archive, name: &str) -> (r: Result<Vec<u8>, EntryFault>)
    ensures
        same_archive(*final(z), *old(z)),
        r matches Err(EntryFault::Missing) <==> !zip_entry_keys(*old(z)).contains(key_of(name@)),
        r is Ok <==> zip_entry_keys(*old(z)).contains(key_of(name@)) && zip_entry_reads(*old(z), key_of(name@)),
        r matches Ok(b) ==> b@ == zip_entry_data(*old(z), key_of(name@)),
{
    let mut f = match z.by_name(name) {
        Ok(f) => f,
        Err(zip::result::ZipError::FileNotFound) => return Err(EntryFault::Missing),
        Err(_) => return Err(EntryFault::Broken),
    };
    let mut out = Vec::new();
    match f.read_to_end(&mut out) {
        Ok(_) => Ok(out),
        Err(_) => Err(EntryFault::Broken),
    }
}

/// Relies on `String::from_utf8`: it fails exactly where the bytes are not
/// UTF-8, and otherwise holds them unchanged.
#[verifier::external_body]
fn utf8_string(b: Vec<u8>) -> (r: Option<String>)
    ensures
        r is Some <==> valid_utf8(b@),
        r matches Some(s) ==> key_of(s@) == b@,
{
    String::from_utf8(b).ok()
}

/// ".class" in UTF-8.
pub open spec fn class_suffix() -> Seq<u8> {
    seq![0x2Eu8, 0x63u8, 0x6Cu8, 0x61u8, 0x73u8, 0x73u8]
}

/// The class path that an entry's raw name stands for: the name without its
/// ".class" suffix, or `None` where it has none.
pub open spec fn class_stem(b: Seq<u8>) -> Option<Seq<u8>> {
    if b.len() >= 6 && b.subrange(b.len() - 6, b.len() as int) == class_suffix() {
        Some(b.subrange(0, b.len() - 6))
    } else {
        None
    }
}

/// Strips the ".class" suffix from an entry's raw name.
pub fn strip_class_suffix(b: &[u8]) -> (r: Option<Vec<u8>>)
    ensures
        r is Some <==> class_stem(b@) is Some,
        r is Some ==> r->0@ == class_stem(b@)->0,
{
    let n = b.len();
    if n < 6 {
        return None;
    }
    let ok = b[n - 6] == 0x2E && b[n - 5] == 0x63 && b[n - 4] == 0x6C && b[n - 3] == 0x61 && b[n
        - 2] == 0x73 && b[n - 1] == 0x73;
    if !ok {
        assert(b@.subrange(n - 6, n as int) != class_suffix()) by {
            if b@.subrange(n - 6, n as int) == class_suffix() {
                assert(b@.subrange(n - 6, n as int)[0] == b@[n - 6]);
                assert(b@.subrange(n - 6, n as int)[1] == b@[n - 5]);
                assert(b@.subrange(n - 6, n as int)[2] == b@[n - 4]);
                assert(b@.subrange(n - 6, n as int)[3] == b@[n - 3]);
                assert(b@.subrange(n - 6, n as int)[4] == b@[n - 2]);
                assert(b@.subrange(n - 6, n as int)[5] == b@[n - 1]);
            }
        }
        return None;
    }
    assert(b@.subrange(n - 6, n as int) =~= class_suffix());
    let mut out: Vec<u8> = Vec::new();
    out.extend_from_slice(&b[0..n - 6]);
    assert(out@ =~= b@.subrange(0, n - 6));
    Some(out)
}

/// The class paths of a sequence of raw entry names, in order.
pub open spec fn class_paths(names: Seq<Seq<u8>>) -> Seq<Seq<u8>>
    decreases names.len(),
{
    if names.len() == 0 {
        Seq::empty()
    } else {
        let prev = class_paths(names.drop_last());
        match class_stem(names.last()) {
            Some(s) => prev.push(s),
            None => prev,
        }
    }
}

/// The class paths of a prefix of the entries begin the class paths of a
/// longer prefix.
pub proof fn lemma_class_paths_prefix(names: Seq<Seq<u8>>, i: int, j: int)
    requires
        0 <= i <= j <= names.len(),
    ensures
        class_paths(names.subrange(0, i)).len() <= class_paths(names.subrange(0, j)).len(),
        forall|k: int|
            0 <= k < class_paths(names.subrange(0, i)).len() ==> #[trigger] class_paths(
                names.subrange(0, i),
            )[k] == class_paths(names.subrange(0, j))[k],
    decreases j - i,
{
    if i < j {
        lemma_class_paths_prefix(names, i, j - 1);
        assert(names.subrange(0, j).drop_last() =~= names.subrange(0, j - 1));
    }
}

/// `f` was handed a path whose UTF-8 is `key`, and accepted it.
pub open spec fn handed<F: Fn(String) -> Result<(), Error>>(f: F, key: Seq<u8>) -> bool {
    exists|s: String| key_of(s@) == key && #[trigger] call_ensures(f, (s,), Ok::<(), Error>(()))
}

/// Classes held in a zip-style archive (a `.jar`).
pub struct Jar {
    archive: Archive,
}

impl Jar {
    /// The raw names of the archive's entries, each once.
    pub closed spec fn entries(&self) -> Seq<Seq<u8>> {
        zip_entry_keys(self.archive)
    }

    /// The bytes of the entry whose raw name is `key`.
    pub closed spec fn data(&self, key: Seq<u8>) -> Seq<u8> {
        zip_entry_data(self.archive, key)
    }

    /// Whether entry `i` opens.
    pub closed spec fn opens(&self, i: int) -> bool {
        zip_entry_opens(self.archive, i)
    }

    /// Whether the entry whose raw name is `key` reads to its end.
    pub closed spec fn reads(&self, key: Seq<u8>) -> bool {
        zip_entry_reads(self.archive, key)
    }

    /// Entry `i` opens, and where it is a class its path is UTF-8.
    pub open spec fn usable(&self, i: int) -> bool {
        &&& self.opens(i)
        &&& class_stem(self.entries()[i]) matches Some(s) ==> valid_utf8(s)
    }

    /// Every entry is usable.
    pub open spec fn all_usable(&self) -> bool {
        forall|i: int| 0 <= i < self.entries().len() ==> #[trigger] self.usable(i)
    }

    /// Nothing that the contracts speak of differs.
    pub open spec fn same_as(&self, other: Jar) -> bool {
        &&& self.entries() == other.entries()
        &&& forall|n: Seq<u8>| #[trigger] self.data(n) == other.data(n)
        &&& forall|i: int| #[trigger] self.opens(i) == other.opens(i)
        &&& forall|n: Seq<u8>| #[trigger] self.reads(n) == other.reads(n)
    }

    /// The raw names are distinct.
    pub closed spec fn wf(&self) -> bool {
        zip_entry_keys(self.archive).no_duplicates()
    }

    proof fn lemma_same(&self, other: Jar)
        requires
            same_archive(self.archive, other.archive),
        ensures
            self.same_as(other),
            self.wf() == other.wf(),
    {
    }

    pub proof fn lemma_wf(&self)
        requires
            self.wf(),
        ensures
            self.entries().no_duplicates(),
    {
    }

    /// Opens an archive held in memory.
    pub fn open(bytes: Vec<u8>) -> (r: Result<Jar, Error>)
        ensures
            r is Ok <==> zip_opens(bytes@),
            r matches Ok(j) ==> j.wf(),
            r matches Err(e) ==> e == Error::Archive,
    {
        match open_archive(bytes) {
            Some(archive) => Ok(Jar { archive }),
            None => Err(Error::Archive),
        }
    }

    /// The number of entries.
    pub fn entry_count(&self) -> (r: usize)
        ensures
            r == self.entries().len(),
    {
        archive_len(&self.archive)
    }

    /// The class path of entry `i`: `Some` where its name ends in ".class",
    /// `None` where it does not; `Error::Archive` where the entry does not
    /// open or its path is not UTF-8.
    pub fn class_at(&mut self, i: usize) -> (r: Result<Option<String>, Error>)
        requires
            i < old(self).entries().len(),
        ensures
            final(self).same_as(*old(self)),
            final(self).wf() == old(self).wf(),
            r is Ok <==> old(self).usable(i as int),
            r matches Err(e) ==> e == Error::Archive,
            r matches Ok(o) ==> (o is Some <==> class_stem(old(self).entries()[i as int]) is Some),
            r matches Ok(Some(s)) ==> key_of(s@) == class_stem(old(self).entries()[i as int])->0,
    {
        let ghost start = *self;
        let name = match entry_name(&mut self.archive, i) {
            Some(s) => s,
            None => {
                proof { self.lemma_same(start); }
                return Err(Error::Archive);
            },
        };
        proof { self.lemma_same(start); }
        match strip_class_suffix(name.as_slice()) {
            Some(stem) => match utf8_string(stem) {
                Some(s) => Ok(Some(s)),
                None => Err(Error::Archive),
            },
            None => Ok(None),
        }
    }

    /// The class paths of the archive, in its order: each entry whose name
    /// ends in ".class", without that suffix.
    pub fn classes(&mut self) -> (r: Result<Vec<String>, Error>)
        ensures
            final(self).same_as(*old(self)),
            final(self).wf() == old(self).wf(),
            r is Ok <==> old(self).all_usable(),
            r matches Ok(v) ==> v@.map_values(|s: String| key_of(s@)) == class_paths(old(self).entries()),
            r matches Err(e) ==> e == Error::Archive,
    {
        let n = self.entry_count();
        let ghost names = self.entries();
        let ghost start = *self;
        let mut out: Vec<String> = Vec::new();
        let mut i: usize = 0;
        assert(names.subrange(0, 0) =~= Seq::<Seq<u8>>::empty());
        while i < n
            invariant
                n == names.len(),
                i <= n,
                start == *old(self),
                names == start.entries(),
                self.same_as(start),
                self.wf() == start.wf(),
                forall|j: int| 0 <= j < i ==> #[trigger] start.usable(j),
                out@.map_values(|s: String| key_of(s@)) == class_paths(names.subrange(0, i as int)),
            decreases n - i,
        {
            let ghost here = *self;
            assert(here.opens(i as int) == start.opens(i as int));
            let stem = match self.class_at(i) {
                Ok(o) => o,
                Err(e) => {
                    assert(!start.usable(i as int));
                    return Err(e);
                },
            };
            assert(start.usable(i as int));
            let ghost pre = names.subrange(0, i + 1);
            assert(pre.drop_last() =~= names.subrange(0, i as int));
            assert(pre.last() == names[i as int]);
            match stem {
                Some(stem) => {
                    let ghost o = out@;
                    out.push(stem);
                    assert(out@.map_values(|s: String| key_of(s@)) =~= o.map_values(|s: String| key_of(s@)).push(key_of(stem@)));
                },
                None => {},
            }
            i = i + 1;
        }
        assert(names.subrange(0, n as int) =~= names);
        Ok(out)
    }

    /// Reads and decodes the class at `path` (slash-separated, no suffix).
    pub fn read_class(&mut self, path: &str) -> (r: Result<Class, Error>)
        ensures
            final(self).same_as(*old(self)),
            final(self).wf() == old(self).wf(),
            !old(self).entries().contains(key_of(path@ + ".class"@)) ==> r == Err::<Class, Error>(Error::NotFound),
            old(self).entries().contains(key_of(path@ + ".class"@)) && !old(self).reads(key_of(path@ + ".class"@))
                ==> r == Err::<Class, Error>(Error::Archive),
            old(self).entries().contains(key_of(path@ + ".class"@)) && old(self).reads(key_of(path@ + ".class"@)) ==> {
                &&& r matches Err(e) ==> decode_error(e)
                &&& class_decodes(old(self).data(key_of(path@ + ".class"@))) ==> r is Ok
            },
            r matches Ok(c) ==> decodes_to(old(self).data(key_of(path@ + ".class"@)), c),
    {
        let ghost start = *self;
        let mut full = path.to_owned();
        full.append(".class");
        let r = match read_entry(&mut self.archive, full.as_str()) {
            Ok(bytes) => Class::read(bytes.as_slice()),
            Err(EntryFault::Missing) => Err(Error::NotFound),
            Err(EntryFault::Broken) => Err(Error::Archive),
        };
        proof { self.lemma_same(start); }
        r
    }

    /// Hands each class path of the archive to `f`, in the archive's order,
    /// and stops at the first error: one of `f` (such as `Error::Cancelled`)
    /// comes back unchanged; an entry that does not open, or a class path
    /// that is not UTF-8, gives `Error::Archive`.
    pub fn for_each_class<F: Fn(String) -> Result<(), Error>>(&mut self, f: F) -> (r: Result<
        (),
        Error,
    >)
        requires
            forall|s: String| call_requires(f, (s,)),
        ensures
            final(self).same_as(*old(self)),
            final(self).wf() == old(self).wf(),
            r matches Err(e) ==> e == Error::Archive || exists|s: String|
                #[trigger] call_ensures(f, (s,), Err::<(), Error>(e)),
            old(self).all_usable() ==> (r matches Err(e) ==> exists|s: String|
                class_paths(old(self).entries()).contains(key_of(s@)) && #[trigger] call_ensures(
                    f,
                    (s,),
                    Err::<(), Error>(e),
                )),
            old(self).all_usable() && class_paths(old(self).entries()).len() == 0 ==> r is Ok,
            r is Ok ==> forall|k: int|
                0 <= k < class_paths(old(self).entries()).len() ==> handed(
                    f,
                    #[trigger] class_paths(old(self).entries())[k],
                ),
            old(self).all_usable() && (forall|s: String, x: Result<(), Error>|
                #[trigger] call_ensures(f, (s,), x) ==> x is Ok) ==> r is Ok,
    {
        let n = self.entry_count();
        let ghost names = self.entries();
        let ghost start = *self;
        let mut i: usize = 0;
        assert(names.subrange(0, 0) =~= Seq::<Seq<u8>>::empty());
        assert(names.subrange(0, n as int) =~= names);
        while i < n
            invariant
                n == names.len(),
                i <= n,
                start == *old(self),
                names == start.entries(),
                names.subrange(0, n as int) == names,
                self.same_as(start),
                self.wf() == start.wf(),
                forall|s: String| call_requires(f, (s,)),
                forall|k: int|
                    0 <= k < class_paths(names.subrange(0, i as int)).len() ==> handed(
                        f,
                        #[trigger] class_paths(names.subrange(0, i as int))[k],
                    ),
            decreases n - i,
        {
            let ghost here = *self;
            assert(here.opens(i as int) == start.opens(i as int));
            let stem = match self.class_at(i) {
                Ok(o) => o,
                Err(e) => {
                    assert(!start.usable(i as int));
                    return Err(e);
                },
            };
            assert(start.usable(i as int));
            let ghost pre = names.subrange(0, i + 1);
            let ghost prev = names.subrange(0, i as int);
            assert(pre.drop_last() =~= prev);
            assert(pre.last() == names[i as int]);
            match stem {
                Some(stem) => {
                    let ghost k0 = stem;
                    assert(class_paths(pre) == class_paths(prev).push(key_of(k0@)));
                    proof {
                        lemma_class_paths_prefix(names, i + 1, n as int);
                        let k = class_paths(prev).len() as int;
                        assert(class_paths(pre)[k] == class_paths(names)[k]);
                        assert(class_paths(names).contains(key_of(k0@)));
                    }
                    let res = f(stem);
                    match res {
                        Ok(u) => {
                            assert(res == Ok::<(), Error>(()));
                            assert(call_ensures(f, (k0,), Ok::<(), Error>(())));
                            assert(handed(f, key_of(k0@)));
                            assert forall|k: int|
                                0 <= k < class_paths(pre).len() implies handed(
                                    f,
                                    #[trigger] class_paths(pre)[k],
                                ) by {
                                if k < class_paths(prev).len() {
                                    assert(class_paths(pre)[k] == class_paths(prev)[k]);
                                    assert(handed(f, class_paths(prev)[k]));
                                } else {
                                    assert(key_of(k0@) == class_paths(pre)[k]);
                                }
                            }
                        },
                        Err(e) => {
                            assert(call_ensures(f, (k0,), Err::<(), Error>(e)));
                            return Err(e);
                        },
                    }
                },
                None => {
                    assert(class_paths(pre) == class_paths(prev));
                    assert forall|k: int|
                        0 <= k < class_paths(pre).len() implies handed(
                            f,
                            #[trigger] class_paths(pre)[k],
                        ) by {
                        assert(handed(f, class_paths(prev)[k]));
                    }
                },
            }
            i = i + 1;
        }
        Ok(())
    }
}

} // verus!
