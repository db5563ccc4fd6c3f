use vstd::prelude::*;
use crate::consistency::Consistency;
use crate::error::Error;
use crate::bytes::be16;
use crate::class::{class_decodes, header_start, ACC_PUBLIC};
use crate::jar::{class_paths, class_stem, class_suffix, Jar};
use crate::order::{
    compare_bytes, key_of, lemma_key_injective, lemma_lex_irreflexive, lemma_lex_transitive, lex_lt,
};
use crate::versions::{has_bit, render_spec, render_versions};

verus! {

/// What the catalog knows of one class: whether it is public, and a
/// version bitmask per distribution family.
#[derive(Debug)]
pub struct CatalogEntry {
    pub name: String,
    pub is_public: Consistency<bool>,
    pub versions: Vec<u64>,
}

/// Per-class facts gathered from many distributions, in lexicographic order
/// of class name.
#[derive(Debug)]
pub struct Catalog {
    pub families: usize,
    pub entries: Vec<CatalogEntry>,
}

/// The facts of a class, as the catalog's contracts speak of them.
pub type EntryModel = (Consistency<bool>, Seq<u64>);

impl Catalog {
    pub open spec fn key(&self, i: int) -> Seq<u8> {
        key_of(self.entries@[i].name@)
    }

    /// Names strictly ascending; one bitmask per family in every entry.
    pub open spec fn wf(&self) -> bool {
        &&& forall|i: int, j: int|
            0 <= i < j < self.entries@.len() ==> lex_lt(#[trigger] self.key(i), #[trigger] self.key(j))
        &&& forall|i: int|
            0 <= i < self.entries@.len() ==> (#[trigger] self.entries@[i]).versions@.len()
                == self.families
    }

    pub open spec fn model(&self, i: int) -> EntryModel {
        (self.entries@[i].is_public, self.entries@[i].versions@)
    }

    pub open spec fn has(&self, name: Seq<char>) -> bool {
        exists|i: int| 0 <= i < self.entries@.len() && (#[trigger] self.entries@[i]).name@ == name
    }

    /// A position holding `name`, where there is one.
    pub open spec fn pick(&self, name: Seq<char>) -> int {
        choose|i: int| 0 <= i < self.entries@.len() && (#[trigger] self.entries@[i]).name@ == name
    }

    /// The facts recorded for `name`, if any.
    pub open spec fn get_spec(&self, name: Seq<char>) -> Option<EntryModel> {
        if self.has(name) {
            Some(self.model(self.pick(name)))
        } else {
            None
        }
    }

    /// The facts of a class never seen before.
    pub open spec fn fresh(&self) -> EntryModel {
        (Consistency::Unobserved, Seq::new(self.families as nat, |_i: int| 0u64))
    }

    pub fn new(families: usize) -> (r: Catalog)
        ensures
            r.wf(),
            r.families == families,
            forall|k: Seq<char>| r.get_spec(k) is None,
    {
        Catalog { families, entries: Vec::new() }
    }

    pub fn len(&self) -> (r: usize)
        ensures
            r == self.entries@.len(),
    {
        self.entries.len()
    }

    /// The position of the entry whose key is `key`, or where it would be
    /// inserted.
    fn find(&self, key: &[u8]) -> (r: Result<usize, usize>)
        requires
            self.wf(),
        ensures
            r matches Ok(i) ==> i < self.entries@.len() && self.key(i as int) == key@,
            r matches Err(i) ==> i <= self.entries@.len() && (forall|j: int|
                0 <= j < i ==> lex_lt(#[trigger] self.key(j), key@)) && (forall|j: int|
                i <= j < self.entries@.len() ==> lex_lt(key@, #[trigger] self.key(j))),
    {
        let mut lo: usize = 0;
        let mut hi: usize = self.entries.len();
        while lo < hi
            invariant
                self.wf(),
                lo <= hi <= self.entries@.len(),
                forall|j: int| 0 <= j < lo ==> lex_lt(#[trigger] self.key(j), key@),
                forall|j: int| hi <= j < self.entries@.len() ==> lex_lt(key@, #[trigger] self.key(j)),
            decreases hi - lo,
        {
            let mid = lo + (hi - lo) / 2;
            let name = self.entries[mid].name.as_str();
            let c = compare_bytes(name.as_bytes(), key);
            if c == 0 {
                return Ok(mid);
            } else if c < 0 {
                assert forall|j: int| 0 <= j < mid + 1 implies lex_lt(#[trigger] self.key(j), key@) by {
                    if j < mid {
                        assert(lex_lt(self.key(j), self.key(mid as int)));
                        lemma_lex_transitive(self.key(j), self.key(mid as int), key@);
                    }
                }
                lo = mid + 1;
            } else {
                assert forall|j: int| mid <= j < self.entries@.len() implies lex_lt(key@, #[trigger] self.key(j)) by {
                    if j > mid {
                        assert(lex_lt(self.key(mid as int), self.key(j)));
                        lemma_lex_transitive(key@, self.key(mid as int), self.key(j));
                    }
                }
                hi = mid;
            }
        }
        Err(lo)
    }

    /// Keys are unique, so a name picks out one position.
    proof fn lemma_unique(&self, i: int, name: Seq<char>)
        requires
            self.wf(),
            0 <= i < self.entries@.len(),
            self.entries@[i].name@ == name,
        ensures
            self.get_spec(name) == Some(self.model(i)),
    {
        assert(self.has(name));
        let j = self.pick(name);
        assert(self.entries@[i].name@ == name);
        assert(self.key(i) == self.key(j));
        if j != i {
            if j < i {
                assert(lex_lt(self.key(j), self.key(i)));
            } else {
                assert(lex_lt(self.key(i), self.key(j)));
            }
            lemma_lex_irreflexive(self.key(i));
        }
    }

    /// Records that class `name` was seen at position `bit` of `family`,
    /// with the given visibility. An unseen class first gets the fresh
    /// state; no other class changes.
    pub fn observe(&mut self, name: &str, family: usize, bit: u64, is_public: bool)
        requires
            old(self).wf(),
            family < old(self).families,
            bit < 64,
        ensures
            final(self).wf(),
            final(self).families == old(self).families,
            ({
                let prev = match old(self).get_spec(name@) {
                    Some(m) => m,
                    None => old(self).fresh(),
                };
                final(self).get_spec(name@) == Some::<EntryModel>(
                    (
                        prev.0.merged(is_public),
                        prev.1.update(family as int, prev.1[family as int] | (1u64 << bit)),
                    ),
                )
            }),
            forall|k: Seq<char>| k != name@ ==> final(self).get_spec(k) == old(self).get_spec(k),
    {
        let ghost old_self = *self;
        let key = name.as_bytes();
        let idx = match self.find(key) {
            Ok(i) => {
                proof {
                    lemma_key_injective(old_self.entries@[i as int].name@, name@);
                    old_self.lemma_unique(i as int, name@);
                }
                i
            },
            Err(i) => {
                proof {
                    if old_self.has(name@) {
                        let j = old_self.pick(name@);
                        assert(old_self.key(j) == key@);
                        lemma_lex_irreflexive(key@);
                    }
                }
                let mut versions: Vec<u64> = Vec::new();
                while versions.len() < self.families
                    invariant
                        versions@.len() <= self.families,
                        forall|j: int| 0 <= j < versions@.len() ==> versions@[j] == 0u64,
                    decreases self.families - versions@.len(),
                {
                    versions.push(0);
                }
                assert(versions@ =~= old_self.fresh().1);
                let e = CatalogEntry { name: name.to_owned(), is_public: Consistency::Unobserved, versions };
                self.entries.insert(i, e);
                proof { self.lemma_after_insert(old_self, i as int, name@); }
                i
            },
        };
        let ghost mid = *self;
        let mut versions: Vec<u64> = Vec::new();
        let n = self.families;
        while versions.len() < n
            invariant
                *self == mid,
                idx < self.entries@.len(),
                n == self.families,
                self.entries@[idx as int].versions@.len() == n,
                versions@.len() <= n,
                forall|j: int| 0 <= j < versions@.len() ==> versions@[j] == self.entries@[idx as int].versions@[j],
            decreases n - versions@.len(),
        {
            let v = self.entries[idx].versions[versions.len()];
            versions.push(v);
        }
        let old_mask = versions[family];
        versions.set(family, old_mask | (1u64 << bit));
        let mut vis = self.entries[idx].is_public;
        vis.merge(is_public);
        let e = CatalogEntry { name: name.to_owned(), is_public: vis, versions };
        self.entries.set(idx, e);
        proof { self.lemma_after_set(mid, idx as int, name@); }
    }

    proof fn lemma_after_insert(&self, before: Catalog, i: int, name: Seq<char>)
        requires
            before.wf(),
            0 <= i <= before.entries@.len(),
            self.families == before.families,
            self.entries@ == before.entries@.insert(i, self.entries@[i]),
            self.entries@[i].name@ == name,
            self.entries@[i].versions@.len() == self.families,
            forall|j: int| 0 <= j < i ==> lex_lt(#[trigger] before.key(j), key_of(name)),
            forall|j: int| i <= j < before.entries@.len() ==> lex_lt(key_of(name), #[trigger] before.key(j)),
        ensures
            self.wf(),
            self.get_spec(name) == Some(self.model(i)),
            forall|k: Seq<char>| k != name ==> self.get_spec(k) == before.get_spec(k),
    {
        assert forall|a: int, b: int| 0 <= a < b < self.entries@.len() implies lex_lt(#[trigger] self.key(a), #[trigger] self.key(b)) by {
            if a < i && b < i {
                assert(self.key(a) == before.key(a) && self.key(b) == before.key(b));
            } else if a < i && b == i {
                assert(self.key(a) == before.key(a));
            } else if a < i {
                assert(self.key(a) == before.key(a) && self.key(b) == before.key(b - 1));
                lemma_lex_transitive(before.key(a), key_of(name), before.key(b - 1));
            } else if a == i {
                assert(self.key(b) == before.key(b - 1));
            } else {
                assert(self.key(a) == before.key(a - 1) && self.key(b) == before.key(b - 1));
            }
        }
        assert forall|a: int| 0 <= a < self.entries@.len() implies (#[trigger] self.entries@[a]).versions@.len() == self.families by {
            if a < i {
                assert(self.entries@[a] == before.entries@[a]);
            } else if a > i {
                assert(self.entries@[a] == before.entries@[a - 1]);
            }
        }
        self.lemma_unique(i, name);
        assert forall|k: Seq<char>| k != name implies self.get_spec(k) == before.get_spec(k) by {
            if self.has(k) {
                let a = self.pick(k);
                let b = if a < i { a } else { a - 1 };
                assert(a != i);
                assert(before.entries@[b] == self.entries@[a]);
                self.lemma_unique(a, k);
                before.lemma_unique(b, k);
            } else if before.has(k) {
                let b = before.pick(k);
                let a = if b < i { b } else { b + 1 };
                assert(self.entries@[a] == before.entries@[b]);
            }
        }
    }

    proof fn lemma_after_set(&self, before: Catalog, i: int, name: Seq<char>)
        requires
            before.wf(),
            0 <= i < before.entries@.len(),
            before.entries@[i].name@ == name,
            self.families == before.families,
            self.entries@ == before.entries@.update(i, self.entries@[i]),
            self.entries@[i].name@ == name,
            self.entries@[i].versions@.len() == self.families,
        ensures
            self.wf(),
            self.get_spec(name) == Some(self.model(i)),
            forall|k: Seq<char>| k != name ==> self.get_spec(k) == before.get_spec(k),
    {
        assert forall|a: int, b: int| 0 <= a < b < self.entries@.len() implies lex_lt(#[trigger] self.key(a), #[trigger] self.key(b)) by {
            assert(self.key(a) == before.key(a) && self.key(b) == before.key(b));
        }
        assert forall|a: int| 0 <= a < self.entries@.len() implies (#[trigger] self.entries@[a]).versions@.len() == self.families by {
            if a != i {
                assert(self.entries@[a] == before.entries@[a]);
            }
        }
        self.lemma_unique(i, name);
        assert forall|k: Seq<char>| k != name implies self.get_spec(k) == before.get_spec(k) by {
            if self.has(k) {
                let a = self.pick(k);
                assert(a != i);
                assert(before.entries@[a] == self.entries@[a]);
                self.lemma_unique(a, k);
                before.lemma_unique(a, k);
            } else if before.has(k) {
                let b = before.pick(k);
                assert(b != i);
                assert(self.entries@[b] == before.entries@[b]);
            }
        }
    }
}

/// A declared equivalence: in `family`, a class present at both `low` and
/// `high` is taken to be present at every position between.
#[derive(Clone, Copy, Debug, PartialEq, Eq, Structural)]
pub struct EquivalenceSpan {
    pub family: usize,
    pub low: u64,
    pub high: u64,
}

impl EquivalenceSpan {
    pub open spec fn valid(self, families: nat) -> bool {
        self.family < families && self.low <= self.high < 64
    }
}

pub open spec fn span_bits(low: u64, high: u64) -> u64 {
    (0xFFFF_FFFF_FFFF_FFFFu64 >> ((63 - high) as u64)) & (0xFFFF_FFFF_FFFF_FFFFu64 << low)
}

/// `mask` with every bit from `low` to `high` set where both ends are set.
pub open spec fn fill_spec(mask: u64, low: u64, high: u64) -> u64 {
    let ends = (1u64 << low) | (1u64 << high);
    if mask & ends == ends {
        mask | span_bits(low, high)
    } else {
        mask
    }
}

pub fn fill_span(mask: u64, low: u64, high: u64) -> (r: u64)
    requires
        low <= high < 64,
    ensures
        r == fill_spec(mask, low, high),
{
    let ends = (1u64 << low) | (1u64 << high);
    if mask & ends == ends {
        mask | ((0xFFFF_FFFF_FFFF_FFFFu64 >> (63 - high)) & (0xFFFF_FFFF_FFFF_FFFFu64 << low))
    } else {
        mask
    }
}

/// Filling a span sets exactly the positions between its ends, and only
/// where both ends are present; every other position is left as it was.
pub proof fn lemma_fill_span_bits(mask: u64, low: u64, high: u64, i: u64)
    requires
        low <= high < 64,
        i < 64,
    ensures
        has_bit(fill_spec(mask, low, high), i as int) == (has_bit(mask, i as int) || (has_bit(
            mask,
            low as int,
        ) && has_bit(mask, high as int) && low <= i <= high)),
{
    let ends = (1u64 << low) | (1u64 << high);
    assert((mask & ends == ends) == ((mask >> low) & 1u64 == 1u64 && (mask >> high) & 1u64 == 1u64))
        by (bit_vector)
        requires
            low < 64,
            high < 64,
            ends == (1u64 << low) | (1u64 << high),
    ;
    assert((((mask | ((0xFFFF_FFFF_FFFF_FFFFu64 >> ((63 - high) as u64)) & (0xFFFF_FFFF_FFFF_FFFFu64
        << low))) >> i) & 1u64 == 1u64) == ((mask >> i) & 1u64 == 1u64 || (low <= i && i <= high)))
        by (bit_vector)
        requires
            low <= high,
            high < 64,
            i < 64,
    ;
}

/// The bitmasks after applying `spans` in order.
pub open spec fn apply_spans(v: Seq<u64>, spans: Seq<EquivalenceSpan>) -> Seq<u64>
    decreases spans.len(),
{
    if spans.len() == 0 {
        v
    } else {
        let w = apply_spans(v, spans.drop_last());
        let sp = spans.last();
        w.update(sp.family as int, fill_spec(w[sp.family as int], sp.low, sp.high))
    }
}

/// Whether the report lists a class: unless every observation said it is
/// not public, it is assumed public.
pub open spec fn reported(c: Consistency<bool>) -> bool {
    c != Consistency::Consistent(false)
}

/// One line of the report: a class name and one rendered cell per family.
#[derive(Debug)]
pub struct ReportRow {
    pub name: String,
    pub cells: Vec<String>,
}

pub open spec fn cells_spec(versions: Seq<u64>, maxes: Seq<u64>) -> Seq<Seq<char>> {
    Seq::new(versions.len(), |f: int| render_spec(versions[f], maxes[f] as int))
}

/// The report rows of `entries`, in order.
pub open spec fn report_spec(entries: Seq<CatalogEntry>, maxes: Seq<u64>) -> Seq<(Seq<char>, Seq<Seq<char>>)>
    decreases entries.len(),
{
    if entries.len() == 0 {
        Seq::empty()
    } else {
        let prev = report_spec(entries.drop_last(), maxes);
        let e = entries.last();
        if reported(e.is_public) {
            prev.push((e.name@, cells_spec(e.versions@, maxes)))
        } else {
            prev
        }
    }
}

pub open spec fn row_view(r: ReportRow) -> (Seq<char>, Seq<Seq<char>>) {
    (r.name@, r.cells@.map_values(|c: String| c@))
}

impl Catalog {
    /// Applies the declared equivalences to every class, in order.
    pub fn apply_equivalences(&mut self, spans: &[EquivalenceSpan])
        requires
            old(self).wf(),
            forall|k: int| 0 <= k < spans@.len() ==> (#[trigger] spans@[k]).valid(old(self).families as nat),
        ensures
            final(self).wf(),
            final(self).families == old(self).families,
            final(self).entries@.len() == old(self).entries@.len(),
            forall|i: int| 0 <= i < final(self).entries@.len() ==> {
                &&& (#[trigger] final(self).entries@[i]).name@ == old(self).entries@[i].name@
                &&& final(self).entries@[i].is_public == old(self).entries@[i].is_public
                &&& final(self).entries@[i].versions@ == apply_spans(old(self).entries@[i].versions@, spans@)
            },
    {
        let ghost start = *self;
        let mut i: usize = 0;
        while i < self.entries.len()
            invariant
                self.wf(),
                self.families == start.families,
                self.entries@.len() == start.entries@.len(),
                i <= self.entries@.len(),
                forall|k: int| 0 <= k < spans@.len() ==> (#[trigger] spans@[k]).valid(start.families as nat),
                forall|j: int| 0 <= j < self.entries@.len() ==> {
                    &&& (#[trigger] self.entries@[j]).name@ == start.entries@[j].name@
                    &&& self.entries@[j].is_public == start.entries@[j].is_public
                    &&& self.entries@[j].versions@ == if j < i {
                        apply_spans(start.entries@[j].versions@, spans@)
                    } else {
                        start.entries@[j].versions@
                    }
                },
            decreases self.entries@.len() - i,
        {
            let mut versions: Vec<u64> = Vec::new();
            let n = self.families;
            while versions.len() < n
                invariant
                    i < self.entries@.len(),
                    n == self.families,
                    self.entries@[i as int].versions@.len() == n,
                    versions@.len() <= n,
                    forall|j: int| 0 <= j < versions@.len() ==> versions@[j] == self.entries@[i as int].versions@[j],
                decreases n - versions@.len(),
            {
                let v = self.entries[i].versions[versions.len()];
                versions.push(v);
            }
            assert(versions@ =~= start.entries@[i as int].versions@);
            let mut k: usize = 0;
            while k < spans.len()
                invariant
                    k <= spans@.len(),
                    versions@.len() == n,
                    n == start.families,
                    forall|q: int| 0 <= q < spans@.len() ==> (#[trigger] spans@[q]).valid(start.families as nat),
                    versions@ == apply_spans(start.entries@[i as int].versions@, spans@.subrange(0, k as int)),
                decreases spans@.len() - k,
            {
                let sp = spans[k];
                let m = fill_span(versions[sp.family], sp.low, sp.high);
                versions.set(sp.family, m);
                proof {
                    let pre = spans@.subrange(0, k + 1);
                    assert(pre.drop_last() =~= spans@.subrange(0, k as int));
                }
                k = k + 1;
            }
            assert(spans@.subrange(0, spans@.len() as int) =~= spans@);
            let name = self.entries[i].name.clone();
            let vis = self.entries[i].is_public;
            let ghost before = *self;
            self.entries.set(i, CatalogEntry { name, is_public: vis, versions });
            proof {
                assert forall|a: int, b: int| 0 <= a < b < self.entries@.len() implies lex_lt(#[trigger] self.key(a), #[trigger] self.key(b)) by {
                    assert(self.key(a) == before.key(a) && self.key(b) == before.key(b));
                }
                assert forall|j: int| 0 <= j < self.entries@.len() implies (#[trigger] self.entries@[j]).versions@.len() == self.families by {
                    if j != i {
                        assert(self.entries@[j] == before.entries@[j]);
                    }
                }
            }
            i = i + 1;
        }
    }

    /// The report: one row per listed class, in name order, each with one
    /// cell per family rendered against that family's declared maximum.
    pub fn rows(&self, maxes: &[u64]) -> (r: Vec<ReportRow>)
        requires
            self.wf(),
            maxes@.len() == self.families,
        ensures
            r@.map_values(|x: ReportRow| row_view(x)) == report_spec(self.entries@, maxes@),
    {
        let mut out: Vec<ReportRow> = Vec::new();
        let mut i: usize = 0;
        assert(self.entries@.subrange(0, 0) =~= Seq::<CatalogEntry>::empty());
        while i < self.entries.len()
            invariant
                self.wf(),
                maxes@.len() == self.families,
                i <= self.entries@.len(),
                out@.map_values(|x: ReportRow| row_view(x)) == report_spec(self.entries@.subrange(0, i as int), maxes@),
            decreases self.entries@.len() - i,
        {
            let e = &self.entries[i];
            let ghost pre = self.entries@.subrange(0, i + 1);
            assert(pre.drop_last() =~= self.entries@.subrange(0, i as int));
            assert(pre.last() == self.entries@[i as int]);
            let show = match e.is_public {
                Consistency::Consistent(v) => v,
                _ => true,
            };
            if show {
                let mut cells: Vec<String> = Vec::new();
                let mut f: usize = 0;
                while f < self.families
                    invariant
                        i < self.entries@.len(),
                        e == self.entries@[i as int],
                        e.versions@.len() == self.families,
                        maxes@.len() == self.families,
                        f <= self.families,
                        cells@.len() == f,
                        forall|g: int| 0 <= g < f ==> (#[trigger] cells@[g])@ == render_spec(e.versions@[g], maxes@[g] as int),
                    decreases self.families - f,
                {
                    cells.push(render_versions(e.versions[f], maxes[f]));
                    f = f + 1;
                }
                let row = ReportRow { name: e.name.clone(), cells };
                proof {
                    assert(row.cells@.map_values(|c: String| c@) =~= cells_spec(e.versions@, maxes@));
                }
                let ghost o = out@;
                out.push(row);
                proof {
                    assert(out@.map_values(|x: ReportRow| row_view(x)) =~= o.map_values(|x: ReportRow| row_view(x)).push(row_view(row)));
                }
            }
            i = i + 1;
        }
        assert(self.entries@.subrange(0, self.entries@.len() as int) =~= self.entries@);
        out
    }
}

/// Setting a bit leaves it set.
pub proof fn lemma_set_bit(x: u64, bit: u64)
    requires
        bit < 64,
    ensures
        has_bit(x | (1u64 << bit), bit as int),
{
    assert(((x | (1u64 << bit)) >> bit) & 1u64 == 1u64) by (bit_vector)
        requires
            bit < 64,
    ;
}

/// The bitmask of `family` in an entry's facts.
pub open spec fn mask_in(m: EntryModel, family: int) -> u64 {
    m.1[family]
}

/// The visibility in an entry's facts.
pub open spec fn vis_in(m: EntryModel) -> Consistency<bool> {
    m.0
}

/// `c` records a class whose name has the UTF-8 bytes `key` as seen at
/// position `bit` of `family`, with at least one visibility observed.
pub open spec fn observed(c: Catalog, key: Seq<u8>, family: int, bit: int) -> bool {
    exists|name: Seq<char>|
        key_of(name) == key && #[trigger] c.get_spec(name) is Some && has_bit(
            mask_in(c.get_spec(name)->0, family),
            bit,
        ) && !(vis_in(c.get_spec(name)->0) is Unobserved)
}

/// What ingestion keeps of the catalog `old`: every class stays; one whose
/// name is not among `paths` is unchanged; a conflict stays as it was.
pub open spec fn keeps(new: Catalog, old: Catalog, paths: Seq<Seq<u8>>) -> bool {
    &&& forall|k: Seq<char>| old.get_spec(k) is Some ==> #[trigger] new.get_spec(k) is Some
    &&& forall|k: Seq<char>|
        !paths.contains(key_of(k)) ==> #[trigger] new.get_spec(k) == old.get_spec(k)
    &&& forall|k: Seq<char>|
        old.get_spec(k) is Some && vis_in(old.get_spec(k)->0) is Conflicting ==> vis_in(
            #[trigger] new.get_spec(k)->0,
        ) == vis_in(old.get_spec(k)->0)
}

/// The raw name of the entry that holds class `name`.
pub open spec fn class_key(name: Seq<char>) -> Seq<u8> {
    key_of(name + ".class"@)
}

/// Whether the class file `b` is public, as its access flags say.
pub open spec fn public_in(b: Seq<u8>) -> bool {
    (be16(b, header_start(b)) as u16) & ACC_PUBLIC != 0
}

/// What `c` records for `name` before an observation: its facts, or the
/// fresh state.
pub open spec fn facts_or_fresh(c: Catalog, name: Seq<char>) -> EntryModel {
    match c.get_spec(name) {
        Some(m) => m,
        None => c.fresh(),
    }
}

/// The facts after one observation at `bit` of `family` with visibility `v`.
pub open spec fn ingested(prev: EntryModel, v: bool, family: int, bit: u64) -> EntryModel {
    (prev.0.merged(v), prev.1.update(family, prev.1[family] | (1u64 << bit)))
}

/// Every class path of `jar` names an entry that reads and decodes.
pub open spec fn jar_classes_decode(jar: Jar) -> bool {
    &&& jar.all_usable()
    &&& forall|name: Seq<char>|
        #[trigger] class_paths(jar.entries()).contains(key_of(name)) ==> {
            &&& jar.entries().contains(class_key(name))
            &&& jar.reads(class_key(name))
            &&& class_decodes(jar.data(class_key(name)))
        }
}

/// A raw name with a class stem is that stem followed by ".class".
proof fn lemma_stem_suffix(a: Seq<u8>)
    requires
        class_stem(a) is Some,
    ensures
        a == class_stem(a)->0 + class_suffix(),
{
    assert(a =~= a.subrange(0, a.len() - 6) + a.subrange(a.len() - 6, a.len() as int));
}

/// Every class path comes from some entry.
proof fn lemma_class_paths_from(names: Seq<Seq<u8>>, k: int)
    requires
        0 <= k < class_paths(names).len(),
    ensures
        exists|j: int| 0 <= j < names.len() && class_stem(#[trigger] names[j]) == Some(class_paths(names)[k]),
    decreases names.len(),
{
    let prev = class_paths(names.drop_last());
    if k < prev.len() {
        lemma_class_paths_from(names.drop_last(), k);
        let j = choose|j: int| 0 <= j < names.drop_last().len() && class_stem(#[trigger] names.drop_last()[j]) == Some(prev[k]);
        assert(names[j] == names.drop_last()[j]);
    } else {
        assert(class_stem(names[names.len() - 1]) == Some(class_paths(names)[k]));
    }
}

/// Distinct raw names give distinct class paths.
proof fn lemma_class_paths_distinct(names: Seq<Seq<u8>>)
    requires
        names.no_duplicates(),
    ensures
        class_paths(names).no_duplicates(),
    decreases names.len(),
{
    if names.len() > 0 {
        let d = names.drop_last();
        assert(d.no_duplicates()) by {
            assert forall|a: int, b: int| 0 <= a < d.len() && 0 <= b < d.len() && a != b implies d[a] != d[b] by {
                assert(d[a] == names[a] && d[b] == names[b]);
            }
        }
        lemma_class_paths_distinct(d);
        let prev = class_paths(d);
        match class_stem(names.last()) {
            Some(st) => {
                assert forall|a: int, b: int|
                    0 <= a < prev.len() + 1 && 0 <= b < prev.len() + 1 && a != b implies class_paths(names)[a] != class_paths(names)[b] by {
                    let cp = class_paths(names);
                    if a == prev.len() || b == prev.len() {
                        let o = if a == prev.len() { b } else { a };
                        if cp[o] == st {
                            lemma_class_paths_from(d, o);
                            let j = choose|j: int| 0 <= j < d.len() && class_stem(#[trigger] d[j]) == Some(prev[o]);
                            lemma_stem_suffix(d[j]);
                            lemma_stem_suffix(names.last());
                            assert(names[j] == names[names.len() - 1]);
                        }
                    } else {
                        assert(cp[a] == prev[a] && cp[b] == prev[b]);
                    }
                }
            },
            None => {},
        }
    }
}

impl Catalog {
    /// Folds every class of `jar` into the catalog: its presence at `bit` of
    /// `family`, and its visibility merged into what was recorded. Stops at
    /// the first class that cannot be read; classes it never reached are
    /// unchanged either way.
    pub fn ingest_jar(&mut self, jar: &mut Jar, family: usize, bit: u64) -> (r: Result<(), Error>)
        requires
            old(self).wf(),
            old(jar).wf(),
            family < old(self).families,
            bit < 64,
        ensures
            final(self).wf(),
            final(self).families == old(self).families,
            final(jar).same_as(*old(jar)),
            final(jar).wf(),
            keeps(*final(self), *old(self), class_paths(old(jar).entries())),
            r is Ok ==> forall|name: Seq<char>|
                #[trigger] class_paths(old(jar).entries()).contains(key_of(name)) ==> final(self).get_spec(name)
                    == Some(
                    ingested(
                        facts_or_fresh(*old(self), name),
                        public_in(old(jar).data(class_key(name))),
                        family as int,
                        bit,
                    ),
                ),
            jar_classes_decode(*old(jar)) ==> r is Ok,
    {
        let ghost jar0 = *jar;
        let ghost all = class_paths(jar0.entries());
        proof {
            jar0.lemma_wf();
            lemma_class_paths_distinct(jar0.entries());
        }
        let names = jar.classes()?;
        let ghost paths = names@.map_values(|s: String| key_of(s@));
        assert(paths == all);
        let mut i: usize = 0;
        while i < names.len()
            invariant
                self.wf(),
                self.families == old(self).families,
                family < self.families,
                bit < 64,
                i <= names@.len(),
                paths == names@.map_values(|s: String| key_of(s@)),
                paths == all,
                all.no_duplicates(),
                all == class_paths(jar0.entries()),
                jar0 == *old(jar),
                jar.same_as(jar0),
                jar.wf(),
                keeps(*self, *old(self), all),
                forall|k: Seq<char>|
                    !paths.subrange(0, i as int).contains(key_of(k)) ==> #[trigger] self.get_spec(k)
                        == old(self).get_spec(k),
                jar_classes_decode(jar0) ==> jar0.all_usable(),
                forall|j: int|
                    0 <= j < i ==> self.get_spec(#[trigger] names@[j]@) == Some(
                        ingested(
                            facts_or_fresh(*old(self), names@[j]@),
                            public_in(jar0.data(class_key(names@[j]@))),
                            family as int,
                            bit,
                        ),
                    ),
            decreases names@.len() - i,
        {
            let name = names[i].as_str();
            assert(paths[i as int] == key_of(name@));
            assert(all.contains(key_of(name@)));
            let class = match jar.read_class(name) {
                Ok(c) => c,
                Err(e) => return Err(e),
            };
            let ghost before = *self;
            assert(!paths.subrange(0, i as int).contains(key_of(name@))) by {
                if paths.subrange(0, i as int).contains(key_of(name@)) {
                    let j = choose|j: int| 0 <= j < i && paths.subrange(0, i as int)[j] == key_of(name@);
                    assert(paths[j] == paths[i as int]);
                }
            }
            assert(before.get_spec(name@) == old(self).get_spec(name@));
            assert(class.is_public() == public_in(jar0.data(class_key(name@))));
            self.observe(name, family, bit, class.is_public());
            proof {
                assert forall|k: Seq<char>| old(self).get_spec(k) is Some implies #[trigger] self.get_spec(k) is Some by {
                    assert(before.get_spec(k) is Some);
                }
                assert forall|k: Seq<char>| !all.contains(key_of(k)) implies #[trigger] self.get_spec(k) == old(self).get_spec(k) by {
                    assert(k != name@);
                    assert(before.get_spec(k) == old(self).get_spec(k));
                }
                assert forall|k: Seq<char>|
                    old(self).get_spec(k) is Some && vis_in(old(self).get_spec(k)->0) is Conflicting implies vis_in(
                        #[trigger] self.get_spec(k)->0,
                    ) == vis_in(old(self).get_spec(k)->0) by {
                    assert(before.get_spec(k) is Some);
                    assert(vis_in(before.get_spec(k)->0) == vis_in(old(self).get_spec(k)->0));
                }
                assert forall|k: Seq<char>|
                    !paths.subrange(0, i + 1).contains(key_of(k)) implies #[trigger] self.get_spec(k) == old(self).get_spec(k) by {
                    if k == name@ {
                        assert(paths.subrange(0, i + 1)[i as int] == key_of(k));
                    }
                    assert forall|j: int| 0 <= j < i implies paths.subrange(0, i as int)[j] != key_of(k) by {
                        assert(paths.subrange(0, i as int)[j] == paths.subrange(0, i + 1)[j]);
                    }
                }
                assert forall|j: int|
                    0 <= j < i + 1 implies self.get_spec(#[trigger] names@[j]@) == Some(
                        ingested(
                            facts_or_fresh(*old(self), names@[j]@),
                            public_in(jar0.data(class_key(names@[j]@))),
                            family as int,
                            bit,
                        ),
                    ) by {
                    if j < i {
                        assert(paths[j] != paths[i as int]);
                        assert(names@[j]@ != name@);
                    }
                }
            }
            i = i + 1;
        }
        proof {
            assert(paths.subrange(0, names@.len() as int) =~= paths);
            assert forall|name: Seq<char>|
                #[trigger] all.contains(key_of(name)) implies self.get_spec(name) == Some(
                    ingested(
                        facts_or_fresh(*old(self), name),
                        public_in(jar0.data(class_key(name))),
                        family as int,
                        bit,
                    ),
                ) by {
                let j = choose|j: int| 0 <= j < all.len() && all[j] == key_of(name);
                lemma_key_injective(names@[j]@, name);
            }
        }
        Ok(())
    }
}

} // verus!
