//! The language registry: which analyzer handles which language, found by
//! name or by file extension.
use std::sync::Arc;
use vstd::prelude::*;
use crate::ast::FunctionDetail;
use crate::metrics::FileMetrics;
use crate::text::{ascii_lowercase, chars_of, lower_all, str_eq};

verus! {

/// Which tier produced a given `FileMetrics`. Exporters use it to decide
/// which columns are meaningful.
#[derive(Debug, Clone, Copy, PartialEq, Eq, Hash, Structural)]
pub enum Tier {
    Regex,
    TreeSitter,
}

/// Analyzers consume the bytes of one file and produce its metrics. Both
/// tiers implement it, so the engine dispatches uniformly.
pub trait Analyzer: Send + Sync {
    fn analyze(&self, path: &str, source: &[u8]) -> (m: FileMetrics)
        requires
            crate::tokenizer::line_count(source@) <= u32::MAX,
        ensures
            m.path@ == path@,
            m.bytes == source@.len(),
            m.lines == m.code + m.comments + m.blanks,
    ;

    /// The per-function breakdown of the file, or `None` when the analyzer
    /// has no per-function data.
    fn explain(&self, path: &str, source: &[u8]) -> Option<Vec<FunctionDetail>>;
}

/// A registered language and the analyzer that produces metrics for it.
pub struct LanguageEntry {
    pub name: String,
    pub extensions: Vec<String>,
    pub filenames: Vec<String>,
    pub tier: Tier,
    pub analyzer: Arc<dyn Analyzer>,
}

/// Holds all registered languages, in registration order, and the
/// extension index. Extensions are indexed in ASCII lower case; the entry
/// an extension leads to is the last registered entry that claimed it, and
/// always a registered one: when an entry replaces a language of its name,
/// the extensions only the replaced language claimed lead nowhere.
pub struct Registry {
    entries: Vec<Arc<LanguageEntry>>,
    by_ext: Vec<(String, Arc<LanguageEntry>)>,
}

/// `e` claims the (lower-cased) extension `k`.
pub open spec fn claims(e: LanguageEntry, k: Seq<char>) -> bool {
    exists|j: int| 0 <= j < e.extensions@.len() && lower_all((#[trigger] e.extensions@[j])@) == k
}

/// `after` is `before` with `entry` registered: the entry takes the place
/// of a language of the same name, or comes last; each extension it
/// claims leads to it; an extension that led to the replaced language and
/// that the entry does not claim is dropped; every other extension leads
/// where it led.
pub open spec fn registered(before: Registry, after: Registry, entry: LanguageEntry) -> bool {
    &&& (exists|i: int|
        0 <= i < before.entries().len() && (#[trigger] before.entries()[i]).name@ == entry.name@)
        ==> after.entries() == before.entries().update(
        choose|i: int|
            0 <= i < before.entries().len() && (#[trigger] before.entries()[i]).name@ == entry.name@,
        entry,
    )
    &&& (forall|i: int|
        0 <= i < before.entries().len() ==> (#[trigger] before.entries()[i]).name@ != entry.name@)
        ==> after.entries() == before.entries().push(entry)
    &&& forall|k: Seq<char>|
        #[trigger] after.ext_map().contains_key(k) <==> (claims(entry, k) || (before.ext_map().contains_key(k)
            && before.ext_map()[k].name@ != entry.name@))
    &&& forall|k: Seq<char>|
        #[trigger] after.ext_map().contains_key(k) ==> after.ext_map()[k] == if claims(entry, k) {
            entry
        } else {
            before.ext_map()[k]
        }
}

/// The map of index rows, key to entry.
spec fn rows_map(rows: Seq<(String, Arc<LanguageEntry>)>) -> Map<Seq<char>, LanguageEntry> {
    Map::new(
        |k: Seq<char>| exists|j: int| 0 <= j < rows.len() && (#[trigger] rows[j]).0@ == k,
        |k: Seq<char>| *rows[choose|j: int| 0 <= j < rows.len() && (#[trigger] rows[j]).0@ == k].1,
    )
}

/// No two index rows share a key.
spec fn rows_distinct(rows: Seq<(String, Arc<LanguageEntry>)>) -> bool {
    forall|a: int, b: int| 0 <= a < b < rows.len() ==> (#[trigger] rows[a]).0@ != (#[trigger] rows[b]).0@
}

proof fn lemma_rows_map_at(rows: Seq<(String, Arc<LanguageEntry>)>, j: int)
    requires
        rows_distinct(rows),
        0 <= j < rows.len(),
    ensures
        rows_map(rows).contains_key(rows[j].0@),
        rows_map(rows)[rows[j].0@] == *rows[j].1,
{
    let k = rows[j].0@;
    assert(rows_map(rows).dom().contains(k));
    let c = choose|c: int| 0 <= c < rows.len() && (#[trigger] rows[c]).0@ == k;
    if c < j {
        assert(rows[c].0@ != rows[j].0@);
    } else if j < c {
        assert(rows[j].0@ != rows[c].0@);
    }
}

/// The rows that do not lead to a language named `name`, in order.
spec fn keep_rows(rows: Seq<(String, Arc<LanguageEntry>)>, name: Seq<char>) -> Seq<(String, Arc<LanguageEntry>)>
    decreases rows.len(),
{
    if rows.len() == 0 {
        rows
    } else {
        let p = keep_rows(rows.drop_last(), name);
        if (*rows.last().1).name@ != name {
            p.push(rows.last())
        } else {
            p
        }
    }
}

proof fn lemma_keep_prefix(rows: Seq<(String, Arc<LanguageEntry>)>, name: Seq<char>, j: int)
    requires
        0 <= j <= rows.len(),
        rows_distinct(rows),
    ensures
        ({
            let kept = keep_rows(rows.take(j), name);
            &&& forall|t: int| #![trigger kept[t]] 0 <= t < kept.len() ==> exists|q: int| #![trigger rows[q]] 0 <= q < j && kept[t] == rows[q]
            &&& forall|q: int|
                0 <= q < j && (*(#[trigger] rows[q]).1).name@ != name ==> exists|t: int|
                    0 <= t < kept.len() && kept[t] == rows[q]
            &&& forall|t: int| 0 <= t < kept.len() ==> (*(#[trigger] kept[t]).1).name@ != name
            &&& rows_distinct(kept)
        }),
    decreases j,
{
    if j > 0 {
        lemma_keep_prefix(rows, name, j - 1);
        let pre = rows.take(j);
        assert(pre.drop_last() =~= rows.take(j - 1));
        assert(pre.last() == rows[j - 1]);
        let before = keep_rows(rows.take(j - 1), name);
        let kept = keep_rows(pre, name);
        if (*rows[j - 1].1).name@ != name {
            lemma_kept_push(rows, before, kept, j - 1, name);
            assert forall|t: int| 0 <= t < kept.len() implies (*(#[trigger] kept[t]).1).name@ != name by {
                if t < before.len() {
                    assert(kept[t] == before[t]);
                }
            }
        } else {
            assert(kept == before);
        }
    } else {
        assert(rows.take(0) =~= Seq::<(String, Arc<LanguageEntry>)>::empty());
    }
}

proof fn lemma_keep_map(rows: Seq<(String, Arc<LanguageEntry>)>, name: Seq<char>, ents: Seq<LanguageEntry>)
    requires
        rows_distinct(rows),
        forall|j: int| 0 <= j < rows.len() ==> ents.contains(*(#[trigger] rows[j]).1),
    ensures
        ({
            let kept = keep_rows(rows, name);
            &&& rows_distinct(kept)
            &&& forall|j: int| 0 <= j < kept.len() ==> ents.contains(*(#[trigger] kept[j]).1)
            &&& forall|j: int| 0 <= j < kept.len() ==> (*(#[trigger] kept[j]).1).name@ != name
            &&& forall|k: Seq<char>|
                #[trigger] rows_map(kept).contains_key(k) <==> (rows_map(rows).contains_key(k)
                    && rows_map(rows)[k].name@ != name)
            &&& forall|k: Seq<char>|
                #[trigger] rows_map(kept).contains_key(k) ==> rows_map(kept)[k] == rows_map(rows)[k]
        }),
{
    assert(rows.take(rows.len() as int) =~= rows);
    lemma_keep_prefix(rows, name, rows.len() as int);
    let kept = keep_rows(rows, name);
    let m0 = rows_map(rows);
    assert forall|q: int| 0 <= q < kept.len() implies ents.contains(*(#[trigger] kept[q]).1) by {
        let r = choose|r: int| 0 <= r < rows.len() && kept[q] == #[trigger] rows[r];
        assert(kept[q] == rows[r]);
    }
    assert forall|k: Seq<char>| #[trigger] rows_map(kept).contains_key(k) <==> (m0.contains_key(k)
        && m0[k].name@ != name) by {
        if rows_map(kept).contains_key(k) {
            let t = choose|t: int| 0 <= t < kept.len() && (#[trigger] kept[t]).0@ == k;
            let r = choose|r: int| 0 <= r < rows.len() && kept[t] == #[trigger] rows[r];
            assert(kept[t] == rows[r]);
            lemma_rows_map_at(rows, r);
        }
        if m0.contains_key(k) && m0[k].name@ != name {
            let r = choose|r: int| 0 <= r < rows.len() && (#[trigger] rows[r]).0@ == k;
            lemma_rows_map_at(rows, r);
            let t = choose|t: int| 0 <= t < kept.len() && kept[t] == rows[r];
            assert(kept[t].0@ == k);
        }
    }
    assert forall|k: Seq<char>| #[trigger] rows_map(kept).contains_key(k) implies rows_map(kept)[k] == m0[k] by {
        let t = choose|t: int| 0 <= t < kept.len() && (#[trigger] kept[t]).0@ == k;
        let r = choose|r: int| 0 <= r < rows.len() && kept[t] == #[trigger] rows[r];
        assert(kept[t] == rows[r]);
        lemma_rows_map_at(rows, r);
        lemma_rows_map_at(kept, t);
    }
}

proof fn lemma_kept_push(
    rows: Seq<(String, Arc<LanguageEntry>)>,
    before: Seq<(String, Arc<LanguageEntry>)>,
    kept: Seq<(String, Arc<LanguageEntry>)>,
    j: int,
    name: Seq<char>,
)
    requires
        0 <= j < rows.len(),
        rows_distinct(rows),
        kept == before.push(rows[j]),
        forall|t: int| #![trigger before[t]] 0 <= t < before.len() ==> exists|q: int| #![trigger rows[q]] 0 <= q < j && before[t] == rows[q],
        forall|q: int|
            0 <= q < j && (*(#[trigger] rows[q]).1).name@ != name ==> exists|t: int|
                0 <= t < before.len() && before[t] == rows[q],
        rows_distinct(before),
    ensures
        forall|t: int| #![trigger kept[t]] 0 <= t < kept.len() ==> exists|q: int| #![trigger rows[q]] 0 <= q < j + 1 && kept[t] == rows[q],
        forall|q: int|
            0 <= q < j + 1 && (*(#[trigger] rows[q]).1).name@ != name ==> exists|t: int|
                0 <= t < kept.len() && kept[t] == rows[q],
        rows_distinct(kept),
{
    let n = before.len() as int;
    assert forall|t: int| #![trigger kept[t]] 0 <= t < kept.len() implies exists|q: int| #![trigger rows[q]] 0 <= q < j + 1 && kept[t] == rows[q] by {
        if t < n {
            assert(kept[t] == before[t]);
        } else {
            assert(kept[t] == rows[j]);
        }
    }
    assert forall|q: int|
        0 <= q < j + 1 && (*(#[trigger] rows[q]).1).name@ != name implies exists|t: int|
        0 <= t < kept.len() && kept[t] == rows[q] by {
        if q < j {
            let t = choose|t: int| 0 <= t < before.len() && before[t] == rows[q];
            assert(kept[t] == rows[q]);
        } else {
            assert(kept[n] == rows[q]);
        }
    }
    assert forall|a: int, b: int| 0 <= a < b < kept.len() implies (#[trigger] kept[a]).0@ != (#[trigger] kept[b]).0@ by {
        if b < n {
            assert(before[a].0@ != before[b].0@);
        } else {
            assert(kept[a] == before[a]);
            let qa = choose|q: int| 0 <= q < j && before[a] == #[trigger] rows[q];
            assert(rows[qa].0@ != rows[j].0@);
        }
    }
}

impl Registry {
    /// The registered languages, in registration order.
    pub closed spec fn entries(&self) -> Seq<LanguageEntry> {
        self.entries@.map_values(|a: Arc<LanguageEntry>| *a)
    }

    /// The extension index: lower-cased extension to entry.
    pub closed spec fn ext_map(&self) -> Map<Seq<char>, LanguageEntry> {
        rows_map(self.by_ext@)
    }

    /// No two languages share a name; no two index rows share a key; every
    /// row leads to a registered language.
    pub closed spec fn wf(&self) -> bool {
        &&& forall|a: int, b: int|
            0 <= a < b < self.entries@.len() ==> (#[trigger] self.entries@[a]).name@ != (#[trigger] self.entries@[b]).name@
        &&& rows_distinct(self.by_ext@)
        &&& forall|j: int| 0 <= j < self.by_ext@.len() ==> self.entries().contains(*(#[trigger] self.by_ext@[j]).1)
    }

    /// An empty registry.
    pub fn new() -> (r: Self)
        ensures
            r.wf(),
            r.entries() == Seq::<LanguageEntry>::empty(),
            r.ext_map() == Map::<Seq<char>, LanguageEntry>::empty(),
    {
        let r = Registry { entries: Vec::new(), by_ext: Vec::new() };
        assert(r.entries() =~= Seq::<LanguageEntry>::empty());
        assert(r.ext_map() =~= Map::<Seq<char>, LanguageEntry>::empty());
        r
    }

    proof fn lemma_ext_map_at(&self, j: int)
        requires
            self.wf(),
            0 <= j < self.by_ext@.len(),
        ensures
            self.ext_map().contains_key(self.by_ext@[j].0@),
            self.ext_map()[self.by_ext@[j].0@] == *self.by_ext@[j].1,
    {
        lemma_rows_map_at(self.by_ext@, j);
    }

    /// Index `ext` (lower-cased) to `entry`, replacing what it led to.
    fn index_extension(&mut self, key: String, entry: Arc<LanguageEntry>)
        requires
            old(self).wf(),
            old(self).entries().contains(*entry),
        ensures
            final(self).wf(),
            final(self).entries@ == old(self).entries@,
            final(self).ext_map() == old(self).ext_map().insert(key@, *entry),
    {
        let ghost before = self.ext_map();
        let ghost ge = entry;
        let mut j: usize = 0;
        while j < self.by_ext.len()
            invariant
                j <= self.by_ext@.len(),
                self.wf(),
                ge == entry,
                self.entries().contains(*ge),
                self.ext_map() == before,
                before == old(self).ext_map(),
                self.entries@ == old(self).entries@,
                forall|q: int| 0 <= q < j ==> (#[trigger] self.by_ext@[q]).0@ != key@,
            decreases self.by_ext@.len() - j,
        {
            if str_eq(self.by_ext[j].0.as_str(), key.as_str()) {
                let ghost old_rows = self.by_ext@;
                assert(forall|q: int|
                    0 <= q < old_rows.len() ==> self.entries().contains(*(#[trigger] old_rows[q]).1));
                self.by_ext.set(j, (key, entry));
                proof {
                    assert forall|q: int| 0 <= q < self.by_ext@.len() implies self.entries().contains(
                        *(#[trigger] self.by_ext@[q]).1,
                    ) by {
                        if q != j {
                            assert(old_rows[q] == self.by_ext@[q]);
                        } else {
                            assert(self.by_ext@[q].1 == ge);
                        }
                    }
                    assert forall|a: int, b: int| 0 <= a < b < self.by_ext@.len() implies (#[trigger] self.by_ext@[a]).0@
                        != (#[trigger] self.by_ext@[b]).0@ by {
                        assert(old_rows[a].0@ != old_rows[b].0@);
                    }
                    assert forall|k: Seq<char>| #[trigger] self.ext_map().contains_key(k)
                        <==> before.insert(key@, *entry).contains_key(k) by {
                        if before.contains_key(k) {
                            let c = choose|c: int| 0 <= c < old_rows.len() && (#[trigger] old_rows[c]).0@ == k;
                            assert(self.by_ext@[c].0@ == k);
                        }
                        if self.ext_map().contains_key(k) {
                            let c = choose|c: int| 0 <= c < self.by_ext@.len() && (#[trigger] self.by_ext@[c]).0@ == k;
                            if c != j {
                                assert(old_rows[c].0@ == k);
                            }
                        }
                    }
                    assert forall|k: Seq<char>| #[trigger] self.ext_map().contains_key(k) implies self.ext_map()[k]
                        == before.insert(key@, *entry)[k] by {
                        let c = choose|c: int| 0 <= c < self.by_ext@.len() && (#[trigger] self.by_ext@[c]).0@ == k;
                        self.lemma_ext_map_at(c);
                        if c != j {
                            assert(old_rows[c] == self.by_ext@[c]);
                            let d = choose|d: int| 0 <= d < old_rows.len() && (#[trigger] old_rows[d]).0@ == k;
                            assert(d == c);
                        }
                    }
                    assert(self.ext_map() =~= before.insert(key@, *entry));
                    assert(self.ext_map() == old(self).ext_map().insert(key@, *entry));
                }
                return;
            }
            j += 1;
        }
        let ghost old_rows = self.by_ext@;
        assert(forall|q: int| 0 <= q < old_rows.len() ==> self.entries().contains(*(#[trigger] old_rows[q]).1));
        self.by_ext.push((key, entry));
        proof {
            assert forall|q: int| 0 <= q < self.by_ext@.len() implies self.entries().contains(
                *(#[trigger] self.by_ext@[q]).1,
            ) by {
                if q < old_rows.len() {
                    assert(old_rows[q] == self.by_ext@[q]);
                } else {
                    assert(self.by_ext@[q].1 == ge);
                }
            }
            assert forall|a: int, b: int| 0 <= a < b < self.by_ext@.len() implies (#[trigger] self.by_ext@[a]).0@
                != (#[trigger] self.by_ext@[b]).0@ by {
                if b < old_rows.len() {
                    assert(old_rows[a].0@ != old_rows[b].0@);
                }
            }
            let n = old_rows.len() as int;
            assert forall|k: Seq<char>| #[trigger] self.ext_map().contains_key(k)
                <==> before.insert(key@, *entry).contains_key(k) by {
                if before.contains_key(k) {
                    let c = choose|c: int| 0 <= c < old_rows.len() && (#[trigger] old_rows[c]).0@ == k;
                    assert(self.by_ext@[c].0@ == k);
                }
                if k == key@ {
                    assert(self.by_ext@[n].0@ == k);
                }
                if self.ext_map().contains_key(k) {
                    let c = choose|c: int| 0 <= c < self.by_ext@.len() && (#[trigger] self.by_ext@[c]).0@ == k;
                    if c != n {
                        assert(old_rows[c].0@ == k);
                    }
                }
            }
            assert forall|k: Seq<char>| #[trigger] self.ext_map().contains_key(k) implies self.ext_map()[k]
                == before.insert(key@, *entry)[k] by {
                let c = choose|c: int| 0 <= c < self.by_ext@.len() && (#[trigger] self.by_ext@[c]).0@ == k;
                self.lemma_ext_map_at(c);
                if c != n {
                    assert(old_rows[c] == self.by_ext@[c]);
                    let d = choose|d: int| 0 <= d < old_rows.len() && (#[trigger] old_rows[d]).0@ == k;
                    assert(d == c);
                }
            }
            assert(self.ext_map() =~= before.insert(key@, *entry));
        }
    }

    /// Drop every index row that leads to a language named `name`.
    fn drop_rows_named(&mut self, name: &str)
        requires
            old(self).wf(),
        ensures
            final(self).wf(),
            final(self).entries@ == old(self).entries@,
            forall|k: Seq<char>|
                #[trigger] final(self).ext_map().contains_key(k) <==> (old(self).ext_map().contains_key(k)
                    && old(self).ext_map()[k].name@ != name@),
            forall|k: Seq<char>|
                #[trigger] final(self).ext_map().contains_key(k) ==> final(self).ext_map()[k] == old(
                    self,
                ).ext_map()[k],
            forall|j: int| 0 <= j < final(self).by_ext@.len() ==> (*(#[trigger] final(self).by_ext@[j]).1).name@ != name@,
    {
        let ghost rows = self.by_ext@;
        let mut kept: Vec<(String, Arc<LanguageEntry>)> = Vec::new();
        let mut j: usize = 0;
        proof {
            assert(rows.take(0) =~= Seq::<(String, Arc<LanguageEntry>)>::empty());
        }
        while j < self.by_ext.len()
            invariant
                j <= rows.len(),
                self.by_ext@ == rows,
                kept@ == keep_rows(rows.take(j as int), name@),
            decreases rows.len() - j,
        {
            proof {
                assert(rows.take(j + 1).drop_last() =~= rows.take(j as int));
            }
            if !str_eq(self.by_ext[j].1.name.as_str(), name) {
                let key = self.by_ext[j].0.clone();
                let e = Arc::clone(&self.by_ext[j].1);
                kept.push((key, e));
            }
            j += 1;
        }
        proof {
            assert(rows.take(rows.len() as int) =~= rows);
            lemma_keep_prefix(rows, name@, rows.len() as int);
        }
        self.by_ext = kept;
        proof {
            lemma_keep_map(rows, name@, old(self).entries());
        }
    }

    /// Registers a language entry. If a language with the same name was
    /// already registered, the new entry replaces it and takes its place in
    /// the order — this is how a tree-sitter plugin overrides a regex-tier
    /// fallback. Each of its extensions, lower-cased, then leads to the new
    /// entry, and no extension leads to the replaced one any more.
    pub fn register(&mut self, entry: LanguageEntry)
        requires
            old(self).wf(),
        ensures
            final(self).wf(),
            registered(*old(self), *final(self), entry),
    {
        let ghost e0 = entry;
        let ghost old_entries = self.entries();
        let ghost old_map = self.ext_map();
        let entry = Arc::new(entry);
        let mut pos: usize = 0;
        let mut found = false;
        while pos < self.entries.len() && !found
            invariant
                pos <= self.entries@.len(),
                self.wf(),
                self.entries() == old_entries,
                self.ext_map() == old_map,
                *entry == e0,
                found ==> pos < self.entries@.len() && self.entries@[pos as int].name@ == e0.name@,
                forall|q: int| 0 <= q < pos ==> (#[trigger] self.entries@[q]).name@ != e0.name@,
            decreases self.entries@.len() - pos, if found { 0int } else { 1int },
        {
            if self.entries[pos].name == entry.name {
                found = true;
            } else {
                pos += 1;
            }
        }
        self.drop_rows_named(entry.name.as_str());
        let ghost dropped_rows = self.by_ext@;
        let ghost dropped_map = self.ext_map();
        let ghost ents = self.entries@;
        if found {
            proof {
                let c = choose|i: int| 0 <= i < old_entries.len() && (#[trigger] old_entries[i]).name@ == e0.name@;
                assert(old_entries[pos as int].name@ == e0.name@);
                if c != pos {
                    if c < pos {
                        assert(ents[c].name@ != e0.name@);
                    } else {
                        assert(ents[pos as int].name@ != ents[c].name@);
                    }
                }
            }
            self.entries.set(pos, Arc::clone(&entry));
            proof {
                assert(self.entries() =~= old_entries.update(pos as int, e0));
                assert forall|q: int| 0 <= q < self.by_ext@.len() implies self.entries().contains(
                    *(#[trigger] self.by_ext@[q]).1,
                ) by {
                    let r = dropped_rows[q];
                    assert((*r.1).name@ != e0.name@);
                    let i = choose|i: int| 0 <= i < old_entries.len() && old_entries[i] == *r.1;
                    assert(i != pos);
                    assert(self.entries()[i] == *r.1);
                }
                assert forall|a: int, b: int| 0 <= a < b < self.entries@.len() implies (#[trigger] self.entries@[a]).name@
                    != (#[trigger] self.entries@[b]).name@ by {
                    if a != pos && b != pos {
                        assert(ents[a].name@ != ents[b].name@);
                    } else if a == pos {
                        assert(ents[a].name@ != ents[b].name@);
                    } else {
                        assert(ents[a].name@ != ents[b].name@);
                    }
                }
            }
        } else {
            self.entries.push(Arc::clone(&entry));
            proof {
                assert(self.entries() =~= old_entries.push(e0));
                assert forall|q: int| 0 <= q < self.by_ext@.len() implies self.entries().contains(
                    *(#[trigger] self.by_ext@[q]).1,
                ) by {
                    let r = dropped_rows[q];
                    let i = choose|i: int| 0 <= i < old_entries.len() && old_entries[i] == *r.1;
                    assert(self.entries()[i] == *r.1);
                }
                assert forall|a: int, b: int| 0 <= a < b < self.entries@.len() implies (#[trigger] self.entries@[a]).name@
                    != (#[trigger] self.entries@[b]).name@ by {
                    if b < ents.len() {
                        assert(ents[a].name@ != ents[b].name@);
                    }
                }
            }
        }
        let ghost mid_entries = self.entries();
        let ghost mid_map = self.ext_map();
        proof {
            if found {
                assert(self.entries()[pos as int] == e0);
            } else {
                assert(self.entries()[self.entries().len() - 1] == e0);
            }
        }
        let mut j: usize = 0;
        while j < entry.extensions.len()
            invariant
                j <= e0.extensions@.len(),
                *entry == e0,
                self.wf(),
                self.entries() == mid_entries,
                mid_entries.contains(e0),
                forall|k: Seq<char>|
                    #[trigger] self.ext_map().contains_key(k) <==> (mid_map.contains_key(k) || exists|q: int|
                        0 <= q < j && lower_all((#[trigger] e0.extensions@[q])@) == k),
                forall|k: Seq<char>|
                    #[trigger] self.ext_map().contains_key(k) ==> self.ext_map()[k] == if exists|q: int|
                        0 <= q < j && lower_all((#[trigger] e0.extensions@[q])@) == k {
                        e0
                    } else {
                        mid_map[k]
                    },
            decreases e0.extensions@.len() - j,
        {
            let key = ascii_lowercase(entry.extensions[j].as_str());
            self.index_extension(key, Arc::clone(&entry));
            proof {
                assert forall|k: Seq<char>| #[trigger] self.ext_map().contains_key(k) implies self.ext_map()[k]
                    == if exists|q: int| 0 <= q < j + 1 && lower_all((#[trigger] e0.extensions@[q])@) == k {
                    e0
                } else {
                    mid_map[k]
                } by {
                    if k == key@ {
                        assert(lower_all(e0.extensions@[j as int]@) == k);
                    }
                }
                assert forall|k: Seq<char>| #[trigger] self.ext_map().contains_key(k) <==> (mid_map.contains_key(k)
                    || exists|q: int| 0 <= q < j + 1 && lower_all((#[trigger] e0.extensions@[q])@) == k) by {
                    if k == key@ {
                        assert(lower_all(e0.extensions@[j as int]@) == k);
                    }
                }
            }
            j += 1;
        }
        proof {
            assert forall|k: Seq<char>| #[trigger] self.ext_map().contains_key(k) <==> (claims(e0, k) || (
            old_map.contains_key(k) && old_map[k].name@ != e0.name@)) by {
                assert(mid_map == dropped_map);
                assert(dropped_map.contains_key(k) <==> (old_map.contains_key(k) && old_map[k].name@ != e0.name@));
            }
            assert forall|k: Seq<char>| #[trigger] self.ext_map().contains_key(k) implies self.ext_map()[k]
                == if claims(e0, k) {
                e0
            } else {
                old_map[k]
            } by {
                if !claims(e0, k) {
                    assert(mid_map == dropped_map);
                    assert(dropped_map.contains_key(k));
                    assert(dropped_map[k] == old_map[k]);
                }
            }
        }
    }

    /// The language registered under `name`.
    pub fn lookup_by_name(&self, name: &str) -> (r: Option<&LanguageEntry>)
        requires
            self.wf(),
        ensures
            r matches Some(e) ==> exists|i: int|
                0 <= i < self.entries().len() && self.entries()[i] == *e && e.name@ == name@,
            r is None ==> forall|i: int|
                0 <= i < self.entries().len() ==> (#[trigger] self.entries()[i]).name@ != name@,
            r matches Some(e) ==> self.entries().contains(*e),
    {
        let mut i: usize = 0;
        while i < self.entries.len()
            invariant
                i <= self.entries@.len(),
                forall|q: int| 0 <= q < i ==> (#[trigger] self.entries@[q]).name@ != name@,
            decreases self.entries@.len() - i,
        {
            if str_eq(self.entries[i].name.as_str(), name) {
                let e: &LanguageEntry = &*self.entries[i];
                assert(self.entries()[i as int] == *e);
                return Some(e);
            }
            i += 1;
        }
        None
    }

    /// The language an extension leads to, compared in ASCII lower case.
    pub fn lookup_by_extension(&self, ext: &str) -> (r: Option<&LanguageEntry>)
        requires
            self.wf(),
        ensures
            r matches Some(e) ==> self.ext_map().contains_key(lower_all(ext@)) && self.ext_map()[lower_all(
                ext@,
            )] == *e,
            r is None ==> !self.ext_map().contains_key(lower_all(ext@)),
            r matches Some(e) ==> self.entries().contains(*e),
    {
        let key = ascii_lowercase(ext);
        let mut j: usize = 0;
        while j < self.by_ext.len()
            invariant
                j <= self.by_ext@.len(),
                self.wf(),
                key@ == lower_all(ext@),
                forall|q: int| 0 <= q < j ==> (#[trigger] self.by_ext@[q]).0@ != key@,
            decreases self.by_ext@.len() - j,
        {
            if str_eq(self.by_ext[j].0.as_str(), key.as_str()) {
                proof {
                    self.lemma_ext_map_at(j as int);
                }
                return Some(&*self.by_ext[j].1);
            }
            j += 1;
        }
        None
    }

    /// The registered languages, in registration order.
    pub fn languages(&self) -> (r: &Vec<Arc<LanguageEntry>>)
        ensures
            r@.map_values(|a: Arc<LanguageEntry>| *a) == self.entries(),
    {
        &self.entries
    }

    pub fn len(&self) -> (n: usize)
        ensures
            n == self.entries().len(),
    {
        self.entries.len()
    }

    pub fn is_empty(&self) -> (b: bool)
        ensures
            b == (self.entries().len() == 0),
    {
        self.entries.len() == 0
    }
}

/// The path with its trailing `/` separators removed.
pub open spec fn trim_slashes(p: Seq<char>) -> Seq<char>
    decreases p.len(),
{
    if p.len() > 0 && p.last() == '/' {
        trim_slashes(p.drop_last())
    } else {
        p
    }
}

/// The text after the last `/`.
pub open spec fn after_last_slash(t: Seq<char>) -> Seq<char>
    decreases t.len(),
{
    if t.len() == 0 {
        t
    } else if t.last() == '/' {
        seq![]
    } else {
        after_last_slash(t.drop_last()).push(t.last())
    }
}

/// The file name of a path: its last component, trailing `/` ignored.
pub open spec fn file_name(p: Seq<char>) -> Seq<char> {
    after_last_slash(trim_slashes(p))
}

proof fn lemma_trim_slashes(p: Seq<char>)
    ensures
        trim_slashes(p) == p.take(trim_slashes(p).len() as int),
        trim_slashes(p).len() <= p.len(),
        forall|i: int| trim_slashes(p).len() <= i < p.len() ==> p[i] == '/',
        trim_slashes(p).len() == 0 || p[trim_slashes(p).len() - 1] != '/',
    decreases p.len(),
{
    if p.len() > 0 && p.last() == '/' {
        lemma_trim_slashes(p.drop_last());
        let t = trim_slashes(p.drop_last());
        assert(p.drop_last().take(t.len() as int) =~= p.take(t.len() as int));
        assert forall|i: int| t.len() <= i < p.len() implies p[i] == '/' by {
            if i < p.len() - 1 {
                assert(p.drop_last()[i] == p[i]);
            }
        }
    } else {
        assert(p.take(p.len() as int) =~= p);
    }
}

proof fn lemma_after_last_slash(t: Seq<char>)
    ensures
        after_last_slash(t).len() <= t.len(),
        after_last_slash(t) == t.skip(t.len() - after_last_slash(t).len()),
        after_last_slash(t).len() == t.len() || t[t.len() - after_last_slash(t).len() - 1] == '/',
        !after_last_slash(t).contains('/'),
    decreases t.len(),
{
    if t.len() > 0 {
        if t.last() == '/' {
            assert(t.skip(t.len() as int) =~= Seq::<char>::empty());
        } else {
            let q = t.drop_last();
            lemma_after_last_slash(q);
            let a = after_last_slash(q);
            assert(t.skip(t.len() - a.len() - 1) =~= q.skip(q.len() - a.len()).push(t.last()));
            if a.len() < q.len() {
                assert(q[q.len() - a.len() - 1] == t[t.len() - (a.len() + 1) - 1]);
            }
            assert(!a.push(t.last()).contains('/')) by {
                if a.push(t.last()).contains('/') {
                    let i = choose|i: int| 0 <= i < a.push(t.last()).len() && a.push(t.last())[i] == '/';
                    if i < a.len() {
                        assert(a[i] == '/');
                    }
                }
            }
        }
    } else {
        assert(t.skip(0) =~= t);
    }
}

/// The file name is the path's last component: the characters between the
/// last `/` that is followed by something other than `/` (or the start) and
/// the trailing `/`s (or the end); it holds no `/`.
pub proof fn law_file_name_is_last_component(p: Seq<char>)
    ensures
        exists|s: int, e: int|
            0 <= s <= e <= p.len() && file_name(p) == p.subrange(s, e) && (s == 0 || p[s - 1] == '/')
                && (e == 0 || p[e - 1] != '/') && forall|i: int| e <= i < p.len() ==> p[i] == '/',
        !file_name(p).contains('/'),
{
    lemma_trim_slashes(p);
    let t = trim_slashes(p);
    lemma_after_last_slash(t);
    let n = file_name(p);
    let e = t.len() as int;
    let s = e - n.len();
    assert(n =~= p.subrange(s, e));
    if s > 0 {
        assert(t[s - 1] == p[s - 1]);
    }
    if e > 0 {
        assert(t[e - 1] == p[e - 1]);
    }
}

/// The dot at position `d` of the file name (not its first character)
/// starts an extension that the index knows.
pub open spec fn known_ext_at(m: Map<Seq<char>, LanguageEntry>, name: Seq<char>, d: int) -> bool {
    &&& 1 <= d < name.len()
    &&& name[d] == '.'
    &&& m.contains_key(lower_all(name.skip(d + 1)))
}

/// The length of `t` without its trailing `/` separators.
fn trimmed_len(cs: &Vec<char>) -> (n: usize)
    ensures
        n <= cs@.len(),
        cs@.take(n as int) == trim_slashes(cs@),
{
    let mut n = cs.len();
    proof {
        assert(cs@.take(n as int) =~= cs@);
    }
    while n > 0 && cs[n - 1] == '/'
        invariant
            n <= cs@.len(),
            trim_slashes(cs@.take(n as int)) == trim_slashes(cs@),
        decreases n,
    {
        proof {
            assert(cs@.take(n as int).drop_last() =~= cs@.take(n - 1));
        }
        n -= 1;
    }
    n
}

/// Where the last component of `cs[..end]` starts.
fn component_start(cs: &Vec<char>, end: usize) -> (s: usize)
    requires
        end <= cs@.len(),
    ensures
        s <= end,
        cs@.subrange(s as int, end as int) == after_last_slash(cs@.take(end as int)),
{
    let mut s = end;
    proof {
        assert(cs@.subrange(s as int, end as int) =~= seq![]);
    }
    while s > 0 && cs[s - 1] != '/'
        invariant
            s <= end <= cs@.len(),
            after_last_slash(cs@.take(end as int)) == after_last_slash(cs@.take(s as int))
                + cs@.subrange(s as int, end as int),
        decreases s,
    {
        proof {
            assert(cs@.take(s as int).drop_last() =~= cs@.take(s - 1));
            assert(cs@.subrange(s - 1, end as int) =~= seq![cs@[s - 1]] + cs@.subrange(
                s as int,
                end as int,
            ));
            assert(after_last_slash(cs@.take(s - 1)).push(cs@[s - 1]) + cs@.subrange(
                s as int,
                end as int,
            ) =~= after_last_slash(cs@.take(s - 1)) + cs@.subrange(s - 1, end as int));
        }
        s -= 1;
    }
    proof {
        if s > 0 {
            assert(after_last_slash(cs@.take(s as int)) =~= seq![]);
        } else {
            assert(cs@.take(0) =~= seq![]);
        }
        assert(seq![] + cs@.subrange(s as int, end as int) =~= cs@.subrange(s as int, end as int));
    }
    s
}

/// The text of `cs[from..to]`.
fn string_of(cs: &Vec<char>, from: usize, to: usize) -> (r: String)
    requires
        from <= to <= cs@.len(),
    ensures
        r@ == cs@.subrange(from as int, to as int),
{
    let mut r = String::new();
    let mut i = from;
    while i < to
        invariant
            from <= i <= to <= cs@.len(),
            r@ == cs@.subrange(from as int, i as int),
        decreases to - i,
    {
        crate::text::push_char(&mut r, cs[i]);
        proof {
            assert(cs@.subrange(from as int, i + 1) =~= cs@.subrange(from as int, i as int).push(cs@[i as int]));
        }
        i += 1;
    }
    r
}

impl Registry {
    /// The language of a file, by the extensions of its file name. Every
    /// dot of the file name but a leading one starts a candidate extension
    /// (so `foo.pkr.hcl` offers `pkr.hcl`, then `hcl`); the longest
    /// candidate the index knows wins.
    pub fn lookup_by_path(&self, path: &str) -> (r: Option<&LanguageEntry>)
        requires
            self.wf(),
        ensures
            ({
                let name = file_name(path@);
                &&& r matches Some(e) ==> exists|d: int|
                    known_ext_at(self.ext_map(), name, d) && (forall|q: int|
                        0 <= q < d ==> !known_ext_at(self.ext_map(), name, q)) && *e
                        == self.ext_map()[lower_all(name.skip(d + 1))]
                &&& r is None ==> forall|d: int| !known_ext_at(self.ext_map(), name, d)
            }),
    {
        let cs = chars_of(path);
        let end = trimmed_len(&cs);
        let start = component_start(&cs, end);
        let ghost name = file_name(path@);
        proof {
            assert(name =~= cs@.subrange(start as int, end as int));
        }
        if start >= end {
            return None;
        }
        let mut d = start + 1;
        while d < end
            invariant
                start < d <= end,
                end <= cs@.len(),
                name == cs@.subrange(start as int, end as int),
                name == file_name(path@),
                self.wf(),
                forall|q: int| 0 <= q < d - start ==> !known_ext_at(self.ext_map(), name, q),
            decreases end - d,
        {
            if cs[d] == '.' {
                let ext = string_of(&cs, d + 1, end);
                proof {
                    assert(ext@ =~= name.skip(d - start + 1));
                }
                match self.lookup_by_extension(ext.as_str()) {
                    Some(e) => {
                        let ghost w = d - start;
                        assert(known_ext_at(self.ext_map(), name, w));
                        assert(*e == self.ext_map()[lower_all(name.skip(w + 1))]);
                        assert(known_ext_at(self.ext_map(), name, w) && (forall|q: int|
                            0 <= q < w ==> !known_ext_at(self.ext_map(), name, q)) && *e
                            == self.ext_map()[lower_all(name.skip(w + 1))]);
                        return Some(e);
                    },
                    None => {},
                }
            }
            d += 1;
        }
        None
    }
}

/// Detect the language of a file using the registry: by its extensions.
pub fn detect<'r>(registry: &'r Registry, path: &str) -> (r: Option<&'r LanguageEntry>)
    requires
        registry.wf(),
    ensures
        ({
            let name = file_name(path@);
            &&& r matches Some(e) ==> exists|d: int|
                known_ext_at(registry.ext_map(), name, d) && (forall|q: int|
                    0 <= q < d ==> !known_ext_at(registry.ext_map(), name, q)) && *e
                    == registry.ext_map()[lower_all(name.skip(d + 1))]
            &&& r is None ==> forall|d: int| !known_ext_at(registry.ext_map(), name, d)
        }),
{
    registry.lookup_by_path(path)
}

/// What is registered is found: after `e` is registered, it is the one
/// language of its name, and each of its extensions, in lower case, leads
/// to it.
pub proof fn law_registered_is_found(before: Registry, after: Registry, e: LanguageEntry)
    requires
        before.wf(),
        after.wf(),
        registered(before, after, e),
    ensures
        exists|i: int| 0 <= i < after.entries().len() && after.entries()[i] == e,
        forall|i: int|
            0 <= i < after.entries().len() && (#[trigger] after.entries()[i]).name@ == e.name@
                ==> after.entries()[i] == e,
        forall|j: int|
            0 <= j < e.extensions@.len() ==> after.ext_map().contains_key(
                lower_all((#[trigger] e.extensions@[j])@),
            ) && after.ext_map()[lower_all(e.extensions@[j]@)] == e,
{
    after.lemma_names_distinct();
    if exists|i: int|
        0 <= i < before.entries().len() && (#[trigger] before.entries()[i]).name@ == e.name@ {
        let i0 = choose|i: int|
            0 <= i < before.entries().len() && (#[trigger] before.entries()[i]).name@ == e.name@;
        assert(after.entries()[i0] == e);
        assert forall|i: int|
            0 <= i < after.entries().len() && (#[trigger] after.entries()[i]).name@ == e.name@ implies after.entries()[i]
            == e by {
            if i != i0 {
                assert(after.entries()[i].name@ != after.entries()[i0].name@);
            }
        }
    } else {
        let n = before.entries().len() as int;
        assert(after.entries()[n] == e);
        assert forall|i: int|
            0 <= i < after.entries().len() && (#[trigger] after.entries()[i]).name@ == e.name@ implies after.entries()[i]
            == e by {
            if i != n {
                assert(after.entries()[i] == before.entries()[i]);
            }
        }
    }
    assert forall|j: int| 0 <= j < e.extensions@.len() implies after.ext_map().contains_key(
        lower_all((#[trigger] e.extensions@[j])@),
    ) && after.ext_map()[lower_all(e.extensions@[j]@)] == e by {
        let k = lower_all(e.extensions@[j]@);
        assert(claims(e, k));
        assert(after.ext_map().contains_key(k) <==> (before.ext_map().contains_key(k) || claims(e, k)));
        assert(after.ext_map().contains_key(k));
        assert(after.ext_map()[k] == e);
    }
}

impl Registry {
    /// Every extension of the index leads to a registered language: a
    /// language that was replaced is no longer reached by any extension.
    pub proof fn law_index_leads_to_registered(&self)
        requires
            self.wf(),
        ensures
            forall|k: Seq<char>|
                #[trigger] self.ext_map().contains_key(k) ==> self.entries().contains(self.ext_map()[k]),
    {
        assert forall|k: Seq<char>| #[trigger] self.ext_map().contains_key(k) implies self.entries().contains(
            self.ext_map()[k],
        ) by {
            let j = choose|j: int| 0 <= j < self.by_ext@.len() && (#[trigger] self.by_ext@[j]).0@ == k;
            self.lemma_ext_map_at(j);
        }
    }

    /// No two registered languages share a name.
    pub proof fn lemma_names_distinct(&self)
        requires
            self.wf(),
        ensures
            forall|a: int, b: int|
                0 <= a < self.entries().len() && 0 <= b < self.entries().len() && a != b
                    ==> (#[trigger] self.entries()[a]).name@ != (#[trigger] self.entries()[b]).name@,
    {
        assert forall|a: int, b: int|
            0 <= a < self.entries().len() && 0 <= b < self.entries().len() && a != b implies (
            #[trigger] self.entries()[a]).name@ != (#[trigger] self.entries()[b]).name@ by {
            if a < b {
                assert(self.entries@[a].name@ != self.entries@[b].name@);
            } else {
                assert(self.entries@[b].name@ != self.entries@[a].name@);
            }
        }
    }
}

} // verus!
