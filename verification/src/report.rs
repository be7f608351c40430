//! Aggregation of per-file metrics into per-language and grand totals.
use vstd::prelude::*;
use crate::metrics::FileMetrics;
use crate::text::{chars_of, str_eq};

verus! {

/// Everything one walk produced: one `FileMetrics` per analysed file.
pub struct Report {
    pub files: Vec<FileMetrics>,
}

/// Totals over the files of one language (or of all files).
pub struct LanguageTotal {
    pub language: String,
    pub files: u32,
    pub lines: u32,
    pub code: u32,
    pub comments: u32,
    pub blanks: u32,
    pub bytes: u64,
}

/// Mathematical totals.
pub struct Tally {
    pub files: nat,
    pub lines: nat,
    pub code: nat,
    pub comments: nat,
    pub blanks: nat,
    pub bytes: nat,
}

pub open spec fn zero_tally() -> Tally {
    Tally { files: 0, lines: 0, code: 0, comments: 0, blanks: 0, bytes: 0 }
}

pub open spec fn add_file(t: Tally, f: FileMetrics) -> Tally {
    Tally {
        files: t.files + 1,
        lines: t.lines + f.lines as nat,
        code: t.code + f.code as nat,
        comments: t.comments + f.comments as nat,
        blanks: t.blanks + f.blanks as nat,
        bytes: t.bytes + f.bytes as nat,
    }
}

/// Totals over every file.
pub open spec fn tally_all(files: Seq<FileMetrics>) -> Tally
    decreases files.len(),
{
    if files.len() == 0 {
        zero_tally()
    } else {
        add_file(tally_all(files.drop_last()), files.last())
    }
}

/// Totals add up: the totals of two lists of files one after the other are
/// the sums of their totals, and the totals of one file are its counts.
pub proof fn law_tally_adds(a: Seq<FileMetrics>, b: Seq<FileMetrics>)
    ensures
        tally_all(a + b) == (Tally {
            files: tally_all(a).files + tally_all(b).files,
            lines: tally_all(a).lines + tally_all(b).lines,
            code: tally_all(a).code + tally_all(b).code,
            comments: tally_all(a).comments + tally_all(b).comments,
            blanks: tally_all(a).blanks + tally_all(b).blanks,
            bytes: tally_all(a).bytes + tally_all(b).bytes,
        }),
        forall|f: FileMetrics|
            #[trigger] tally_all(seq![f]) == (Tally {
                files: 1,
                lines: f.lines as nat,
                code: f.code as nat,
                comments: f.comments as nat,
                blanks: f.blanks as nat,
                bytes: f.bytes as nat,
            }),
    decreases b.len(),
{
    assert forall|f: FileMetrics|
        #[trigger] tally_all(seq![f]) == (Tally {
            files: 1,
            lines: f.lines as nat,
            code: f.code as nat,
            comments: f.comments as nat,
            blanks: f.blanks as nat,
            bytes: f.bytes as nat,
        }) by {
        let e = Seq::<FileMetrics>::empty();
        assert(seq![f].drop_last() =~= e);
        assert(seq![f].last() == f);
        assert(tally_all(e) == zero_tally());
    }
    if b.len() == 0 {
        assert(a + b =~= a);
    } else {
        law_tally_adds(a, b.drop_last());
        assert((a + b).drop_last() =~= a + b.drop_last());
        assert((a + b).last() == b.last());
    }
}

/// Totals over the files whose language is `lang`.
pub open spec fn tally(files: Seq<FileMetrics>, lang: Seq<char>) -> Tally
    decreases files.len(),
{
    if files.len() == 0 {
        zero_tally()
    } else if files.last().language@ == lang {
        add_file(tally(files.drop_last(), lang), files.last())
    } else {
        tally(files.drop_last(), lang)
    }
}

/// The totals fit the fields of a `LanguageTotal`.
pub open spec fn fits(t: Tally) -> bool {
    &&& t.files <= u32::MAX
    &&& t.lines <= u32::MAX
    &&& t.code <= u32::MAX
    &&& t.comments <= u32::MAX
    &&& t.blanks <= u32::MAX
    &&& t.bytes <= u64::MAX
}

impl LanguageTotal {
    pub open spec fn holds(&self, t: Tally) -> bool {
        &&& self.files == t.files
        &&& self.lines == t.lines
        &&& self.code == t.code
        &&& self.comments == t.comments
        &&& self.blanks == t.blanks
        &&& self.bytes == t.bytes
    }
}

/// `a` sorts before `b`: code point by code point, a proper prefix first.
/// This is the byte order of their UTF-8 encodings.
pub open spec fn lex_lt(a: Seq<char>, b: Seq<char>) -> bool
    decreases a.len(),
{
    if a.len() == 0 {
        b.len() > 0
    } else if b.len() == 0 {
        false
    } else if (a[0] as u32) < (b[0] as u32) {
        true
    } else if a[0] == b[0] {
        lex_lt(a.drop_first(), b.drop_first())
    } else {
        false
    }
}

pub proof fn lemma_lex_trichotomy(a: Seq<char>, b: Seq<char>)
    ensures
        lex_lt(a, b) || lex_lt(b, a) || a == b,
        !(lex_lt(a, b) && lex_lt(b, a)),
        !lex_lt(a, a),
    decreases a.len(),
{
    if a.len() > 0 && b.len() > 0 {
        lemma_lex_trichotomy(a.drop_first(), b.drop_first());
        if a[0] == b[0] && a.drop_first() == b.drop_first() {
            assert forall|i: int| 0 <= i < a.len() implies a[i] == b[i] by {
                if i > 0 {
                    assert(a[i] == a.drop_first()[i - 1]);
                    assert(b[i] == b.drop_first()[i - 1]);
                }
            }
            assert(a =~= b);
        }
        vstd::utf8::char_u32_cast(a[0], a[0] as u32);
        vstd::utf8::char_u32_cast(b[0], b[0] as u32);
    } else if a.len() > 0 {
    } else if b.len() > 0 {
    } else {
        assert(a =~= b);
    }
    if a.len() > 0 {
        lemma_lex_trichotomy(a.drop_first(), a.drop_first());
    }
}

/// `a` sorts before `b` (see `lex_lt`).
pub fn str_lt(a: &str, b: &str) -> (r: bool)
    ensures
        r == lex_lt(a@, b@),
{
    let x = chars_of(a);
    let y = chars_of(b);
    let mut i: usize = 0;
    assert(a@.skip(0) =~= a@);
    assert(b@.skip(0) =~= b@);
    while i < x.len() && i < y.len() && x[i] == y[i]
        invariant
            x@ == a@,
            y@ == b@,
            i <= x@.len(),
            i <= y@.len(),
            lex_lt(a@, b@) == lex_lt(a@.skip(i as int), b@.skip(i as int)),
        decreases x@.len() - i,
    {
        proof {
            assert(a@.skip(i as int).drop_first() =~= a@.skip(i + 1));
            assert(b@.skip(i as int).drop_first() =~= b@.skip(i + 1));
        }
        i += 1;
    }
    if i == x.len() {
        i < y.len()
    } else if i == y.len() {
        false
    } else {
        (x[i] as u32) < (y[i] as u32)
    }
}

/// Each name sorts before the next.
pub open spec fn names_sorted(r: Seq<LanguageTotal>) -> bool {
    forall|i: int| 0 <= i < r.len() - 1 ==> lex_lt(r[i].language@, #[trigger] r[i + 1].language@)
}

/// No two rows share a name.
pub open spec fn names_distinct(r: Seq<LanguageTotal>) -> bool {
    forall|a: int, b: int|
        0 <= a < b < r.len() ==> (#[trigger] r[a]).language@ != (#[trigger] r[b]).language@
}

/// Each row holds the totals of its language's files.
pub open spec fn rows_hold(r: Seq<LanguageTotal>, files: Seq<FileMetrics>) -> bool {
    forall|i: int| 0 <= i < r.len() ==> (#[trigger] r[i]).holds(tally(files, r[i].language@))
}

/// Each row's language is that of some file.
pub open spec fn rows_from_files(r: Seq<LanguageTotal>, files: Seq<FileMetrics>) -> bool {
    forall|i: int|
        #![trigger r[i]]
        0 <= i < r.len() ==> exists|j: int| 0 <= j < files.len() && (#[trigger] files[j]).language@ == r[i].language@
}

/// Each file's language has a row.
pub open spec fn files_in_rows(r: Seq<LanguageTotal>, files: Seq<FileMetrics>) -> bool {
    forall|j: int|
        #![trigger files[j]]
        0 <= j < files.len() ==> exists|i: int| 0 <= i < r.len() && (#[trigger] r[i]).language@ == files[j].language@
}

/// The per-language totals `r` of `files`: one row per language, in
/// language-name order, each holding the totals of that language's files.
#[verifier::opaque]
pub open spec fn is_breakdown(r: Seq<LanguageTotal>, files: Seq<FileMetrics>) -> bool {
    &&& names_sorted(r)
    &&& names_distinct(r)
    &&& rows_hold(r, files)
    &&& rows_from_files(r, files)
    &&& files_in_rows(r, files)
}

proof fn lemma_tally_absent(files: Seq<FileMetrics>, lang: Seq<char>)
    requires
        forall|j: int| 0 <= j < files.len() ==> (#[trigger] files[j]).language@ != lang,
    ensures
        tally(files, lang) == zero_tally(),
    decreases files.len(),
{
    if files.len() > 0 {
        lemma_tally_absent(files.drop_last(), lang);
    }
}

proof fn lemma_tally_prefix(files: Seq<FileMetrics>, k: int, lang: Seq<char>)
    requires
        0 <= k <= files.len(),
    ensures
        ({
            let a = tally(files.take(k), lang);
            let b = tally(files, lang);
            &&& a.files <= b.files
            &&& a.lines <= b.lines
            &&& a.code <= b.code
            &&& a.comments <= b.comments
            &&& a.blanks <= b.blanks
            &&& a.bytes <= b.bytes
        }),
    decreases files.len() - k,
{
    if k < files.len() {
        lemma_tally_prefix(files, k + 1, lang);
        assert(files.take(k + 1).drop_last() =~= files.take(k));
    } else {
        assert(files.take(k) =~= files);
    }
}

proof fn lemma_tally_all_prefix(files: Seq<FileMetrics>, k: int)
    requires
        0 <= k <= files.len(),
    ensures
        ({
            let a = tally_all(files.take(k));
            let b = tally_all(files);
            &&& a.files <= b.files
            &&& a.lines <= b.lines
            &&& a.code <= b.code
            &&& a.comments <= b.comments
            &&& a.blanks <= b.blanks
            &&& a.bytes <= b.bytes
        }),
    decreases files.len() - k,
{
    if k < files.len() {
        lemma_tally_all_prefix(files, k + 1);
        assert(files.take(k + 1).drop_last() =~= files.take(k));
    } else {
        assert(files.take(k) =~= files);
    }
}

fn add_to(t: &mut LanguageTotal, f: &FileMetrics)
    requires
        old(t).files + 1 <= u32::MAX,
        old(t).lines + f.lines <= u32::MAX,
        old(t).code + f.code <= u32::MAX,
        old(t).comments + f.comments <= u32::MAX,
        old(t).blanks + f.blanks <= u32::MAX,
        old(t).bytes + f.bytes <= u64::MAX,
    ensures
        final(t).language == old(t).language,
        final(t).files == old(t).files + 1,
        final(t).lines == old(t).lines + f.lines,
        final(t).code == old(t).code + f.code,
        final(t).comments == old(t).comments + f.comments,
        final(t).blanks == old(t).blanks + f.blanks,
        final(t).bytes == old(t).bytes + f.bytes,
{
    t.files = t.files + 1;
    t.lines = t.lines + f.lines;
    t.code = t.code + f.code;
    t.comments = t.comments + f.comments;
    t.blanks = t.blanks + f.blanks;
    t.bytes = t.bytes + f.bytes;
}

pub proof fn lemma_tally_push(pre: Seq<FileMetrics>, f: FileMetrics, lang: Seq<char>)
    ensures
        tally(pre.push(f), lang) == if f.language@ == lang {
            add_file(tally(pre, lang), f)
        } else {
            tally(pre, lang)
        },
{
    assert(pre.push(f).drop_last() =~= pre);
}

proof fn lemma_bump_hold(
    before: Seq<LanguageTotal>,
    after: Seq<LanguageTotal>,
    p: int,
    pre: Seq<FileMetrics>,
    f: FileMetrics,
)
    requires
        rows_hold(before, pre),
        names_distinct(before),
        0 <= p < before.len(),
        before[p].language@ == f.language@,
        after.len() == before.len(),
        forall|i: int| 0 <= i < after.len() && i != p ==> after[i] == before[i],
        after[p].language@ == f.language@,
        after[p].holds(tally(pre.push(f), f.language@)),
    ensures
        rows_hold(after, pre.push(f)),
{
    assert forall|i: int| 0 <= i < after.len() implies (#[trigger] after[i]).holds(tally(pre.push(f), after[i].language@)) by {
        lemma_tally_push(pre, f, after[i].language@);
        if i != p {
            if i < p {
                assert(before[i].language@ != before[p].language@);
            } else {
                assert(before[p].language@ != before[i].language@);
            }
        }
    }
}

proof fn lemma_bump_names(
    before: Seq<LanguageTotal>,
    after: Seq<LanguageTotal>,
    p: int,
    pre: Seq<FileMetrics>,
    f: FileMetrics,
)
    requires
        names_sorted(before),
        names_distinct(before),
        rows_from_files(before, pre),
        files_in_rows(before, pre),
        0 <= p < before.len(),
        before[p].language@ == f.language@,
        after.len() == before.len(),
        forall|i: int| 0 <= i < after.len() && i != p ==> after[i] == before[i],
        after[p].language@ == f.language@,
    ensures
        names_sorted(after),
        names_distinct(after),
        rows_from_files(after, pre.push(f)),
        files_in_rows(after, pre.push(f)),
{
    let post = pre.push(f);
    assert(forall|i: int| 0 <= i < after.len() ==> (#[trigger] after[i]).language@ == before[i].language@);
    assert forall|i: int| #![trigger after[i]] 0 <= i < after.len() implies exists|j: int|
        0 <= j < post.len() && (#[trigger] post[j]).language@ == after[i].language@ by {
        let bi = before[i];
        let j = choose|j: int| 0 <= j < pre.len() && (#[trigger] pre[j]).language@ == bi.language@;
        assert(post[j] == pre[j]);
    }
    assert forall|j: int| #![trigger post[j]] 0 <= j < post.len() implies exists|i: int|
        0 <= i < after.len() && (#[trigger] after[i]).language@ == post[j].language@ by {
        if j < pre.len() {
            assert(post[j] == pre[j]);
            let i = choose|i: int| 0 <= i < before.len() && (#[trigger] before[i]).language@ == pre[j].language@;
            assert(after[i].language@ == before[i].language@);
        } else {
            assert(after[p].language@ == post[j].language@);
        }
    }
}

proof fn lemma_insert_hold(
    before: Seq<LanguageTotal>,
    after: Seq<LanguageTotal>,
    q: int,
    pre: Seq<FileMetrics>,
    f: FileMetrics,
)
    requires
        rows_hold(before, pre),
        0 <= q <= before.len(),
        forall|i: int| 0 <= i < before.len() ==> (#[trigger] before[i]).language@ != f.language@,
        after == before.insert(q, after[q]),
        after[q].language@ == f.language@,
        after[q].holds(tally(pre.push(f), f.language@)),
    ensures
        rows_hold(after, pre.push(f)),
{
    assert forall|i: int| 0 <= i < after.len() implies (#[trigger] after[i]).holds(tally(pre.push(f), after[i].language@)) by {
        if i != q {
            let i0 = if i < q { i } else { i - 1 };
            assert(after[i] == before[i0]);
            lemma_tally_push(pre, f, before[i0].language@);
        }
    }
}

proof fn lemma_insert_order(
    before: Seq<LanguageTotal>,
    after: Seq<LanguageTotal>,
    q: int,
    lang: Seq<char>,
)
    requires
        names_sorted(before),
        names_distinct(before),
        0 <= q <= before.len(),
        forall|i: int| 0 <= i < before.len() ==> (#[trigger] before[i]).language@ != lang,
        forall|i: int| 0 <= i < q ==> lex_lt((#[trigger] before[i]).language@, lang),
        q < before.len() ==> lex_lt(lang, before[q].language@),
        after == before.insert(q, after[q]),
        after[q].language@ == lang,
    ensures
        names_sorted(after),
        names_distinct(after),
{
    assert forall|i: int| 0 <= i < after.len() - 1 implies lex_lt(after[i].language@, #[trigger] after[i + 1].language@) by {
        if i + 1 < q {
            assert(after[i] == before[i] && after[i + 1] == before[i + 1]);
            assert(lex_lt(before[i].language@, before[i + 1].language@));
        } else if i + 1 == q {
            assert(after[i] == before[i]);
        } else if i == q {
            assert(after[i + 1] == before[i]);
        } else {
            assert(after[i] == before[i - 1] && after[i + 1] == before[i]);
            let k = i - 1;
            assert(lex_lt(before[k].language@, before[k + 1].language@));
        }
    }
    assert forall|a: int, b: int| 0 <= a < b < after.len() implies (#[trigger] after[a]).language@
        != (#[trigger] after[b]).language@ by {
        let a0 = if a < q { a } else { a - 1 };
        let b0 = if b < q { b } else { b - 1 };
        if a != q && b != q {
            assert(after[a] == before[a0] && after[b] == before[b0]);
        } else if a == q {
            assert(after[b] == before[b0]);
        } else {
            assert(after[a] == before[a0]);
        }
    }
}

proof fn lemma_insert_cover(
    before: Seq<LanguageTotal>,
    after: Seq<LanguageTotal>,
    q: int,
    pre: Seq<FileMetrics>,
    f: FileMetrics,
)
    requires
        rows_from_files(before, pre),
        files_in_rows(before, pre),
        0 <= q <= before.len(),
        after == before.insert(q, after[q]),
        after[q].language@ == f.language@,
    ensures
        rows_from_files(after, pre.push(f)),
        files_in_rows(after, pre.push(f)),
{
    let post = pre.push(f);
    assert forall|i: int| #![trigger after[i]] 0 <= i < after.len() implies exists|j: int|
        0 <= j < post.len() && (#[trigger] post[j]).language@ == after[i].language@ by {
        if i == q {
            assert(post[pre.len() as int] == f);
        } else {
            let i0 = if i < q { i } else { i - 1 };
            assert(after[i] == before[i0]);
            let j = choose|j: int| 0 <= j < pre.len() && (#[trigger] pre[j]).language@ == before[i0].language@;
            assert(post[j] == pre[j]);
        }
    }
    assert forall|j: int| #![trigger post[j]] 0 <= j < post.len() implies exists|i: int|
        0 <= i < after.len() && (#[trigger] after[i]).language@ == post[j].language@ by {
        if j < pre.len() {
            assert(post[j] == pre[j]);
            let i = choose|i: int| 0 <= i < before.len() && (#[trigger] before[i]).language@ == pre[j].language@;
            if i < q {
                assert(after[i] == before[i]);
            } else {
                assert(after[i + 1] == before[i]);
            }
        } else {
            assert(after[q].language@ == post[j].language@);
        }
    }
}

proof fn lemma_step_found(
    before: Seq<LanguageTotal>,
    p: int,
    pre: Seq<FileMetrics>,
    f: FileMetrics,
    t: LanguageTotal,
)
    requires
        is_breakdown(before, pre),
        0 <= p < before.len(),
        before[p].language@ == f.language@,
        t.language@ == f.language@,
        t.holds(add_file(tally(pre, f.language@), f)),
    ensures
        is_breakdown(before.update(p, t), pre.push(f)),
{
    reveal(is_breakdown);
    let after = before.update(p, t);
    lemma_tally_push(pre, f, f.language@);
    lemma_bump_hold(before, after, p, pre, f);
    lemma_bump_names(before, after, p, pre, f);
}

proof fn lemma_step_new(
    before: Seq<LanguageTotal>,
    q: int,
    pre: Seq<FileMetrics>,
    f: FileMetrics,
    t: LanguageTotal,
)
    requires
        is_breakdown(before, pre),
        0 <= q <= before.len(),
        forall|i: int| 0 <= i < before.len() ==> (#[trigger] before[i]).language@ != f.language@,
        forall|i: int| 0 <= i < q ==> lex_lt((#[trigger] before[i]).language@, f.language@),
        q < before.len() ==> lex_lt(f.language@, before[q].language@),
        t.language@ == f.language@,
        t.holds(add_file(zero_tally(), f)),
    ensures
        is_breakdown(before.insert(q, t), pre.push(f)),
{
    reveal(is_breakdown);
    let after = before.insert(q, t);
    assert(after[q] == t);
    assert(after == before.insert(q, after[q]));
    assert forall|j: int| 0 <= j < pre.len() implies (#[trigger] pre[j]).language@ != f.language@ by {
        let i = choose|i: int| 0 <= i < before.len() && (#[trigger] before[i]).language@ == pre[j].language@;
    }
    lemma_tally_absent(pre, f.language@);
    lemma_tally_push(pre, f, f.language@);
    lemma_insert_hold(before, after, q, pre, f);
    lemma_insert_order(before, after, q, f.language@);
    lemma_insert_cover(before, after, q, pre, f);
}

proof fn lemma_row(before: Seq<LanguageTotal>, pre: Seq<FileMetrics>, p: int)
    requires
        is_breakdown(before, pre),
        0 <= p < before.len(),
    ensures
        before[p].holds(tally(pre, before[p].language@)),
{
    reveal(is_breakdown);
}

proof fn lemma_empty_breakdown(files: Seq<FileMetrics>)
    ensures
        is_breakdown(Seq::<LanguageTotal>::empty(), files.take(0)),
{
    reveal(is_breakdown);
}

impl Report {
    /// An empty report.
    pub fn new() -> (r: Self)
        ensures
            r.files@.len() == 0,
    {
        Report { files: Vec::new() }
    }

    pub fn push(&mut self, m: FileMetrics)
        ensures
            final(self).files@ == old(self).files@.push(m),
    {
        self.files.push(m);
    }

    /// Per-language totals, one row per language in name order.
    pub fn by_language(&self) -> (r: Vec<LanguageTotal>)
        requires
            forall|j: int|
                0 <= j < self.files@.len() ==> fits(tally(self.files@, (#[trigger] self.files@[j]).language@)),
        ensures
            is_breakdown(r@, self.files@),
    {
        let ghost files = self.files@;
        let mut totals: Vec<LanguageTotal> = Vec::new();
        let mut k: usize = 0;
        proof {
            lemma_empty_breakdown(files);
        }
        while k < self.files.len()
            invariant
                files == self.files@,
                k <= files.len(),
                forall|j: int| 0 <= j < files.len() ==> fits(tally(files, (#[trigger] files[j]).language@)),
                is_breakdown(totals@, files.take(k as int)),
            decreases files.len() - k,
        {
            let f = &self.files[k];
            let ghost pre = files.take(k as int);
            let ghost post = files.take(k + 1);
            let ghost lang = f.language@;
            proof {
                assert(post.drop_last() =~= pre);
                assert(post.last() == *f);
                assert(files[k as int] == *f);
                lemma_tally_prefix(files, k + 1, lang);
                assert(forall|i: int| #![trigger pre[i]] 0 <= i < pre.len() ==> pre[i] == post[i]);
            }
            let mut p: usize = 0;
            let mut found = false;
            while p < totals.len() && !found
                invariant
                    p <= totals@.len(),
                    found ==> p < totals@.len() && totals@[p as int].language@ == lang,
                    !found ==> forall|q: int| 0 <= q < p ==> (#[trigger] totals@[q]).language@ != lang,
                    lang == f.language@,
                decreases totals@.len() - p, if found { 0int } else { 1int },
            {
                if str_eq(totals[p].language.as_str(), f.language.as_str()) {
                    found = true;
                } else {
                    p += 1;
                }
            }
            if found {
                let ghost before = totals@;
                let mut t = totals.remove(p);
                proof {
                    assert(t == before[p as int]);
                    lemma_row(before, pre, p as int);
                    lemma_tally_push(pre, *f, lang);
                    assert(post == pre.push(*f));
                }
                add_to(&mut t, f);
                totals.insert(p, t);
                proof {
                    assert(totals@ =~= before.update(p as int, t));
                    lemma_step_found(before, p as int, pre, *f, t);
                }
            } else {
                let mut q: usize = 0;
                while q < totals.len() && str_lt(totals[q].language.as_str(), f.language.as_str())
                    invariant
                        q <= totals@.len(),
                        forall|i: int| 0 <= i < q ==> lex_lt((#[trigger] totals@[i]).language@, lang),
                        lang == f.language@,
                    decreases totals@.len() - q,
                {
                    q += 1;
                }
                let ghost before = totals@;
                proof {
                    if q < before.len() {
                        lemma_lex_trichotomy(before[q as int].language@, lang);
                    }
                }
                let t = LanguageTotal {
                    language: f.language.clone(),
                    files: 1,
                    lines: f.lines,
                    code: f.code,
                    comments: f.comments,
                    blanks: f.blanks,
                    bytes: f.bytes,
                };
                totals.insert(q, t);
                proof {
                    assert(totals@ =~= before.insert(q as int, t));
                    assert(post == pre.push(*f));
                    lemma_step_new(before, q as int, pre, *f, t);
                }
            }
            k += 1;
        }
        proof {
            assert(files.take(files.len() as int) =~= files);
        }
        totals
    }

    /// Totals over every file, labelled `Total`.
    pub fn grand_total(&self) -> (t: LanguageTotal)
        requires
            fits(tally_all(self.files@)),
        ensures
            t.language@ == seq!['T', 'o', 't', 'a', 'l'],
            t.holds(tally_all(self.files@)),
    {
        let ghost files = self.files@;
        let mut t = LanguageTotal {
            language: String::from_str("Total"),
            files: 0,
            lines: 0,
            code: 0,
            comments: 0,
            blanks: 0,
            bytes: 0,
        };
        proof {
            reveal_strlit("Total");
        }
        let mut k: usize = 0;
        while k < self.files.len()
            invariant
                files == self.files@,
                k <= files.len(),
                fits(tally_all(files)),
                t.language@ == seq!['T', 'o', 't', 'a', 'l'],
                t.holds(tally_all(files.take(k as int))),
            decreases files.len() - k,
        {
            proof {
                assert(files.take(k + 1).drop_last() =~= files.take(k as int));
                lemma_tally_all_prefix(files, k + 1);
            }
            add_to(&mut t, &self.files[k]);
            k += 1;
        }
        proof {
            assert(files.take(files.len() as int) =~= files);
        }
        t
    }
}

/// The totals of one language are at most those of all files.
pub proof fn lemma_tally_le_all(files: Seq<FileMetrics>, a: Seq<char>)
    ensures
        tally(files, a).files <= tally_all(files).files,
        tally(files, a).lines <= tally_all(files).lines,
        tally(files, a).code <= tally_all(files).code,
        tally(files, a).comments <= tally_all(files).comments,
        tally(files, a).blanks <= tally_all(files).blanks,
        tally(files, a).bytes <= tally_all(files).bytes,
    decreases files.len(),
{
    if files.len() > 0 {
        lemma_tally_le_all(files.drop_last(), a);
    }
}

/// The totals of two different languages add up to at most those of all
/// files.
pub proof fn lemma_two_tallies_le_all(files: Seq<FileMetrics>, a: Seq<char>, b: Seq<char>)
    requires
        a != b,
    ensures
        tally(files, a).files + tally(files, b).files <= tally_all(files).files,
        tally(files, a).lines + tally(files, b).lines <= tally_all(files).lines,
        tally(files, a).code + tally(files, b).code <= tally_all(files).code,
        tally(files, a).comments + tally(files, b).comments <= tally_all(files).comments,
        tally(files, a).blanks + tally(files, b).blanks <= tally_all(files).blanks,
        tally(files, a).bytes + tally(files, b).bytes <= tally_all(files).bytes,
    decreases files.len(),
{
    if files.len() > 0 {
        lemma_two_tallies_le_all(files.drop_last(), a, b);
    }
}

/// A row of a breakdown holds its language's totals.
pub proof fn lemma_breakdown_row(r: Seq<LanguageTotal>, files: Seq<FileMetrics>, i: int)
    requires
        is_breakdown(r, files),
        0 <= i < r.len(),
    ensures
        r[i].holds(tally(files, r[i].language@)),
{
    reveal(is_breakdown);
}

/// A row of a breakdown is the language of some file.
pub proof fn lemma_breakdown_from_files(r: Seq<LanguageTotal>, files: Seq<FileMetrics>, i: int)
    requires
        is_breakdown(r, files),
        0 <= i < r.len(),
    ensures
        exists|j: int| 0 <= j < files.len() && (#[trigger] files[j]).language@ == r[i].language@,
{
    reveal(is_breakdown);
    assert(rows_from_files(r, files));
    let t = r[i];
    assert(exists|j: int| 0 <= j < files.len() && (#[trigger] files[j]).language@ == t.language@);
}

} // verus!
