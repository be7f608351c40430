//! The per-language totals of a report add up to its grand totals.
use vstd::prelude::*;
use crate::metrics::FileMetrics;
use crate::report::{
    add_file, is_breakdown, lemma_tally_push, rows_hold, tally, tally_all, zero_tally,
    LanguageTotal, Tally,
};

verus! {

/// The totals a `LanguageTotal` holds.
pub open spec fn tally_of(t: LanguageTotal) -> Tally {
    Tally {
        files: t.files as nat,
        lines: t.lines as nat,
        code: t.code as nat,
        comments: t.comments as nat,
        blanks: t.blanks as nat,
        bytes: t.bytes as nat,
    }
}

pub open spec fn add_tallies(a: Tally, b: Tally) -> Tally {
    Tally {
        files: a.files + b.files,
        lines: a.lines + b.lines,
        code: a.code + b.code,
        comments: a.comments + b.comments,
        blanks: a.blanks + b.blanks,
        bytes: a.bytes + b.bytes,
    }
}

/// The sums of the rows' totals.
pub open spec fn sum_totals(r: Seq<LanguageTotal>) -> Tally
    decreases r.len(),
{
    if r.len() == 0 {
        zero_tally()
    } else {
        add_tallies(sum_totals(r.drop_last()), tally_of(r.last()))
    }
}

/// The sums of the totals of the languages `langs`.
pub open spec fn sum_langs(files: Seq<FileMetrics>, langs: Seq<Seq<char>>) -> Tally
    decreases langs.len(),
{
    if langs.len() == 0 {
        zero_tally()
    } else {
        add_tallies(sum_langs(files, langs.drop_last()), tally(files, langs.last()))
    }
}

proof fn lemma_sum_langs_absent(files: Seq<FileMetrics>, f: FileMetrics, langs: Seq<Seq<char>>)
    requires
        !langs.contains(f.language@),
    ensures
        sum_langs(files.push(f), langs) == sum_langs(files, langs),
    decreases langs.len(),
{
    if langs.len() > 0 {
        lemma_tally_push(files, f, langs.last());
        assert(!langs.drop_last().contains(f.language@)) by {
            if langs.drop_last().contains(f.language@) {
                let i = choose|i: int| 0 <= i < langs.drop_last().len() && langs.drop_last()[i] == f.language@;
                assert(langs[i] == f.language@);
            }
        }
        assert(langs.last() != f.language@) by {
            assert(langs[langs.len() - 1] == langs.last());
        }
        lemma_sum_langs_absent(files, f, langs.drop_last());
    }
}

proof fn lemma_sum_langs_push(files: Seq<FileMetrics>, f: FileMetrics, langs: Seq<Seq<char>>)
    requires
        langs.no_duplicates(),
        langs.contains(f.language@),
    ensures
        sum_langs(files.push(f), langs) == add_file(sum_langs(files, langs), f),
    decreases langs.len(),
{
    let d = langs.drop_last();
    lemma_tally_push(files, f, langs.last());
    if langs.last() == f.language@ {
        assert(!d.contains(f.language@)) by {
            if d.contains(f.language@) {
                let i = choose|i: int| 0 <= i < d.len() && d[i] == f.language@;
                assert(langs[i] == langs[langs.len() - 1]);
            }
        }
        lemma_sum_langs_absent(files, f, d);
    } else {
        assert(d.no_duplicates()) by {
            assert forall|i: int, j: int| 0 <= i < d.len() && 0 <= j < d.len() && i != j implies d[i]
                != d[j] by {
                assert(d[i] == langs[i] && d[j] == langs[j]);
            }
        }
        assert(d.contains(f.language@)) by {
            let i = choose|i: int| 0 <= i < langs.len() && langs[i] == f.language@;
            assert(i != langs.len() - 1);
            assert(d[i] == f.language@);
        }
        lemma_sum_langs_push(files, f, d);
    }
}

proof fn lemma_sum_langs_all(files: Seq<FileMetrics>, langs: Seq<Seq<char>>)
    requires
        langs.no_duplicates(),
        forall|j: int| 0 <= j < files.len() ==> langs.contains((#[trigger] files[j]).language@),
    ensures
        sum_langs(files, langs) == tally_all(files),
    decreases files.len(),
{
    if files.len() == 0 {
        assert(sum_langs(files, langs) == zero_tally()) by {
            lemma_sum_langs_zero(files, langs);
        }
    } else {
        let pre = files.drop_last();
        let f = files.last();
        assert(forall|j: int| 0 <= j < pre.len() ==> pre[j] == files[j]);
        lemma_sum_langs_all(pre, langs);
        assert(files == pre.push(f));
        assert(langs.contains(files[files.len() - 1].language@));
        lemma_sum_langs_push(pre, f, langs);
    }
}

proof fn lemma_sum_langs_zero(files: Seq<FileMetrics>, langs: Seq<Seq<char>>)
    requires
        files.len() == 0,
    ensures
        sum_langs(files, langs) == zero_tally(),
    decreases langs.len(),
{
    if langs.len() > 0 {
        lemma_sum_langs_zero(files, langs.drop_last());
    }
}

proof fn lemma_sum_totals_langs(r: Seq<LanguageTotal>, files: Seq<FileMetrics>)
    requires
        rows_hold(r, files),
    ensures
        sum_totals(r) == sum_langs(files, r.map_values(|t: LanguageTotal| t.language@)),
    decreases r.len(),
{
    if r.len() > 0 {
        let d = r.drop_last();
        assert(rows_hold(d, files)) by {
            assert forall|i: int| 0 <= i < d.len() implies (#[trigger] d[i]).holds(tally(files, d[i].language@)) by {
                assert(d[i] == r[i]);
            }
        }
        lemma_sum_totals_langs(d, files);
        assert(r.map_values(|t: LanguageTotal| t.language@).drop_last() =~= d.map_values(
            |t: LanguageTotal| t.language@,
        ));
        assert(r[r.len() - 1] == r.last());
    }
}

/// The per-language totals add up to the grand totals: every file is
/// counted under exactly one language, so the rows of `Report::by_language`
/// sum to `Report::grand_total`.
pub proof fn law_language_totals_add_up(r: Seq<LanguageTotal>, files: Seq<FileMetrics>)
    requires
        is_breakdown(r, files),
    ensures
        sum_totals(r) == tally_all(files),
{
    reveal(is_breakdown);
    let langs = r.map_values(|t: LanguageTotal| t.language@);
    lemma_sum_totals_langs(r, files);
    assert(langs.no_duplicates()) by {
        assert forall|i: int, j: int| 0 <= i < langs.len() && 0 <= j < langs.len() && i != j implies langs[i]
            != langs[j] by {
            if i < j {
                assert(r[i].language@ != r[j].language@);
            } else {
                assert(r[j].language@ != r[i].language@);
            }
        }
    }
    assert forall|j: int| 0 <= j < files.len() implies langs.contains((#[trigger] files[j]).language@) by {
        let i = choose|i: int| 0 <= i < r.len() && (#[trigger] r[i]).language@ == files[j].language@;
        assert(langs[i] == files[j].language@);
    }
    lemma_sum_langs_all(files, langs);
}

} // verus!
