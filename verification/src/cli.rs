//! What the command-line subcommands compute: their arguments, the
//! per-function breakdown printed by `explain`, the language listing
//! printed by `languages`, and the history window `hotspots` uses.
use vstd::prelude::*;
use crate::ast::FunctionDetail;
use crate::fmt::{decimal, decimal_string};
use crate::text::{pad_left, pad_right, push_char, push_pad_left, push_pad_right, push_repeat, repeat};
use crate::registry::{LanguageEntry, Registry, Tier};
use crate::report::{lex_lt, str_lt, lemma_lex_trichotomy};
use std::sync::Arc;

verus! {

/// Arguments of `explain`: the file to break down.
pub struct ExplainArgs {
    pub file: String,
}

/// Arguments of `hotspots`.
pub struct HotspotsArgs {
    pub paths: Vec<String>,
    /// Window for `git log`, in days.
    pub window_days: u32,
    /// Maximum rows to print.
    pub top: usize,
    pub no_gitignore: bool,
}

/// The history window: the flag when it differs from its default of 90
/// days, else the configured window.
pub fn window_days(flag: u32, configured: u32) -> (d: u32)
    ensures
        d == (if flag == 90 {
            configured
        } else {
            flag
        }),
{
    if flag == 90 {
        configured
    } else {
        flag
    }
}

/// The sum of the functions' cyclomatic complexities.
pub open spec fn cc_total(ds: Seq<FunctionDetail>) -> nat
    decreases ds.len(),
{
    if ds.len() == 0 {
        0
    } else {
        cc_total(ds.drop_last()) + ds.last().cyclomatic as nat
    }
}

/// The largest cyclomatic complexity, 0 for none.
pub open spec fn cc_max(ds: Seq<FunctionDetail>) -> nat
    decreases ds.len(),
{
    if ds.len() == 0 {
        0
    } else if ds.last().cyclomatic as nat > cc_max(ds.drop_last()) {
        ds.last().cyclomatic as nat
    } else {
        cc_max(ds.drop_last())
    }
}

/// The `cyclomatic_max` of a breakdown is its largest complexity: no
/// function's complexity exceeds it, some function has exactly it when there
/// is any function, and it is 0 for none.
pub proof fn law_cc_max_is_maximum(ds: Seq<FunctionDetail>)
    ensures
        forall|i: int| 0 <= i < ds.len() ==> (#[trigger] ds[i]).cyclomatic as nat <= cc_max(ds),
        ds.len() > 0 ==> exists|i: int| 0 <= i < ds.len() && (#[trigger] ds[i]).cyclomatic as nat == cc_max(ds),
        ds.len() == 0 ==> cc_max(ds) == 0,
    decreases ds.len(),
{
    if ds.len() > 0 {
        let p = ds.drop_last();
        law_cc_max_is_maximum(p);
        assert forall|i: int| 0 <= i < ds.len() implies (#[trigger] ds[i]).cyclomatic as nat <= cc_max(ds) by {
            if i < p.len() {
                assert(ds[i] == p[i]);
            }
        }
        if ds.last().cyclomatic as nat > cc_max(p) {
            assert(ds[ds.len() - 1].cyclomatic as nat == cc_max(ds));
        } else if p.len() > 0 {
            let i = choose|i: int| 0 <= i < p.len() && (#[trigger] p[i]).cyclomatic as nat == cc_max(p);
            assert(ds[i] == p[i]);
        } else {
            assert(ds[0].cyclomatic as nat == cc_max(ds));
        }
    }
}

/// The `cyclomatic_total` of a breakdown is the sum of its functions'
/// complexities: splitting the breakdown anywhere adds the totals of the two
/// parts, one function's total is its own complexity, and no function's
/// complexity, nor the maximum, exceeds it.
pub proof fn law_cc_total_is_sum(a: Seq<FunctionDetail>, b: Seq<FunctionDetail>)
    ensures
        cc_total(a + b) == cc_total(a) + cc_total(b),
        forall|d: FunctionDetail| cc_total(#[trigger] seq![d]) == d.cyclomatic as nat,
        cc_max(a) <= cc_total(a),
    decreases b.len(),
{
    assert forall|d: FunctionDetail| cc_total(#[trigger] seq![d]) == d.cyclomatic as nat by {
        let e = Seq::<FunctionDetail>::empty();
        assert(seq![d].drop_last() =~= e);
        assert(seq![d].last() == d);
        assert(cc_total(e) == 0);
    }
    if b.len() == 0 {
        assert(a + b =~= a);
    } else {
        law_cc_total_is_sum(a, b.drop_last());
        assert((a + b).drop_last() =~= a + b.drop_last());
        assert((a + b).last() == b.last());
    }
    lemma_cc_max_le_total(a);
}

proof fn lemma_cc_max_le_total(a: Seq<FunctionDetail>)
    ensures
        cc_max(a) <= cc_total(a),
    decreases a.len(),
{
    if a.len() > 0 {
        lemma_cc_max_le_total(a.drop_last());
    }
}

/// A dashed rule of 50 characters, then a newline.
pub open spec fn dashes() -> Seq<char> {
    repeat('-', 50) + seq!['\n']
}

/// The line of one function: start, end and complexity right-aligned, then
/// its length.
pub open spec fn detail_line(d: FunctionDetail) -> Seq<char> {
    pad_left(decimal(d.start_line as nat), 6) + "  "@ + pad_left(decimal(d.end_line as nat), 6) + "  "@
        + pad_left(decimal(d.cyclomatic as nat), 4) + "  "@ + decimal(d.lines as nat) + seq!['\n']
}

pub open spec fn detail_lines(ds: Seq<FunctionDetail>) -> Seq<char>
    decreases ds.len(),
{
    if ds.len() == 0 {
        seq![]
    } else {
        detail_lines(ds.drop_last()) + detail_line(ds.last())
    }
}

/// What `explain` prints for `file`, of language `lang`, with functions
/// `ds`.
pub open spec fn explain_text(file: Seq<char>, lang: Seq<char>, ds: Seq<FunctionDetail>) -> Seq<char> {
    file + "  ("@ + lang + ")\n"@ + dashes() + pad_left("start"@, 6) + "  "@ + pad_left("end"@, 6)
        + "  "@ + pad_left("cc"@, 4) + "  lines\n"@ + detail_lines(ds) + if ds.len() == 0 {
        "(no functions detected)\n"@
    } else {
        dashes() + "functions="@ + decimal(ds.len()) + "  cyclomatic_total="@ + decimal(cc_total(ds))
            + "  cyclomatic_max="@ + decimal(cc_max(ds)) + seq!['\n']
    }
}

fn push_dashes(out: &mut String)
    ensures
        final(out)@ == old(out)@ + dashes(),
{
    push_repeat(out, '-', 50);
    push_char(out, '\n');
}

/// Print the breakdown of `file` (of language `lang`) by function.
pub fn explain_report(file: &str, lang: &str, ds: &Vec<FunctionDetail>) -> (out: String)
    requires
        cc_total(ds@) <= u32::MAX,
    ensures
        out@ == explain_text(file@, lang@, ds@),
{
    let mut out = String::new();
    out.append(file);
    out.append("  (");
    out.append(lang);
    out.append(")\n");
    push_dashes(&mut out);
    push_pad_left(&mut out, "start", 6);
    out.append("  ");
    push_pad_left(&mut out, "end", 6);
    out.append("  ");
    push_pad_left(&mut out, "cc", 4);
    out.append("  lines\n");
    let ghost head = out@;
    let mut total: u32 = 0;
    let mut max: u32 = 0;
    let mut i: usize = 0;
    assert(ds@.take(0) =~= Seq::<FunctionDetail>::empty());
    while i < ds.len()
        invariant
            i <= ds@.len(),
            cc_total(ds@) <= u32::MAX,
            out@ == head + detail_lines(ds@.take(i as int)),
            total == cc_total(ds@.take(i as int)),
            max == cc_max(ds@.take(i as int)),
        decreases ds@.len() - i,
    {
        let d = &ds[i];
        proof {
            assert(ds@.take(i + 1).drop_last() =~= ds@.take(i as int));
            assert(ds@.take(i + 1).last() == *d);
            lemma_cc_total_prefix(ds@, i + 1);
        }
        let ghost before = out@;
        let s = decimal_string(d.start_line as u64);
        push_pad_left(&mut out, s.as_str(), 6);
        out.append("  ");
        let e = decimal_string(d.end_line as u64);
        push_pad_left(&mut out, e.as_str(), 6);
        out.append("  ");
        let c = decimal_string(d.cyclomatic as u64);
        push_pad_left(&mut out, c.as_str(), 4);
        out.append("  ");
        let l = decimal_string(d.lines as u64);
        out.append(l.as_str());
        push_char(&mut out, '\n');
        assert(out@ =~= before + detail_line(*d));
        total = total + d.cyclomatic;
        if d.cyclomatic > max {
            max = d.cyclomatic;
        }
        i += 1;
    }
    assert(ds@.take(i as int) =~= ds@);
    let ghost body = out@;
    if ds.len() == 0 {
        out.append("(no functions detected)\n");
    } else {
        push_dashes(&mut out);
        out.append("functions=");
        let n = decimal_string(ds.len() as u64);
        out.append(n.as_str());
        out.append("  cyclomatic_total=");
        let t = decimal_string(total as u64);
        out.append(t.as_str());
        out.append("  cyclomatic_max=");
        let m = decimal_string(max as u64);
        out.append(m.as_str());
        push_char(&mut out, '\n');
    }
    assert(out@ =~= explain_text(file@, lang@, ds@));
    out
}

proof fn lemma_cc_total_prefix(ds: Seq<FunctionDetail>, j: int)
    requires
        0 <= j <= ds.len(),
    ensures
        cc_total(ds.take(j)) <= cc_total(ds),
    decreases ds.len(),
{
    if j < ds.len() {
        lemma_cc_total_prefix(ds.drop_last(), j);
        assert(ds.drop_last().take(j) =~= ds.take(j));
    } else {
        assert(ds.take(j) =~= ds);
    }
}

/// The name a tier is listed under.
pub open spec fn tier_name(t: Tier) -> Seq<char> {
    match t {
        Tier::Regex => "regex"@,
        Tier::TreeSitter => "tree-sitter"@,
    }
}

/// Texts joined by `, `.
pub open spec fn comma_joined(v: Seq<Seq<char>>) -> Seq<char>
    decreases v.len(),
{
    if v.len() == 0 {
        seq![]
    } else if v.len() == 1 {
        v[0]
    } else {
        comma_joined(v.drop_last()) + ", "@ + v.last()
    }
}

/// The listing line of a language: name, tier, extensions.
pub open spec fn language_line(e: LanguageEntry) -> Seq<char> {
    pad_right(e.name@, 20) + seq![' '] + pad_right(tier_name(e.tier), 12) + seq![' '] + comma_joined(
        e.extensions@.map_values(|x: String| x@),
    ) + seq!['\n']
}

pub open spec fn language_lines(es: Seq<LanguageEntry>) -> Seq<char>
    decreases es.len(),
{
    if es.len() == 0 {
        seq![]
    } else {
        language_lines(es.drop_last()) + language_line(es.last())
    }
}

/// The header of the listing and its rule of 60 dashes.
pub open spec fn listing_head() -> Seq<char> {
    pad_right("Language"@, 20) + seq![' '] + pad_right("Tier"@, 12) + " Extensions\n"@ + repeat('-', 60)
        + seq!['\n']
}

/// `idx` lists each index below `n` once.
pub open spec fn is_permutation(idx: Seq<int>, n: int) -> bool {
    &&& idx.len() == n
    &&& idx.no_duplicates()
    &&& forall|i: int| 0 <= i < idx.len() ==> 0 <= #[trigger] idx[i] < n
}

/// The entries at `idx` come in name order.
pub open spec fn by_name(es: Seq<LanguageEntry>, idx: Seq<int>) -> bool {
    forall|i: int, j: int|
        0 <= i < j < idx.len() ==> !lex_lt(es[#[trigger] idx[j]].name@, es[#[trigger] idx[i]].name@)
}

fn names_before(a: &Arc<LanguageEntry>, b: &Arc<LanguageEntry>) -> (r: bool)
    ensures
        r == lex_lt(a.name@, b.name@),
{
    str_lt(a.name.as_str(), b.name.as_str())
}

/// The indices of `v`'s entries in name order.
fn name_order(v: &Vec<Arc<LanguageEntry>>) -> (r: Vec<usize>)
    ensures
        is_permutation(r@.map_values(|i: usize| i as int), v@.len() as int),
        by_name(v@.map_values(|a: Arc<LanguageEntry>| *a), r@.map_values(|i: usize| i as int)),
{
    let ghost es = v@.map_values(|a: Arc<LanguageEntry>| *a);
    let mut r: Vec<usize> = Vec::new();
    let mut k: usize = 0;
    while k < v.len()
        invariant
            k <= v@.len(),
            es == v@.map_values(|a: Arc<LanguageEntry>| *a),
            is_permutation(r@.map_values(|i: usize| i as int), k as int),
            by_name(es, r@.map_values(|i: usize| i as int)),
        decreases v@.len() - k,
    {
        assert forall|i: int| 0 <= i < r@.len() implies #[trigger] r@[i] < k by {
            assert(r@.map_values(|i: usize| i as int)[i] == r@[i] as int);
        }
        let mut p: usize = 0;
        while p < r.len() && !names_before(&v[k], &v[r[p]])
            invariant
                p <= r@.len(),
                k < v@.len(),
                es == v@.map_values(|a: Arc<LanguageEntry>| *a),
                forall|i: int| 0 <= i < r@.len() ==> #[trigger] r@[i] < k,
                forall|j: int| 0 <= j < p ==> !lex_lt(es[k as int].name@, es[#[trigger] r@[j] as int].name@),
            decreases r@.len() - p,
        {
            assert(r@.map_values(|i: usize| i as int)[p as int] == r@[p as int] as int);
            p += 1;
        }
        let ghost before = r@;
        let ghost bv = before.map_values(|i: usize| i as int);
        proof {
            assert forall|i: int| 0 <= i < before.len() implies #[trigger] before[i] < k by {
                assert(bv[i] == before[i] as int);
            }
            if p < before.len() {
                lemma_lex_trichotomy(es[k as int].name@, es[before[p as int] as int].name@);
            }
        }
        r.insert(p, k);
        proof {
            let rv = r@.map_values(|i: usize| i as int);
            assert(rv =~= bv.insert(p as int, k as int));
            assert forall|i: int| 0 <= i < rv.len() implies 0 <= #[trigger] rv[i] < k + 1 by {
                if i < p {
                    assert(rv[i] == bv[i]);
                } else if i > p {
                    assert(rv[i] == bv[i - 1]);
                }
            }
            assert forall|a: int, b: int| 0 <= a < rv.len() && 0 <= b < rv.len() && a != b implies rv[a]
                != rv[b] by {
                if a != p && b != p {
                    let a0 = if a < p { a } else { a - 1 };
                    let b0 = if b < p { b } else { b - 1 };
                    assert(rv[a] == bv[a0] && rv[b] == bv[b0]);
                } else if a == p {
                    let b0 = if b < p { b } else { b - 1 };
                    assert(rv[b] == bv[b0]);
                } else {
                    let a0 = if a < p { a } else { a - 1 };
                    assert(rv[a] == bv[a0]);
                }
            }
            assert forall|a: int, b: int| 0 <= a < b < rv.len() implies !lex_lt(
                es[#[trigger] rv[b]].name@,
                es[#[trigger] rv[a]].name@,
            ) by {
                if b == p {
                    assert(rv[a] == bv[a]);
                    assert(bv[a] == before[a] as int);
                } else if a == p {
                    assert(rv[b] == bv[b - 1]);
                    if b - 1 > p {
                        crate::table::lemma_lex_trans_not_pub(
                            es[bv[b - 1]].name@,
                            es[bv[p as int]].name@,
                            es[k as int].name@,
                        );
                    }
                } else {
                    let a0 = if a < p { a } else { a - 1 };
                    let b0 = if b < p { b } else { b - 1 };
                    assert(rv[a] == bv[a0] && rv[b] == bv[b0]);
                }
            }
        }
        k += 1;
    }
    r
}

/// The listing of the registered languages, in name order.
pub fn languages_report(registry: &Registry) -> (out: String)
    ensures
        exists|idx: Seq<int>|
            #![trigger is_permutation(idx, registry.entries().len() as int)]
            is_permutation(idx, registry.entries().len() as int) && by_name(registry.entries(), idx)
                && out@ == listing_head() + language_lines(
                idx.map_values(|i: int| registry.entries()[i]),
            ),
{
    let v = registry.languages();
    let ghost es = v@.map_values(|a: Arc<LanguageEntry>| *a);
    let order = name_order(v);
    let ghost idx = order@.map_values(|i: usize| i as int);
    let mut out = String::new();
    push_pad_right(&mut out, "Language", 20);
    push_char(&mut out, ' ');
    push_pad_right(&mut out, "Tier", 12);
    out.append(" Extensions\n");
    push_repeat(&mut out, '-', 60);
    push_char(&mut out, '\n');
    let ghost head = out@;
    assert(head =~= listing_head());
    let mut i: usize = 0;
    assert(idx.map_values(|i: int| es[i]).take(0) =~= Seq::<LanguageEntry>::empty());
    while i < order.len()
        invariant
            i <= order@.len(),
            idx == order@.map_values(|i: usize| i as int),
            es == v@.map_values(|a: Arc<LanguageEntry>| *a),
            is_permutation(idx, v@.len() as int),
            out@ == head + language_lines(idx.map_values(|i: int| es[i]).take(i as int)),
        decreases order@.len() - i,
    {
        let j = order[i];
        assert(idx[i as int] == j as int);
        let e: &LanguageEntry = &v[j];
        let ghost before = out@;
        push_pad_right(&mut out, e.name.as_str(), 20);
        push_char(&mut out, ' ');
        match e.tier {
            Tier::Regex => push_pad_right(&mut out, "regex", 12),
            Tier::TreeSitter => push_pad_right(&mut out, "tree-sitter", 12),
        }
        push_char(&mut out, ' ');
        let ghost exts = e.extensions@.map_values(|x: String| x@);
        let mut q: usize = 0;
        let ghost mid = out@;
        assert(exts.take(0) =~= Seq::<Seq<char>>::empty());
        while q < e.extensions.len()
            invariant
                q <= e.extensions@.len(),
                exts == e.extensions@.map_values(|x: String| x@),
                out@ == mid + comma_joined(exts.take(q as int)),
            decreases e.extensions@.len() - q,
        {
            if q > 0 {
                out.append(", ");
            }
            out.append(e.extensions[q].as_str());
            proof {
                assert(exts.take(q + 1).drop_last() =~= exts.take(q as int));
                assert(exts.take(q + 1).last() == e.extensions@[q as int]@);
                if q == 0 {
                    assert(exts.take(1)[0] == e.extensions@[0]@);
                }
                assert(out@ =~= mid + comma_joined(exts.take(q + 1)));
            }
            q += 1;
        }
        assert(exts.take(q as int) =~= exts);
        push_char(&mut out, '\n');
        proof {
            let ord = idx.map_values(|i: int| es[i]);
            assert(ord.take(i + 1).drop_last() =~= ord.take(i as int));
            assert(ord.take(i + 1).last() == es[j as int]);
            assert(es[j as int] == *e);
            assert(out@ =~= before + language_line(*e));
        }
        i += 1;
    }
    proof {
        let ord = idx.map_values(|i: int| es[i]);
        assert(ord.take(i as int) =~= ord);
        assert(es == registry.entries());
        assert(ord =~= idx.map_values(|i: int| registry.entries()[i]));
        assert(is_permutation(idx, registry.entries().len() as int));
        assert(by_name(registry.entries(), idx));
    }
    out
}

} // verus!
