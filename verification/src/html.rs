//! Self-contained HTML report: inline CSS, no external assets, no script.
use vstd::prelude::*;
use crate::text::{chars_of, push_char};
use crate::fmt::{fmt_int, int_text};
use crate::metrics::FileMetrics;
use crate::report::{fits, tally_all, Report};
use crate::fmt::families;
use crate::table::{
    family_head_row, family_heads, fam_display, fam_members, lemma_families, lemma_sums_fit,
    members_present, names_of, present_rows, sorted_language_rows, language_rows, rows_ordered,
    rv, Row, RowView,
};

verus! {

/// The HTML exporter.
pub struct HtmlExporter;

/// The HTML text of one character: the five markup characters become
/// entities, every other character stands for itself.
pub open spec fn escape_char(c: char) -> Seq<char> {
    if c == '&' {
        "&amp;"@
    } else if c == '<' {
        "&lt;"@
    } else if c == '>' {
        "&gt;"@
    } else if c == '"' {
        "&quot;"@
    } else if c == '\'' {
        "&#39;"@
    } else {
        seq![c]
    }
}

/// The HTML text of `s`.
pub open spec fn escaped(s: Seq<char>) -> Seq<char>
    decreases s.len(),
{
    if s.len() == 0 {
        seq![]
    } else {
        escaped(s.drop_last()) + escape_char(s.last())
    }
}

/// Escaped text is safe to place anywhere in a page: it holds no `<`, `>`,
/// `"` or `'`; and escaping goes character by character, so escaping two
/// texts one after the other is escaping them joined.
pub proof fn law_escaped_is_safe(a: Seq<char>, b: Seq<char>)
    ensures
        forall|i: int|
            0 <= i < escaped(a).len() ==> #[trigger] escaped(a)[i] != '<' && escaped(a)[i] != '>'
                && escaped(a)[i] != '"' && escaped(a)[i] != '\'',
        escaped(a + b) == escaped(a) + escaped(b),
    decreases a.len() + b.len(),
{
    reveal_strlit("&amp;");
    reveal_strlit("&lt;");
    reveal_strlit("&gt;");
    reveal_strlit("&quot;");
    reveal_strlit("&#39;");
    if a.len() > 0 {
        law_escaped_is_safe(a.drop_last(), b);
        let p = escaped(a.drop_last());
        let e = escape_char(a.last());
        assert forall|i: int|
            0 <= i < escaped(a).len() implies #[trigger] escaped(a)[i] != '<' && escaped(a)[i] != '>'
                && escaped(a)[i] != '"' && escaped(a)[i] != '\'' by {
            if i >= p.len() {
                assert(escaped(a)[i] == e[i - p.len()]);
            } else {
                assert(escaped(a)[i] == p[i]);
            }
        }
    }
    if b.len() == 0 {
        assert(a + b =~= a);
        assert(escaped(a) + escaped(b) =~= escaped(a));
    } else {
        law_escaped_is_safe(a, b.drop_last());
        assert((a + b).drop_last() =~= a + b.drop_last());
        assert((a + b).last() == b.last());
        assert(escaped(a + b) =~= escaped(a) + escaped(b));
    }
}

/// Escape text for HTML element content and attribute values.
pub fn escape(s: &str) -> (out: String)
    ensures
        out@ == escaped(s@),
{
    let cs = chars_of(s);
    let mut out = String::new();
    let mut i: usize = 0;
    while i < cs.len()
        invariant
            cs@ == s@,
            i <= cs@.len(),
            out@ == escaped(s@.take(i as int)),
        decreases cs@.len() - i,
    {
        let c = cs[i];
        let ghost before = out@;
        if c == '&' {
            out.append("&amp;");
        } else if c == '<' {
            out.append("&lt;");
        } else if c == '>' {
            out.append("&gt;");
        } else if c == '"' {
            out.append("&quot;");
        } else if c == '\'' {
            out.append("&#39;");
        } else {
            push_char(&mut out, c);
        }
        proof {
            assert(s@.take(i + 1).drop_last() =~= s@.take(i as int));
            assert(out@ =~= before + escape_char(c));
        }
        i += 1;
    }
    proof {
        assert(s@.take(cs@.len() as int) =~= s@);
    }
    out
}

/// A table cell holding `text`.
pub fn cell(text: &str) -> (r: String)
    ensures
        r@ == "<td>"@ + text@ + "</td>"@,
{
    let mut r = String::from_str("<td>");
    r.append(text);
    r.append("</td>");
    r
}

/// A greyed-out table cell holding `text`.
pub fn muted_cell(text: &str) -> (r: String)
    ensures
        r@ == "<td class=\"muted\">"@ + text@ + "</td>"@,
{
    let mut r = String::from_str("<td class=\"muted\">");
    r.append(text);
    r.append("</td>");
    r
}

/// The style sheet, inlined in the document's head.
pub const CSS: &'static str = "\
* { box-sizing: border-box; }
body { font: 14px/1.5 -apple-system, system-ui, sans-serif; max-width: 1200px; margin: 2em auto; padding: 0 1.5em; color: #1a1a1a; background: #fff; }
header { border-bottom: 2px solid #2563eb; padding-bottom: 1em; margin-bottom: 2em; }
header h1 { margin: 0 0 .25em; font-size: 1.8em; color: #2563eb; }
header p { margin: 0; color: #555; font-size: .95em; }
h2 { margin: 2em 0 .5em; font-size: 1.2em; border-bottom: 1px solid #ddd; padding-bottom: .25em; }
table { border-collapse: collapse; width: 100%; font-size: .92em; }
th, td { padding: 6px 10px; text-align: right; border-bottom: 1px solid #eee; }
th:first-child, td:first-child { text-align: left; }
th { background: #f4f6fa; color: #333; font-weight: 600; }
tr:hover td { background: #fbfbfd; }
td.muted { color: #999; }
td.hot { color: #c2410c; font-weight: 600; }
tr.family td { background: #f8fafc; font-style: italic; color: #555; border-top: 1px solid #ddd; }
code { font: 12.5px ui-monospace, SF Mono, Consolas, monospace; color: #4338ca; }
footer { margin-top: 3em; padding-top: 1em; border-top: 1px solid #eee; font-size: .85em; color: #999; }
";

/// A printed row of the languages table: a name and its number cells.
pub struct TextRow {
    pub name: Seq<char>,
    pub cells: Seq<Seq<char>>,
}

/// A printed row of the files table: the texts of its cells, the optional
/// metrics present only when the file has them.
pub struct FileText {
    pub path: Seq<char>,
    pub language: Seq<char>,
    pub lines: Seq<char>,
    pub code: Seq<char>,
    pub functions: Option<Seq<char>>,
    pub cyclomatic: Option<Seq<char>>,
}

/// Cells holding the texts, in order.
pub open spec fn cells_html(cs: Seq<Seq<char>>) -> Seq<char>
    decreases cs.len(),
{
    if cs.len() == 0 {
        seq![]
    } else {
        cells_html(cs.drop_last()) + "<td>"@ + cs.last() + "</td>"@
    }
}

/// A row of the languages table; family sub-totals carry the `family`
/// class.
pub open spec fn lang_row_html(r: TextRow, family: bool) -> Seq<char> {
    (if family {
        "<tr class=\"family\">"@
    } else {
        "<tr>"@
    }) + "<td>"@ + escaped(r.name) + "</td>"@ + cells_html(r.cells) + "</tr>"@
}

pub open spec fn lang_rows_html(rs: Seq<TextRow>, family: bool) -> Seq<char>
    decreases rs.len(),
{
    if rs.len() == 0 {
        seq![]
    } else {
        lang_rows_html(rs.drop_last(), family) + lang_row_html(rs.last(), family)
    }
}

/// The dash of a missing value, greyed out.
pub open spec fn dash_cell() -> Seq<char> {
    "<td class=\"muted\">"@ + "\u{2014}"@ + "</td>"@
}

/// A cell for a value that may be missing.
pub open spec fn opt_cell(t: Option<Seq<char>>) -> Seq<char> {
    match t {
        Some(x) => "<td>"@ + x + "</td>"@,
        None => dash_cell(),
    }
}

/// A row of the files table. Without git data, changes and hotspot are
/// dashes.
pub open spec fn file_row_html(f: FileText) -> Seq<char> {
    "<tr><td><code>"@ + escaped(f.path) + "</code></td><td>"@ + escaped(f.language) + "</td><td>"@
        + f.lines + "</td><td>"@ + f.code + "</td>"@ + opt_cell(f.functions) + opt_cell(
        f.cyclomatic,
    ) + dash_cell() + dash_cell() + "</tr>"@
}

pub open spec fn file_rows_html(fs: Seq<FileText>) -> Seq<char>
    decreases fs.len(),
{
    if fs.len() == 0 {
        seq![]
    } else {
        file_rows_html(fs.drop_last()) + file_row_html(fs.last())
    }
}

pub open spec fn doc_head() -> Seq<char> {
    "<!doctype html><html lang=\"en\"><head><meta charset=\"utf-8\"><title>bscc report</title><style>"@
        + CSS@ + "</style></head><body>"@
}

/// The summary line under the title: files, lines, code, comments, blanks.
pub open spec fn doc_summary(h: Seq<Seq<char>>) -> Seq<char> {
    "<header><h1>bscc report</h1><p>"@ + h[0] + " files &middot; "@ + h[1] + " lines &middot; "@ + h[2]
        + " code &middot; "@ + h[3] + " comments &middot; "@ + h[4] + " blanks</p></header>"@
}

pub open spec fn lang_table_head() -> Seq<char> {
    "<section><h2>Languages</h2><table><thead><tr><th>Language</th><th>Files</th><th>Lines</th><th>Code</th><th>Comments</th><th>Blanks</th></tr></thead><tbody>"@
}

pub open spec fn file_table_head() -> Seq<char> {
    "<section><h2>Files</h2><table><thead><tr><th>Path</th><th>Lang</th><th>Lines</th><th>Code</th><th>Functions</th><th>CC max</th><th>Changes</th><th>Hotspot</th></tr></thead><tbody>"@
}

pub open spec fn table_end() -> Seq<char> {
    "</tbody></table></section>"@
}

pub open spec fn doc_footer() -> Seq<char> {
    "<footer>Generated by <code>bscc</code> &mdash; schema v1</footer></body></html>"@
}

/// The whole document.
pub open spec fn html_text(
    h: Seq<Seq<char>>,
    langs: Seq<TextRow>,
    fams: Seq<TextRow>,
    files: Seq<FileText>,
) -> Seq<char> {
    doc_head() + doc_summary(h) + lang_table_head() + lang_rows_html(langs, false)
        + lang_rows_html(fams, true) + table_end() + file_table_head() + file_rows_html(files)
        + table_end() + doc_footer()
}

/// Append the cells holding `cs`.
pub fn write_cells(sink: &mut String, cs: &Vec<String>)
    ensures
        final(sink)@ == old(sink)@ + cells_html(cs@.map_values(|c: String| c@)),
{
    let ghost start = sink@;
    let ghost v = cs@.map_values(|c: String| c@);
    let mut j: usize = 0;
    assert(v.take(0) =~= Seq::<Seq<char>>::empty());
    while j < cs.len()
        invariant
            j <= cs@.len(),
            v == cs@.map_values(|c: String| c@),
            sink@ == start + cells_html(v.take(j as int)),
        decreases cs@.len() - j,
    {
        sink.append("<td>");
        sink.append(cs[j].as_str());
        sink.append("</td>");
        proof {
            assert(v.take(j + 1).drop_last() =~= v.take(j as int));
            assert(v.take(j + 1).last() == cs@[j as int]@);
            assert(sink@ =~= start + cells_html(v.take(j + 1)));
        }
        j += 1;
    }
    assert(v.take(j as int) =~= v);
}

/// Append a row of the languages table.
pub fn write_lang_row(sink: &mut String, name: &str, cs: &Vec<String>, family: bool)
    ensures
        final(sink)@ == old(sink)@ + lang_row_html(
            TextRow { name: name@, cells: cs@.map_values(|c: String| c@) },
            family,
        ),
{
    let ghost start = sink@;
    if family {
        sink.append("<tr class=\"family\">");
    } else {
        sink.append("<tr>");
    }
    let ghost opened = sink@;
    sink.append("<td>");
    let e = escape(name);
    sink.append(e.as_str());
    sink.append("</td>");
    write_cells(sink, cs);
    sink.append("</tr>");
    assert(sink@ =~= start + lang_row_html(
        TextRow { name: name@, cells: cs@.map_values(|c: String| c@) },
        family,
    ));
}

/// The cell of an optional count: its number, or a dash.
fn opt_count_cell(n: Option<u32>) -> (r: (String, Ghost<Option<Seq<char>>>))
    ensures
        r.0@ == opt_cell(r.1@),
        r.1@ is Some == n is Some,
        r.1@ matches Some(t) ==> int_text(n.unwrap() as nat, t),
{
    match n {
        Some(v) => {
            let t = fmt_int(v);
            (cell(t.as_str()), Ghost(Some(t@)))
        },
        None => {
            let r = muted_cell("\u{2014}");
            (r, Ghost(None))
        },
    }
}

/// Append a row of the files table for `f`.
#[verifier::rlimit(30)]
fn write_file_row(sink: &mut String, f: &FileMetrics) -> (ft: Ghost<FileText>)
    ensures
        final(sink)@ == old(sink)@ + file_row_html(ft@),
        ft@.path == f.path@,
        ft@.language == f.language@,
        ft@.functions is Some == f.functions is Some,
        ft@.cyclomatic is Some == f.cyclomatic_max is Some,
        file_text_shows(ft@, *f),
{
    let ghost start = sink@;
    let lines = fmt_int(f.lines);
    let code = fmt_int(f.code);
    let (funcs, gf) = opt_count_cell(f.functions);
    let (cc, gc) = opt_count_cell(f.cyclomatic_max);
    let changes = muted_cell("\u{2014}");
    let hotspot = muted_cell("\u{2014}");
    sink.append("<tr><td><code>");
    let p = escape(f.path.as_str());
    sink.append(p.as_str());
    sink.append("</code></td><td>");
    let l = escape(f.language.as_str());
    sink.append(l.as_str());
    sink.append("</td><td>");
    sink.append(lines.as_str());
    sink.append("</td><td>");
    sink.append(code.as_str());
    sink.append("</td>");
    sink.append(funcs.as_str());
    sink.append(cc.as_str());
    sink.append(changes.as_str());
    sink.append(hotspot.as_str());
    sink.append("</tr>");
    let ghost ft = FileText {
        path: f.path@,
        language: f.language@,
        lines: lines@,
        code: code@,
        functions: gf@,
        cyclomatic: gc@,
    };
    assert(sink@ =~= start + file_row_html(ft));
    Ghost(ft)
}

/// The five cells show the counts `a` to `e`, in the locale's format.
pub open spec fn counts_shown(cs: Seq<Seq<char>>, a: nat, b: nat, c: nat, d: nat, e: nat) -> bool {
    &&& cs.len() == 5
    &&& int_text(a, cs[0])
    &&& int_text(b, cs[1])
    &&& int_text(c, cs[2])
    &&& int_text(d, cs[3])
    &&& int_text(e, cs[4])
}

/// The cells of a language row show the files, lines, code, comments and
/// blanks of `v`.
pub open spec fn row_counts_shown(cs: Seq<Seq<char>>, v: RowView) -> bool {
    counts_shown(cs, v.files, v.lines, v.code, v.comments, v.blanks)
}

/// The number cells of a files-table row show the file's counts.
pub open spec fn file_text_shows(ft: FileText, f: FileMetrics) -> bool {
    &&& int_text(f.lines as nat, ft.lines)
    &&& int_text(f.code as nat, ft.code)
    &&& ft.functions matches Some(t) ==> int_text(f.functions.unwrap() as nat, t)
    &&& ft.cyclomatic matches Some(t) ==> int_text(f.cyclomatic_max.unwrap() as nat, t)
}

/// The document of the report's files, with the summary numbers `h`, the
/// language rows `langs` (one per language of `rows`, in display order),
/// the family sub-totals `fams` (one per active family, in family order)
/// and a row per file, took `before` to `after`. The number texts are in the
/// locale's format: plain digits below a thousand.
pub open spec fn html_drawn(
    files: Seq<FileMetrics>,
    rows: Seq<Row>,
    h: Seq<Seq<char>>,
    langs: Seq<TextRow>,
    fams: Seq<TextRow>,
    fs: Seq<FileText>,
    before: Seq<char>,
    after: Seq<char>,
) -> bool {
    &&& language_rows(files, rows, false, Seq::<(String, u64)>::empty())
    &&& rows_ordered(rows)
    &&& h.len() == 5
    &&& counts_shown(
        h,
        tally_all(files).files,
        tally_all(files).lines,
        tally_all(files).code,
        tally_all(files).comments,
        tally_all(files).blanks,
    )
    &&& forall|i: int| 0 <= i < langs.len() ==> row_counts_shown((#[trigger] langs[i]).cells, rv(rows[i]))
    &&& forall|i: int|
        0 <= i < fams.len() ==> row_counts_shown((#[trigger] fams[i]).cells, family_heads(rows, 3)[i])
    &&& forall|i: int| 0 <= i < fs.len() ==> file_text_shows(#[trigger] fs[i], files[i])
    &&& langs.len() == rows.len()
    &&& forall|i: int|
        0 <= i < langs.len() ==> (#[trigger] langs[i]).name == rows[i].name@ && langs[i].cells.len()
            == 5
    &&& fams.len() == family_heads(rows, 3).len()
    &&& forall|i: int|
        0 <= i < fams.len() ==> (#[trigger] fams[i]).name == family_heads(rows, 3)[i].name
            && fams[i].cells.len() == 5
    &&& fs.len() == files.len()
    &&& forall|i: int|
        0 <= i < fs.len() ==> {
            &&& (#[trigger] fs[i]).path == files[i].path@
            &&& fs[i].language == files[i].language@
            &&& fs[i].functions is Some == files[i].functions is Some
            &&& fs[i].cyclomatic is Some == files[i].cyclomatic_max is Some
        }
    &&& after == before + html_text(h, langs, fams, fs)
}

fn five_cells(a: u32, b: u32, c: u32, d: u32, e: u32) -> (v: Vec<String>)
    ensures
        v@.len() == 5,
        counts_shown(v@.map_values(|c: String| c@), a as nat, b as nat, c as nat, d as nat, e as nat),
{
    let mut v: Vec<String> = Vec::new();
    v.push(fmt_int(a));
    v.push(fmt_int(b));
    v.push(fmt_int(c));
    v.push(fmt_int(d));
    v.push(fmt_int(e));
    assert(v@.map_values(|c: String| c@).len() == 5);
    v
}

impl HtmlExporter {
    /// Print the report as a self-contained HTML document: a summary of
    /// the totals, the languages table (by lines, with family sub-totals)
    /// and the files table.
    #[verifier::rlimit(40)]
    pub fn write(&self, report: &Report, sink: &mut String)
        requires
            fits(tally_all(report.files@)),
        ensures
            exists|
                rows: Seq<Row>,
                h: Seq<Seq<char>>,
                langs: Seq<TextRow>,
                fams: Seq<TextRow>,
                fs: Seq<FileText>,
            | #[trigger] html_drawn(report.files@, rows, h, langs, fams, fs, old(sink)@, final(sink)@),
    {
        let ghost files = report.files@;
        let ghost start = sink@;
        let total = report.grand_total();
        let no_costs: Vec<(String, u64)> = Vec::new();
        let rows = sorted_language_rows(report, false, &no_costs);
        proof {
            assert(crate::table::costs_fit(files, false, no_costs@));
            lemma_sums_fit(rows@, files, false, no_costs@);
        }
        sink.append(
            "<!doctype html><html lang=\"en\"><head><meta charset=\"utf-8\"><title>bscc report</title><style>",
        );
        sink.append(CSS);
        sink.append("</style></head><body>");
        let hs = five_cells(total.files, total.lines, total.code, total.comments, total.blanks);
        let ghost h = hs@.map_values(|c: String| c@);
        sink.append("<header><h1>bscc report</h1><p>");
        sink.append(hs[0].as_str());
        sink.append(" files &middot; ");
        sink.append(hs[1].as_str());
        sink.append(" lines &middot; ");
        sink.append(hs[2].as_str());
        sink.append(" code &middot; ");
        sink.append(hs[3].as_str());
        sink.append(" comments &middot; ");
        sink.append(hs[4].as_str());
        sink.append(" blanks</p></header>");
        sink.append(
            "<section><h2>Languages</h2><table><thead><tr><th>Language</th><th>Files</th><th>Lines</th><th>Code</th><th>Comments</th><th>Blanks</th></tr></thead><tbody>",
        );
        assert(sink@ =~= start + doc_head() + doc_summary(h) + lang_table_head());
        let ghost at_langs = sink@;
        let ghost mut langs: Seq<TextRow> = seq![];
        let mut k: usize = 0;
        while k < rows.len()
            invariant
                k <= rows@.len(),
                langs.len() == k,
                forall|i: int|
                    0 <= i < k ==> (#[trigger] langs[i]).name == rows@[i].name@ && langs[i].cells.len()
                        == 5 && row_counts_shown(langs[i].cells, rv(rows@[i])),
                sink@ == at_langs + lang_rows_html(langs, false),
            decreases rows@.len() - k,
        {
            let r = &rows[k];
            let cs = five_cells(r.files, r.lines, r.code, r.comments, r.blanks);
            write_lang_row(sink, r.name.as_str(), &cs, false);
            proof {
                let t = TextRow { name: r.name@, cells: cs@.map_values(|c: String| c@) };
                let old_langs = langs;
                langs = langs.push(t);
                assert(langs.drop_last() =~= old_langs);
            }
            k += 1;
        }
        let ghost at_fams = sink@;
        let fam_list = families();
        proof {
            lemma_families(fam_list@);
        }
        let ghost mut fams: Seq<TextRow> = seq![];
        let mut f: usize = 0;
        while f < fam_list.len()
            invariant
                f <= 3,
                fam_list@.len() == 3,
                crate::table::sums_fit(rows@),
                forall|g: int|
                    0 <= g < 3 ==> #[trigger] names_of(fam_list@[g].members@) == fam_members(g)
                        && fam_list@[g].display@ == fam_display(g),
                fams.len() == family_heads(rows@, f as int).len(),
                forall|i: int|
                    0 <= i < fams.len() ==> (#[trigger] fams[i]).name == family_heads(rows@, f as int)[i].name
                        && fams[i].cells.len() == 5 && row_counts_shown(fams[i].cells, family_heads(rows@, f as int)[i]),
                sink@ == at_fams + lang_rows_html(fams, true),
            decreases 3 - f,
        {
            let fam = &fam_list[f];
            assert(names_of(fam_list@[f as int].members@) == fam_members(f as int));
            let ms = present_rows(&rows, &fam.members);
            assert(ms@ == members_present(rows@, f as int));
            if ms.len() >= 2 {
                let head = family_head_row(fam.display, &ms);
                let cs = five_cells(head.files, head.lines, head.code, head.comments, head.blanks);
                write_lang_row(sink, fam.display, &cs, true);
                proof {
                    let t = TextRow { name: fam.display@, cells: cs@.map_values(|c: String| c@) };
                    let old_fams = fams;
                    fams = fams.push(t);
                    assert(fams.drop_last() =~= old_fams);
                }
            }
            f += 1;
        }
        sink.append("</tbody></table></section>");
        sink.append(
            "<section><h2>Files</h2><table><thead><tr><th>Path</th><th>Lang</th><th>Lines</th><th>Code</th><th>Functions</th><th>CC max</th><th>Changes</th><th>Hotspot</th></tr></thead><tbody>",
        );
        let ghost at_files = sink@;
        let ghost mut fs: Seq<FileText> = seq![];
        let mut j: usize = 0;
        while j < report.files.len()
            invariant
                j <= files.len(),
                files == report.files@,
                fs.len() == j,
                forall|i: int|
                    0 <= i < j ==> {
                        &&& (#[trigger] fs[i]).path == files[i].path@
                        &&& fs[i].language == files[i].language@
                        &&& fs[i].functions is Some == files[i].functions is Some
                        &&& fs[i].cyclomatic is Some == files[i].cyclomatic_max is Some
                        &&& file_text_shows(fs[i], files[i])
                    },
                sink@ == at_files + file_rows_html(fs),
            decreases files.len() - j,
        {
            let gt = write_file_row(sink, &report.files[j]);
            proof {
                let old_fs = fs;
                fs = fs.push(gt@);
                assert(fs.drop_last() =~= old_fs);
            }
            j += 1;
        }
        sink.append("</tbody></table></section>");
        sink.append(
            "<footer>Generated by <code>bscc</code> &mdash; schema v1</footer></body></html>",
        );
        proof {
            assert(sink@ =~= start + html_text(h, langs, fams, fs));
            assert(html_drawn(files, rows@, h, langs, fams, fs, start, sink@));
        }
    }
}

/// Escaped text holds no markup: no `<`, `>`, `"` or `'` is left in it.
pub proof fn law_escaped_has_no_markup(s: Seq<char>)
    ensures
        forall|i: int|
            0 <= i < escaped(s).len() ==> {
                let c = #[trigger] escaped(s)[i];
                c != '<' && c != '>' && c != '"' && c != '\''
            },
    decreases s.len(),
{
    if s.len() > 0 {
        law_escaped_has_no_markup(s.drop_last());
        let a = escaped(s.drop_last());
        let b = escape_char(s.last());
        reveal_strlit("&amp;");
        reveal_strlit("&lt;");
        reveal_strlit("&gt;");
        reveal_strlit("&quot;");
        reveal_strlit("&#39;");
        assert forall|i: int| 0 <= i < escaped(s).len() implies {
            let c = #[trigger] escaped(s)[i];
            c != '<' && c != '>' && c != '"' && c != '\''
        } by {
            if i < a.len() {
                assert(escaped(s)[i] == a[i]);
            } else {
                assert(escaped(s)[i] == b[i - a.len()]);
            }
        }
    }
}

} // verus!
