//! CSV: one row per file with every metric field. Optional
//! tree-sitter-tier fields are empty when absent.
use vstd::prelude::*;
use crate::fmt::{decimal, lemma_decimal_digits, push_decimal};
use crate::git::{lines_acc, strip_cr, text_lines};
use crate::metrics::FileMetrics;
use crate::report::Report;
use crate::text::{chars_of, push_char};

use crate::exporter::Exporter;

verus! {

/// The CSV exporter.
pub struct CsvExporter;

/// The header line.
pub open spec fn csv_header() -> Seq<char> {
    "path,language,bytes,lines,code,comments,blanks,functions,cyclomatic_total,cyclomatic_max,cognitive,max_nesting_depth,longest_function_lines,todo_comments,imports"@
}

/// A field needs quoting when it holds a comma, a double quote or a newline.
pub open spec fn needs_quote(v: Seq<char>) -> bool {
    exists|i: int| 0 <= i < v.len() && (v[i] == ',' || v[i] == '"' || v[i] == '\n')
}

/// The field's characters with each double quote doubled.
pub open spec fn double_quotes(v: Seq<char>) -> Seq<char>
    decreases v.len(),
{
    if v.len() == 0 {
        seq![]
    } else if v.last() == '"' {
        double_quotes(v.drop_last()) + seq!['"', '"']
    } else {
        double_quotes(v.drop_last()).push(v.last())
    }
}

/// Quotes are doubled one character at a time: doubling the quotes of two
/// texts one after the other is doubling them in each, a double quote
/// becomes two, and any other character stays as it is.
pub proof fn law_double_quotes(a: Seq<char>, b: Seq<char>)
    ensures
        double_quotes(a + b) == double_quotes(a) + double_quotes(b),
        forall|c: char| #[trigger] double_quotes(seq![c]) == (if c == '"' { seq!['"', '"'] } else { seq![c] }),
    decreases b.len(),
{
    assert forall|c: char| #[trigger] double_quotes(seq![c]) == (if c == '"' { seq!['"', '"'] } else { seq![c] }) by {
        let e = Seq::<char>::empty();
        assert(seq![c].drop_last() =~= e);
        assert(seq![c].last() == c);
        assert(double_quotes(e) == e);
        assert(double_quotes(seq![c]) == (if c == '"' { double_quotes(e) + seq!['"', '"'] } else { double_quotes(e).push(c) }));
        assert(e + seq!['"', '"'] =~= seq!['"', '"']);
        assert(e.push(c) =~= seq![c]);
    }
    if b.len() == 0 {
        assert(a + b =~= a);
        assert(double_quotes(a) + double_quotes(b) =~= double_quotes(a));
    } else {
        law_double_quotes(a, b.drop_last());
        assert((a + b).drop_last() =~= a + b.drop_last());
        assert((a + b).last() == b.last());
        assert(double_quotes(a + b) =~= double_quotes(a) + double_quotes(b));
    }
}

/// A field as it appears in a row.
pub open spec fn csv_field(v: Seq<char>) -> Seq<char> {
    if needs_quote(v) {
        seq!['"'] + double_quotes(v) + seq!['"']
    } else {
        v
    }
}

/// An optional count: a comma, then the number if there is one.
pub open spec fn csv_opt(n: Option<u32>) -> Seq<char> {
    match n {
        Some(v) => seq![','] + decimal(v as nat),
        None => seq![','],
    }
}

/// One file's row, newline included.
pub open spec fn csv_row(f: FileMetrics) -> Seq<char> {
    csv_head(f) + csv_tail(f) + seq!['\n']
}

/// The rows of `files`, in order.
pub open spec fn csv_rows(files: Seq<FileMetrics>) -> Seq<char>
    decreases files.len(),
{
    if files.len() == 0 {
        seq![]
    } else {
        csv_rows(files.drop_last()) + csv_row(files.last())
    }
}

/// The whole document: the header line, then one row per file.
pub open spec fn csv_document(files: Seq<FileMetrics>) -> Seq<char> {
    csv_header() + seq!['\n'] + csv_rows(files)
}

/// Append a field, preceded by a comma unless it is the first.
fn write_csv_field(sink: &mut String, value: &str, first: bool)
    ensures
        final(sink)@ == old(sink)@ + (if first {
            seq![]
        } else {
            seq![',']
        }) + csv_field(value@),
{
    let ghost start = sink@;
    if !first {
        push_char(sink, ',');
    }
    let ghost base = sink@;
    let cs = chars_of(value);
    let mut needs = false;
    let mut i: usize = 0;
    while i < cs.len()
        invariant
            cs@ == value@,
            i <= cs@.len(),
            needs == exists|j: int| 0 <= j < i && (cs@[j] == ',' || cs@[j] == '"' || cs@[j] == '\n'),
        decreases cs@.len() - i,
    {
        if cs[i] == ',' || cs[i] == '"' || cs[i] == '\n' {
            needs = true;
        }
        i += 1;
    }
    if needs {
        push_char(sink, '"');
        let mut i: usize = 0;
        while i < cs.len()
            invariant
                cs@ == value@,
                i <= cs@.len(),
                sink@ == base + seq!['"'] + double_quotes(value@.take(i as int)),
            decreases cs@.len() - i,
        {
            if cs[i] == '"' {
                push_char(sink, '"');
                push_char(sink, '"');
            } else {
                push_char(sink, cs[i]);
            }
            proof {
                assert(value@.take(i + 1).drop_last() =~= value@.take(i as int));
            }
            i += 1;
        }
        push_char(sink, '"');
        proof {
            assert(value@.take(cs@.len() as int) =~= value@);
        }
    } else {
        let mut i: usize = 0;
        while i < cs.len()
            invariant
                cs@ == value@,
                i <= cs@.len(),
                sink@ == base + value@.take(i as int),
            decreases cs@.len() - i,
        {
            push_char(sink, cs[i]);
            proof {
                assert(value@.take(i + 1) =~= value@.take(i as int).push(value@[i as int]));
            }
            i += 1;
        }
        proof {
            assert(value@.take(cs@.len() as int) =~= value@);
        }
    }
    assert(sink@ =~= start + (if first {
        seq![]
    } else {
        seq![',']
    }) + csv_field(value@));
}

/// Append a number, preceded by a comma unless it is the first.
fn write_num(sink: &mut String, n: u64, first: bool)
    ensures
        final(sink)@ == old(sink)@ + (if first {
            seq![]
        } else {
            seq![',']
        }) + decimal(n as nat),
{
    let ghost start = sink@;
    if !first {
        push_char(sink, ',');
    }
    push_decimal(sink, n);
    assert(sink@ =~= start + (if first {
        seq![]
    } else {
        seq![',']
    }) + decimal(n as nat));
}

/// Append a comma, then the number if there is one.
fn write_opt(sink: &mut String, n: Option<u32>)
    ensures
        final(sink)@ == old(sink)@ + csv_opt(n),
{
    let ghost start = sink@;
    push_char(sink, ',');
    if let Some(v) = n {
        push_decimal(sink, v as u64);
    }
    assert(sink@ =~= start + csv_opt(n));
}

/// The fixed-position part of a row: path, language and line counts.
pub open spec fn csv_head(f: FileMetrics) -> Seq<char> {
    csv_field(f.path@) + seq![','] + csv_field(f.language@) + seq![','] + decimal(f.bytes as nat)
        + seq![','] + decimal(f.lines as nat) + seq![','] + decimal(f.code as nat) + seq![',']
        + decimal(f.comments as nat) + seq![','] + decimal(f.blanks as nat)
}

/// The optional tree-sitter fields of a row.
pub open spec fn csv_tail(f: FileMetrics) -> Seq<char> {
    csv_opt(f.functions) + csv_opt(f.cyclomatic_total) + csv_opt(f.cyclomatic_max) + csv_opt(
        f.cognitive,
    ) + csv_opt(f.max_nesting_depth) + csv_opt(f.longest_function_lines) + csv_opt(f.todo_comments)
        + csv_opt(f.imports)
}

#[verifier::rlimit(30)]
fn write_head(sink: &mut String, f: &FileMetrics)
    ensures
        final(sink)@ == old(sink)@ + csv_head(*f),
{
    let ghost s0 = sink@;
    write_csv_field(sink, f.path.as_str(), true);
    let ghost s1 = sink@;
    assert(s1 =~= s0 + csv_field(f.path@));
    write_csv_field(sink, f.language.as_str(), false);
    let ghost s2 = sink@;
    assert(s2 =~= s1 + seq![','] + csv_field(f.language@));
    write_num(sink, f.bytes, false);
    let ghost s3 = sink@;
    write_num(sink, f.lines as u64, false);
    let ghost s4 = sink@;
    write_num(sink, f.code as u64, false);
    let ghost s5 = sink@;
    write_num(sink, f.comments as u64, false);
    let ghost s6 = sink@;
    write_num(sink, f.blanks as u64, false);
    assert(sink@ =~= s0 + csv_head(*f));
}

#[verifier::rlimit(30)]
fn write_tail(sink: &mut String, f: &FileMetrics)
    ensures
        final(sink)@ == old(sink)@ + csv_tail(*f),
{
    let ghost s0 = sink@;
    write_opt(sink, f.functions);
    write_opt(sink, f.cyclomatic_total);
    write_opt(sink, f.cyclomatic_max);
    write_opt(sink, f.cognitive);
    write_opt(sink, f.max_nesting_depth);
    write_opt(sink, f.longest_function_lines);
    write_opt(sink, f.todo_comments);
    write_opt(sink, f.imports);
    assert(sink@ =~= s0 + csv_tail(*f));
}

fn write_row(sink: &mut String, f: &FileMetrics)
    ensures
        final(sink)@ == old(sink)@ + csv_row(*f),
{
    let ghost start = sink@;
    write_head(sink, f);
    write_tail(sink, f);
    push_char(sink, '\n');
    assert(sink@ =~= start + csv_row(*f));
}

impl Exporter for CsvExporter {
    /// Append the CSV document of the report: the header line, then one
    /// row per file, in report order.
    fn write(&self, report: &Report, sink: &mut String)
        ensures
            final(sink)@ == old(sink)@ + csv_document(report.files@),
    {
        let ghost start = sink@;
        sink.append("path,language,bytes,lines,code,comments,blanks,functions,cyclomatic_total,cyclomatic_max,cognitive,max_nesting_depth,longest_function_lines,todo_comments,imports");
        push_char(sink, '\n');
        let ghost files = report.files@;
        let mut k: usize = 0;
        assert(files.take(0) =~= Seq::<FileMetrics>::empty());
        while k < report.files.len()
            invariant
                files == report.files@,
                k <= files.len(),
                sink@ == start + csv_header() + seq!['\n'] + csv_rows(files.take(k as int)),
            decreases files.len() - k,
        {
            write_row(sink, &report.files[k]);
            proof {
                assert(files.take(k + 1).drop_last() =~= files.take(k as int));
            }
            k += 1;
        }
        proof {
            assert(files.take(files.len() as int) =~= files);
        }
        assert(sink@ =~= start + csv_document(files));
    }
}

/// `s` holds no newline.
pub open spec fn no_newline(s: Seq<char>) -> bool {
    forall|i: int| 0 <= i < s.len() ==> s[i] != '\n'
}

proof fn lemma_cat(a: Seq<char>, b: Seq<char>)
    requires
        no_newline(a),
        no_newline(b),
    ensures
        no_newline(a + b),
{
    assert forall|i: int| 0 <= i < (a + b).len() implies (a + b)[i] != '\n' by {
        if i < a.len() {
            assert((a + b)[i] == a[i]);
        } else {
            assert((a + b)[i] == b[i - a.len()]);
        }
    }
}

proof fn lemma_decimal_no_newline(n: nat)
    ensures
        no_newline(decimal(n)),
        decimal(n).len() > 0,
        '0' <= decimal(n).last() <= '9',
{
    lemma_decimal_digits(n);
    assert(decimal(n).len() > 0) by {
        if n >= 10 {
            assert(decimal(n) == decimal(n / 10).push(crate::fmt::digit(n % 10)));
        }
    }
    assert(decimal(n)[decimal(n).len() - 1] == decimal(n).last());
}

proof fn lemma_double_quotes_no_newline(v: Seq<char>)
    requires
        no_newline(v),
    ensures
        no_newline(double_quotes(v)),
    decreases v.len(),
{
    if v.len() > 0 {
        let d = v.drop_last();
        assert(no_newline(d)) by {
            assert forall|i: int| 0 <= i < d.len() implies d[i] != '\n' by {
                assert(d[i] == v[i]);
            }
        }
        lemma_double_quotes_no_newline(d);
        assert(v[v.len() - 1] == v.last());
        if v.last() == '"' {
            lemma_cat(double_quotes(d), seq!['"', '"']);
        } else {
            lemma_cat(double_quotes(d), seq![v.last()]);
            assert(double_quotes(d).push(v.last()) =~= double_quotes(d) + seq![v.last()]);
        }
    }
}

proof fn lemma_field_no_newline(v: Seq<char>)
    requires
        no_newline(v),
    ensures
        no_newline(csv_field(v)),
{
    if needs_quote(v) {
        lemma_double_quotes_no_newline(v);
        lemma_cat(seq!['"'], double_quotes(v));
        lemma_cat(seq!['"'] + double_quotes(v), seq!['"']);
    }
}

proof fn lemma_opt_no_newline(n: Option<u32>)
    ensures
        no_newline(csv_opt(n)),
        csv_opt(n).len() > 0,
        csv_opt(n).last() != '\r',
{
    match n {
        Some(v) => {
            lemma_decimal_no_newline(v as nat);
            lemma_cat(seq![','], decimal(v as nat));
            let s = seq![','] + decimal(v as nat);
            assert(s.last() == decimal(v as nat).last());
        },
        None => {},
    }
}

/// The text of a file's row, without its newline.
pub open spec fn row_body(f: FileMetrics) -> Seq<char> {
    csv_head(f) + csv_tail(f)
}

proof fn lemma_row_body(f: FileMetrics)
    requires
        no_newline(f.path@),
        no_newline(f.language@),
    ensures
        no_newline(row_body(f)),
        strip_cr(row_body(f)) == row_body(f),
{
    let c = seq![','];
    lemma_field_no_newline(f.path@);
    lemma_field_no_newline(f.language@);
    lemma_decimal_no_newline(f.bytes as nat);
    lemma_decimal_no_newline(f.lines as nat);
    lemma_decimal_no_newline(f.code as nat);
    lemma_decimal_no_newline(f.comments as nat);
    lemma_decimal_no_newline(f.blanks as nat);
    let mut h = csv_field(f.path@);
    lemma_cat(h, c);
    h = h + c;
    lemma_cat(h, csv_field(f.language@));
    h = h + csv_field(f.language@);
    lemma_cat(h, c);
    h = h + c;
    lemma_cat(h, decimal(f.bytes as nat));
    h = h + decimal(f.bytes as nat);
    lemma_cat(h, c);
    h = h + c;
    lemma_cat(h, decimal(f.lines as nat));
    h = h + decimal(f.lines as nat);
    lemma_cat(h, c);
    h = h + c;
    lemma_cat(h, decimal(f.code as nat));
    h = h + decimal(f.code as nat);
    lemma_cat(h, c);
    h = h + c;
    lemma_cat(h, decimal(f.comments as nat));
    h = h + decimal(f.comments as nat);
    lemma_cat(h, c);
    h = h + c;
    lemma_cat(h, decimal(f.blanks as nat));
    h = h + decimal(f.blanks as nat);
    assert(h == csv_head(f));
    lemma_opt_no_newline(f.functions);
    lemma_opt_no_newline(f.cyclomatic_total);
    lemma_opt_no_newline(f.cyclomatic_max);
    lemma_opt_no_newline(f.cognitive);
    lemma_opt_no_newline(f.max_nesting_depth);
    lemma_opt_no_newline(f.longest_function_lines);
    lemma_opt_no_newline(f.todo_comments);
    lemma_opt_no_newline(f.imports);
    let mut t = csv_opt(f.functions);
    lemma_cat(t, csv_opt(f.cyclomatic_total));
    t = t + csv_opt(f.cyclomatic_total);
    lemma_cat(t, csv_opt(f.cyclomatic_max));
    t = t + csv_opt(f.cyclomatic_max);
    lemma_cat(t, csv_opt(f.cognitive));
    t = t + csv_opt(f.cognitive);
    lemma_cat(t, csv_opt(f.max_nesting_depth));
    t = t + csv_opt(f.max_nesting_depth);
    lemma_cat(t, csv_opt(f.longest_function_lines));
    t = t + csv_opt(f.longest_function_lines);
    lemma_cat(t, csv_opt(f.todo_comments));
    t = t + csv_opt(f.todo_comments);
    lemma_cat(t, csv_opt(f.imports));
    let last = csv_opt(f.imports);
    assert((t + last).last() == last.last());
    t = t + last;
    assert(t == csv_tail(f));
    lemma_cat(h, t);
    assert((h + t).last() == t.last());
}

proof fn lemma_lines_acc_append(s: Seq<char>, t: Seq<char>)
    requires
        lines_acc(s).1 == Seq::<char>::empty(),
    ensures
        lines_acc(s + t) == (lines_acc(s).0 + lines_acc(t).0, lines_acc(t).1),
    decreases t.len(),
{
    if t.len() == 0 {
        assert(s + t =~= s);
        assert(lines_acc(s).0 + lines_acc(t).0 =~= lines_acc(s).0);
    } else {
        lemma_lines_acc_append(s, t.drop_last());
        assert((s + t).drop_last() =~= s + t.drop_last());
        assert((s + t).last() == t.last());
        let (a, _) = lines_acc(s);
        let (b, c) = lines_acc(t.drop_last());
        if t.last() == '\n' {
            assert((a + b).push(strip_cr(c)) =~= a + b.push(strip_cr(c)));
        }
    }
}

proof fn lemma_lines_acc_plain(t: Seq<char>)
    requires
        no_newline(t),
    ensures
        lines_acc(t) == (Seq::<Seq<char>>::empty(), t),
    decreases t.len(),
{
    if t.len() > 0 {
        let d = t.drop_last();
        assert(no_newline(d)) by {
            assert forall|i: int| 0 <= i < d.len() implies d[i] != '\n' by {
                assert(d[i] == t[i]);
            }
        }
        lemma_lines_acc_plain(d);
        assert(t[t.len() - 1] == t.last());
        assert(d.push(t.last()) =~= t);
    }
}

proof fn lemma_lines_acc_line(t: Seq<char>)
    requires
        no_newline(t),
    ensures
        lines_acc(t.push('\n')) == (seq![strip_cr(t)], Seq::<char>::empty()),
{
    lemma_lines_acc_plain(t);
    assert(t.push('\n').drop_last() =~= t);
    assert(Seq::<Seq<char>>::empty().push(strip_cr(t)) =~= seq![strip_cr(t)]);
}

proof fn lemma_rows_lines(files: Seq<FileMetrics>)
    requires
        forall|i: int|
            0 <= i < files.len() ==> no_newline((#[trigger] files[i]).path@) && no_newline(
                files[i].language@,
            ),
    ensures
        lines_acc(csv_rows(files)) == (
            files.map_values(|f: FileMetrics| row_body(f)),
            Seq::<char>::empty(),
        ),
    decreases files.len(),
{
    if files.len() == 0 {
        assert(files.map_values(|f: FileMetrics| row_body(f)) =~= Seq::<Seq<char>>::empty());
    } else {
        let d = files.drop_last();
        let f = files.last();
        assert(forall|i: int| 0 <= i < d.len() ==> d[i] == files[i]);
        lemma_rows_lines(d);
        assert(files[files.len() - 1] == f);
        lemma_row_body(f);
        assert(csv_row(f) =~= row_body(f).push('\n'));
        lemma_lines_acc_line(row_body(f));
        lemma_lines_acc_append(csv_rows(d), csv_row(f));
        assert(files.map_values(|f: FileMetrics| row_body(f)) =~= d.map_values(
            |f: FileMetrics| row_body(f),
        ) + seq![row_body(f)]);
    }
}

/// One line per file: when no path or language holds a newline, the
/// document reads back as the header line, then each file's row, in
/// order.
pub proof fn law_header_then_one_line_per_file(files: Seq<FileMetrics>)
    requires
        forall|i: int|
            0 <= i < files.len() ==> no_newline((#[trigger] files[i]).path@) && no_newline(
                files[i].language@,
            ),
    ensures
        text_lines(csv_document(files)) == seq![csv_header()] + files.map_values(
            |f: FileMetrics| row_body(f),
        ),
{
    reveal_strlit(
        "path,language,bytes,lines,code,comments,blanks,functions,cyclomatic_total,cyclomatic_max,cognitive,max_nesting_depth,longest_function_lines,todo_comments,imports",
    );
    assert(no_newline(csv_header()));
    lemma_lines_acc_line(csv_header());
    assert(strip_cr(csv_header()) == csv_header());
    lemma_rows_lines(files);
    assert(csv_header() + seq!['\n'] =~= csv_header().push('\n'));
    lemma_lines_acc_append(csv_header().push('\n'), csv_rows(files));
    assert(csv_document(files) =~= csv_header().push('\n') + csv_rows(files));
}

/// The comma-separated fields of `s`, in order.
pub open spec fn fields(s: Seq<char>) -> Seq<Seq<char>>
    decreases s.len(),
{
    if s.len() == 0 {
        seq![seq![]]
    } else {
        let p = fields(s.drop_last());
        if s.last() == ',' {
            p.push(seq![])
        } else {
            p.update(p.len() - 1, p.last().push(s.last()))
        }
    }
}

/// `s` holds no comma.
pub open spec fn no_comma(s: Seq<char>) -> bool {
    forall|i: int| 0 <= i < s.len() ==> s[i] != ','
}

/// The text of an optional metric in its field: its digits, or nothing.
pub open spec fn opt_text(n: Option<u32>) -> Seq<char> {
    match n {
        Some(v) => decimal(v as nat),
        None => seq![],
    }
}

/// The column names, in header order.
pub open spec fn csv_columns() -> Seq<Seq<char>> {
    seq![
        "path"@, "language"@, "bytes"@, "lines"@, "code"@, "comments"@, "blanks"@, "functions"@,
        "cyclomatic_total"@, "cyclomatic_max"@, "cognitive"@, "max_nesting_depth"@,
        "longest_function_lines"@, "todo_comments"@, "imports"@,
    ]
}

/// The value of the metric a column is named after, for file `f`.
pub open spec fn column_text(f: FileMetrics, name: Seq<char>) -> Seq<char> {
    if name == "path"@ {
        f.path@
    } else if name == "language"@ {
        f.language@
    } else if name == "bytes"@ {
        decimal(f.bytes as nat)
    } else if name == "lines"@ {
        decimal(f.lines as nat)
    } else if name == "code"@ {
        decimal(f.code as nat)
    } else if name == "comments"@ {
        decimal(f.comments as nat)
    } else if name == "blanks"@ {
        decimal(f.blanks as nat)
    } else if name == "functions"@ {
        opt_text(f.functions)
    } else if name == "cyclomatic_total"@ {
        opt_text(f.cyclomatic_total)
    } else if name == "cyclomatic_max"@ {
        opt_text(f.cyclomatic_max)
    } else if name == "cognitive"@ {
        opt_text(f.cognitive)
    } else if name == "max_nesting_depth"@ {
        opt_text(f.max_nesting_depth)
    } else if name == "longest_function_lines"@ {
        opt_text(f.longest_function_lines)
    } else if name == "todo_comments"@ {
        opt_text(f.todo_comments)
    } else {
        opt_text(f.imports)
    }
}

proof fn lemma_fields_plain(b: Seq<char>)
    requires
        no_comma(b),
    ensures
        fields(b) == seq![b],
    decreases b.len(),
{
    if b.len() > 0 {
        lemma_fields_plain(b.drop_last());
        assert(b.drop_last().push(b.last()) =~= b);
        assert(fields(b) =~= seq![b]);
    } else {
        assert(b =~= Seq::<char>::empty());
    }
}

proof fn lemma_fields_append(a: Seq<char>, b: Seq<char>)
    requires
        no_comma(b),
    ensures
        fields(a + seq![','] + b) == fields(a).push(b),
    decreases b.len(),
{
    let s = a + seq![','] + b;
    if b.len() == 0 {
        assert(s.drop_last() =~= a);
        assert(b =~= Seq::<char>::empty());
    } else {
        let b0 = b.drop_last();
        lemma_fields_append(a, b0);
        assert(s.drop_last() =~= a + seq![','] + b0);
        assert(s.last() == b.last());
        assert(b0.push(b.last()) =~= b);
        assert(fields(s) =~= fields(a).push(b));
    }
}

proof fn lemma_decimal_no_comma(n: nat)
    ensures
        no_comma(decimal(n)),
{
    lemma_decimal_digits(n);
}

proof fn lemma_opt_text(n: Option<u32>)
    ensures
        csv_opt(n) == seq![','] + opt_text(n),
        no_comma(opt_text(n)),
{
    match n {
        Some(v) => {
            lemma_decimal_no_comma(v as nat);
        },
        None => {
            assert(seq![','] + Seq::<char>::empty() =~= seq![',']);
        },
    }
}

/// The values of a file's row, in header order.
spec fn row_values(f: FileMetrics) -> Seq<Seq<char>> {
    seq![
        f.path@, f.language@, decimal(f.bytes as nat), decimal(f.lines as nat), decimal(f.code as nat),
        decimal(f.comments as nat), decimal(f.blanks as nat), opt_text(f.functions),
        opt_text(f.cyclomatic_total), opt_text(f.cyclomatic_max), opt_text(f.cognitive),
        opt_text(f.max_nesting_depth), opt_text(f.longest_function_lines), opt_text(f.todo_comments),
        opt_text(f.imports),
    ]
}

proof fn lemma_head_join(f: FileMetrics)
    requires
        !needs_quote(f.path@),
        !needs_quote(f.language@),
    ensures
        join_from(row_values(f), 7) == csv_head(f),
{
    let vals = row_values(f);
    let c = seq![','];
    assert(f.path@ == csv_field(f.path@));
    assert(f.language@ == csv_field(f.language@));
    assert(join_from(vals, 1) == f.path@);
    assert(join_from(vals, 2) == join_from(vals, 1) + c + f.language@);
    assert(join_from(vals, 3) == join_from(vals, 2) + c + decimal(f.bytes as nat));
    assert(join_from(vals, 4) == join_from(vals, 3) + c + decimal(f.lines as nat));
    assert(join_from(vals, 5) == join_from(vals, 4) + c + decimal(f.code as nat));
    assert(join_from(vals, 6) == join_from(vals, 5) + c + decimal(f.comments as nat));
    assert(join_from(vals, 7) == join_from(vals, 6) + c + decimal(f.blanks as nat));
}

proof fn lemma_tail_join(f: FileMetrics)
    requires
        join_from(row_values(f), 7) == csv_head(f),
    ensures
        join_from(row_values(f), 15) == row_body(f),
{
    let vals = row_values(f);
    let h = csv_head(f);
    lemma_opt_text(f.functions);
    lemma_opt_text(f.cyclomatic_total);
    lemma_opt_text(f.cyclomatic_max);
    lemma_opt_text(f.cognitive);
    lemma_opt_text(f.max_nesting_depth);
    lemma_opt_text(f.longest_function_lines);
    lemma_opt_text(f.todo_comments);
    lemma_opt_text(f.imports);
    let t1 = csv_opt(f.functions);
    assert(join_from(vals, 8) =~= h + t1);
    let t2 = t1 + csv_opt(f.cyclomatic_total);
    assert(join_from(vals, 9) =~= h + t2);
    let t3 = t2 + csv_opt(f.cyclomatic_max);
    assert(join_from(vals, 10) =~= h + t3);
    let t4 = t3 + csv_opt(f.cognitive);
    assert(join_from(vals, 11) =~= h + t4);
    let t5 = t4 + csv_opt(f.max_nesting_depth);
    assert(join_from(vals, 12) =~= h + t5);
    let t6 = t5 + csv_opt(f.longest_function_lines);
    assert(join_from(vals, 13) =~= h + t6);
    let t7 = t6 + csv_opt(f.todo_comments);
    assert(join_from(vals, 14) =~= h + t7);
    let t8 = t7 + csv_opt(f.imports);
    assert(join_from(vals, 15) =~= h + t8);
    assert(t8 == csv_tail(f));
}

proof fn lemma_row_fields(f: FileMetrics)
    requires
        !needs_quote(f.path@),
        !needs_quote(f.language@),
    ensures
        fields(row_body(f)) == row_values(f),
{
    let vals = row_values(f);
    lemma_decimal_no_comma(f.bytes as nat);
    lemma_decimal_no_comma(f.lines as nat);
    lemma_decimal_no_comma(f.code as nat);
    lemma_decimal_no_comma(f.comments as nat);
    lemma_decimal_no_comma(f.blanks as nat);
    lemma_opt_text(f.functions);
    lemma_opt_text(f.cyclomatic_total);
    lemma_opt_text(f.cyclomatic_max);
    lemma_opt_text(f.cognitive);
    lemma_opt_text(f.max_nesting_depth);
    lemma_opt_text(f.longest_function_lines);
    lemma_opt_text(f.todo_comments);
    lemma_opt_text(f.imports);
    assert forall|q: int| 0 <= q < 15 implies no_comma(#[trigger] vals[q]) by {}
    lemma_fields_join(vals, 15);
    assert(vals.take(15) =~= vals);
    lemma_head_join(f);
    lemma_tail_join(f);
}

#[verifier::rlimit(50)]
proof fn lemma_column_texts(f: FileMetrics)
    ensures
        forall|k: int| 0 <= k < 15 ==> #[trigger] row_values(f)[k] == column_text(f, csv_columns()[k]),
{
    reveal_strlit("path");
    reveal_strlit("language");
    reveal_strlit("bytes");
    reveal_strlit("lines");
    reveal_strlit("code");
    reveal_strlit("comments");
    reveal_strlit("blanks");
    reveal_strlit("functions");
    reveal_strlit("cyclomatic_total");
    reveal_strlit("cyclomatic_max");
    reveal_strlit("cognitive");
    reveal_strlit("max_nesting_depth");
    reveal_strlit("longest_function_lines");
    reveal_strlit("todo_comments");
    reveal_strlit("imports");
    let cols = csv_columns();
    let vals = row_values(f);
    assert("path"@.len() == 4 && "path"@[0] == 'p');
    assert("language"@.len() == 8 && "language"@[0] == 'l');
    assert("bytes"@.len() == 5 && "bytes"@[0] == 'b');
    assert("lines"@.len() == 5 && "lines"@[0] == 'l');
    assert("code"@.len() == 4 && "code"@[0] == 'c');
    assert("comments"@.len() == 8 && "comments"@[0] == 'c');
    assert("blanks"@.len() == 6);
    assert("functions"@.len() == 9 && "functions"@[0] == 'f');
    assert("cyclomatic_total"@.len() == 16);
    assert("cyclomatic_max"@.len() == 14);
    assert("cognitive"@.len() == 9 && "cognitive"@[0] == 'c');
    assert("max_nesting_depth"@.len() == 17);
    assert("longest_function_lines"@.len() == 22);
    assert("todo_comments"@.len() == 13);
    assert("imports"@.len() == 7);
    assert(column_text(f, cols[0]) == vals[0]);
    assert(column_text(f, cols[1]) == vals[1]);
    assert(column_text(f, cols[2]) == vals[2]);
    assert(column_text(f, cols[3]) == vals[3]);
    assert(column_text(f, cols[4]) == vals[4]);
    assert(column_text(f, cols[5]) == vals[5]);
    assert(column_text(f, cols[6]) == vals[6]);
    assert(column_text(f, cols[7]) == vals[7]);
    assert(column_text(f, cols[8]) == vals[8]);
    assert(column_text(f, cols[9]) == vals[9]);
    assert(column_text(f, cols[10]) == vals[10]);
    assert(column_text(f, cols[11]) == vals[11]);
    assert(column_text(f, cols[12]) == vals[12]);
    assert(column_text(f, cols[13]) == vals[13]);
    assert(column_text(f, cols[14]) == vals[14]);
}

/// Every column of a file's row holds the metric the header names there:
/// the header's fields are the column names, a row has as many fields, and
/// field `k` of the row is the value of the metric named by column `k`
/// (for a path and a language that need no quoting).
pub proof fn law_csv_columns(f: FileMetrics)
    requires
        !needs_quote(f.path@),
        !needs_quote(f.language@),
    ensures
        fields(csv_header()) == csv_columns(),
        fields(row_body(f)).len() == csv_columns().len(),
        forall|k: int| 0 <= k < csv_columns().len() ==> #[trigger] fields(row_body(f))[k] == column_text(
            f,
            csv_columns()[k],
        ),
{
    lemma_header_fields();
    lemma_row_fields(f);
    lemma_column_texts(f);
}

proof fn lemma_fields_join(v: Seq<Seq<char>>, k: int)
    requires
        1 <= k <= v.len(),
        forall|q: int| 0 <= q < k ==> no_comma(#[trigger] v[q]),
    ensures
        fields(join_from(v, k)) == v.take(k),
    decreases k,
{
    if k == 1 {
        lemma_fields_plain(v[0]);
        assert(v.take(1) =~= seq![v[0]]);
    } else {
        lemma_fields_join(v, k - 1);
        lemma_fields_append(join_from(v, k - 1), v[k - 1]);
        assert(v.take(k) =~= v.take(k - 1).push(v[k - 1]));
    }
}

#[verifier::rlimit(100)]
proof fn lemma_header_text()
    ensures
        join_from(csv_columns(), 15) == csv_header(),
{
    let c = seq![','];
    let cols = csv_columns();
    reveal_strlit("path");
    reveal_strlit("language");
    reveal_strlit("bytes");
    reveal_strlit("lines");
    reveal_strlit("code");
    reveal_strlit("comments");
    reveal_strlit("blanks");
    reveal_strlit("functions");
    reveal_strlit("cyclomatic_total");
    reveal_strlit("cyclomatic_max");
    reveal_strlit("cognitive");
    reveal_strlit("max_nesting_depth");
    reveal_strlit("longest_function_lines");
    reveal_strlit("todo_comments");
    reveal_strlit("imports");
    reveal_strlit("path,language,bytes,lines,code,comments,blanks,functions,cyclomatic_total,cyclomatic_max,cognitive,max_nesting_depth,longest_function_lines,todo_comments,imports");
    reveal_with_fuel(join_from, 16);
    assert(join_from(cols, 15) =~= csv_header());
}

proof fn lemma_header_fields()
    ensures
        fields(csv_header()) == csv_columns(),
{
    let cols = csv_columns();
    reveal_strlit("path");
    reveal_strlit("language");
    reveal_strlit("bytes");
    reveal_strlit("lines");
    reveal_strlit("code");
    reveal_strlit("comments");
    reveal_strlit("blanks");
    reveal_strlit("functions");
    reveal_strlit("cyclomatic_total");
    reveal_strlit("cyclomatic_max");
    reveal_strlit("cognitive");
    reveal_strlit("max_nesting_depth");
    reveal_strlit("longest_function_lines");
    reveal_strlit("todo_comments");
    reveal_strlit("imports");
    assert forall|q: int| 0 <= q < 15 implies no_comma(#[trigger] cols[q]) by {}
    lemma_fields_join(cols, 15);
    assert(cols.take(15) =~= cols);
    lemma_header_text();
}

/// The first `k` texts of `v`, joined by commas.
pub open spec fn join_from(v: Seq<Seq<char>>, k: int) -> Seq<char>
    decreases k,
{
    if k <= 1 {
        v[0]
    } else {
        join_from(v, k - 1) + seq![','] + v[k - 1]
    }
}

} // verus!
