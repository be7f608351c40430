//! The tree-sitter tier: a generic analyzer that runs a language's
//! metrics query and turns the captured nodes into `FileMetrics`.
//!
//! Capture names recognised: `@function` (one per function; adds to
//! `functions`, defines a byte range for cyclomatic attribution and a row
//! span for `longest_function_lines`), `@branch` (adds one to the
//! cyclomatic complexity of each function whose range holds its start),
//! `@import`, and `@comment` (used for line classification and, when its
//! text holds TODO, FIXME, XXX or HACK, for `todo_comments`). Other capture
//! names are ignored.
use vstd::prelude::*;
use tree_sitter::StreamingIterator;
use vstd::slice::slice_subrange;
use crate::lines::{lemma_classify_partition, ascending, classify_all, classify_lines, count_in, lemma_count_in_permutation, lemma_count_sorted, partition_below, sort_positions};
use crate::metrics::FileMetrics;
use crate::tokenizer::{line_count, starts_at};

verus! {

// ---------------------------------------------------------------------
// Marker words in comments
// ---------------------------------------------------------------------

/// `needle` occurs somewhere in `hay`.
pub open spec fn occurs(hay: Seq<u8>, needle: Seq<u8>) -> bool {
    exists|q: int| starts_at(hay, q, needle)
}

/// The comment text holds one of the words TODO, FIXME, XXX or HACK.
pub open spec fn has_todo(text: Seq<u8>) -> bool {
    ||| occurs(text, seq![0x54u8, 0x4fu8, 0x44u8, 0x4fu8])
    ||| occurs(text, seq![0x46u8, 0x49u8, 0x58u8, 0x4du8, 0x45u8])
    ||| occurs(text, seq![0x58u8, 0x58u8, 0x58u8])
    ||| occurs(text, seq![0x48u8, 0x41u8, 0x43u8, 0x4bu8])
}

/// `memchr::memmem::find`: the position of the first occurrence of
/// `needle` in `haystack`, or `None` when it does not occur. The contract
/// claims exactly that (an empty needle occurs at position 0).
#[verifier::external_body]
fn memmem_find(haystack: &[u8], needle: &[u8]) -> (r: Option<usize>)
    ensures
        r matches Some(p) ==> starts_at(haystack@, p as int, needle@) && forall|q: int|
            0 <= q < p ==> !starts_at(haystack@, q, needle@),
        r is None ==> forall|q: int| !starts_at(haystack@, q, needle@),
{
    memchr::memmem::find(haystack, needle)
}

fn occurs_in(text: &[u8], needle: &[u8]) -> (r: bool)
    ensures
        r == occurs(text@, needle@),
{
    match memmem_find(text, needle) {
        Some(p) => {
            assert(starts_at(text@, p as int, needle@));
            true
        },
        None => false,
    }
}

/// The comment text holds a TODO-style marker.
pub fn contains_todo(text: &[u8]) -> (r: bool)
    ensures
        r == has_todo(text@),
{
    let todo: [u8; 4] = [0x54u8, 0x4fu8, 0x44u8, 0x4fu8];
    let fixme: [u8; 5] = [0x46u8, 0x49u8, 0x58u8, 0x4du8, 0x45u8];
    let xxx: [u8; 3] = [0x58u8, 0x58u8, 0x58u8];
    let hack: [u8; 4] = [0x48u8, 0x41u8, 0x43u8, 0x4bu8];
    assert(todo@ =~= seq![0x54u8, 0x4fu8, 0x44u8, 0x4fu8]);
    assert(fixme@ =~= seq![0x46u8, 0x49u8, 0x58u8, 0x4du8, 0x45u8]);
    assert(xxx@ =~= seq![0x58u8, 0x58u8, 0x58u8]);
    assert(hack@ =~= seq![0x48u8, 0x41u8, 0x43u8, 0x4bu8]);
    occurs_in(text, todo.as_slice()) || occurs_in(text, fixme.as_slice()) || occurs_in(
        text,
        xxx.as_slice(),
    ) || occurs_in(text, hack.as_slice())
}

// ---------------------------------------------------------------------
// Captures
// ---------------------------------------------------------------------

/// One captured node: the index of its capture name, its byte range and
/// the rows where it starts and ends.
pub struct Capture {
    pub index: u32,
    pub start_byte: usize,
    pub end_byte: usize,
    pub start_row: usize,
    pub end_row: usize,
}

/// The capture indices of the names the analyzer recognises, as the
/// compiled query assigns them.
pub struct CaptureIds {
    pub function: Option<u32>,
    pub branch: Option<u32>,
    pub import: Option<u32>,
    pub comment: Option<u32>,
}

/// What a capture counts as: 0 function, 1 branch, 2 import, 3 comment,
/// 4 ignored. Names are tried in that order.
pub open spec fn kind(ids: CaptureIds, c: Capture) -> int {
    if ids.function == Some(c.index) {
        0
    } else if ids.branch == Some(c.index) {
        1
    } else if ids.import == Some(c.index) {
        2
    } else if ids.comment == Some(c.index) {
        3
    } else {
        4
    }
}

pub open spec fn functions_of(ids: CaptureIds, caps: Seq<Capture>) -> Seq<Capture>
    decreases caps.len(),
{
    if caps.len() == 0 {
        seq![]
    } else {
        let p = functions_of(ids, caps.drop_last());
        if kind(ids, caps.last()) == 0 {
            p.push(caps.last())
        } else {
            p
        }
    }
}

pub open spec fn branches_of(ids: CaptureIds, caps: Seq<Capture>) -> Seq<usize>
    decreases caps.len(),
{
    if caps.len() == 0 {
        seq![]
    } else {
        let p = branches_of(ids, caps.drop_last());
        if kind(ids, caps.last()) == 1 {
            p.push(caps.last().start_byte)
        } else {
            p
        }
    }
}

pub open spec fn comments_of(ids: CaptureIds, caps: Seq<Capture>) -> Seq<(usize, usize)>
    decreases caps.len(),
{
    if caps.len() == 0 {
        seq![]
    } else {
        let p = comments_of(ids, caps.drop_last());
        if kind(ids, caps.last()) == 3 {
            p.push((caps.last().start_byte, caps.last().end_byte))
        } else {
            p
        }
    }
}

pub open spec fn imports_of(ids: CaptureIds, caps: Seq<Capture>) -> nat
    decreases caps.len(),
{
    if caps.len() == 0 {
        0
    } else {
        imports_of(ids, caps.drop_last()) + if kind(ids, caps.last()) == 2 {
            1nat
        } else {
            0nat
        }
    }
}

/// Number of comment captures whose text holds a TODO-style marker.
pub open spec fn todos_of(ids: CaptureIds, caps: Seq<Capture>, src: Seq<u8>) -> nat
    decreases caps.len(),
{
    if caps.len() == 0 {
        0
    } else {
        let c = caps.last();
        todos_of(ids, caps.drop_last(), src) + if kind(ids, c) == 3 && has_todo(
            src.subrange(c.start_byte as int, c.end_byte as int),
        ) {
            1nat
        } else {
            0nat
        }
    }
}

/// Cyclomatic complexity of a function: one plus the branches that start
/// inside its byte range.
pub open spec fn cyclomatic(f: Capture, branches: Seq<usize>) -> nat {
    1 + count_in(branches, f.start_byte as int, f.end_byte as int)
}

pub open spec fn total_cyclomatic(fs: Seq<Capture>, branches: Seq<usize>) -> nat
    decreases fs.len(),
{
    if fs.len() == 0 {
        0
    } else {
        total_cyclomatic(fs.drop_last(), branches) + cyclomatic(fs.last(), branches)
    }
}

pub open spec fn max_cyclomatic(fs: Seq<Capture>, branches: Seq<usize>) -> nat
    decreases fs.len(),
{
    if fs.len() == 0 {
        0
    } else {
        let m = max_cyclomatic(fs.drop_last(), branches);
        let c = cyclomatic(fs.last(), branches);
        if c > m {
            c
        } else {
            m
        }
    }
}

/// Rows a function spans, from its start row to its end row inclusive,
/// both taken as `u32`.
pub open spec fn span(f: Capture) -> int {
    let s = f.start_row as u32;
    let e = f.end_row as u32;
    (if e >= s {
        e - s
    } else {
        0
    }) + 1
}

pub open spec fn longest_span(fs: Seq<Capture>) -> int
    decreases fs.len(),
{
    if fs.len() == 0 {
        0
    } else {
        let m = longest_span(fs.drop_last());
        if span(fs.last()) > m {
            span(fs.last())
        } else {
            m
        }
    }
}

/// The longest function's length is the longest of all: every function
/// spans at most that many rows, one function spans exactly that many when
/// there is any (so it is at least 1), and it is 0 for none.
pub proof fn law_longest_span_is_longest(fs: Seq<Capture>)
    ensures
        forall|k: int| 0 <= k < fs.len() ==> span(#[trigger] fs[k]) <= longest_span(fs),
        fs.len() > 0 ==> exists|k: int| 0 <= k < fs.len() && span(#[trigger] fs[k]) == longest_span(fs),
        fs.len() > 0 ==> longest_span(fs) >= 1,
        fs.len() == 0 ==> longest_span(fs) == 0,
    decreases fs.len(),
{
    if fs.len() > 0 {
        let p = fs.drop_last();
        law_longest_span_is_longest(p);
        assert forall|k: int| 0 <= k < fs.len() implies span(#[trigger] fs[k]) <= longest_span(fs) by {
            if k < p.len() {
                assert(fs[k] == p[k]);
            }
        }
        if span(fs.last()) > longest_span(p) {
            assert(span(fs[fs.len() - 1]) == longest_span(fs));
        } else if p.len() > 0 {
            let k = choose|k: int| 0 <= k < p.len() && span(#[trigger] p[k]) == longest_span(p);
            assert(fs[k] == p[k]);
        } else {
            assert(span(fs[0]) == longest_span(fs));
        }
        let k = choose|k: int| 0 <= k < fs.len() && span(#[trigger] fs[k]) == longest_span(fs);
        assert(span(fs[k]) >= 1);
    }
}

/// Every capture lies inside the source, start before end.
pub open spec fn captures_in_source(caps: Seq<Capture>, src: Seq<u8>) -> bool {
    forall|k: int|
        0 <= k < caps.len() ==> (#[trigger] caps[k]).start_byte <= caps[k].end_byte <= src.len()
}

/// The metric counts fit their `u32` fields.
pub open spec fn within_limits(ids: CaptureIds, caps: Seq<Capture>) -> bool {
    let fs = functions_of(ids, caps);
    &&& caps.len() < u32::MAX
    &&& total_cyclomatic(fs, branches_of(ids, caps)) <= u32::MAX
    &&& forall|k: int| 0 <= k < fs.len() ==> span(#[trigger] fs[k]) <= u32::MAX
}

/// The metrics of a file from the captures of its metrics query.
pub open spec fn metrics_spec(
    m: FileMetrics,
    ids: CaptureIds,
    caps: Seq<Capture>,
    src: Seq<u8>,
) -> bool {
    let fs = functions_of(ids, caps);
    let bs = branches_of(ids, caps);
    let lc = classify_all(src, comments_of(ids, caps));
    &&& m.lines == lc.lines
    &&& m.code == lc.code
    &&& m.comments == lc.comments
    &&& m.blanks == lc.blanks
    &&& m.functions == Some(fs.len() as u32)
    &&& m.cyclomatic_total == Some(total_cyclomatic(fs, bs) as u32)
    &&& m.cyclomatic_max == Some(max_cyclomatic(fs, bs) as u32)
    &&& m.longest_function_lines == Some(longest_span(fs) as u32)
    &&& m.imports == Some(imports_of(ids, caps) as u32)
    &&& m.todo_comments == Some(todos_of(ids, caps, src) as u32)
    &&& m.cognitive is None
    &&& m.max_nesting_depth is None
}

/// The capture tallies go capture by capture: splitting the captures
/// anywhere splits the functions, branches and comments found into the two
/// parts' in order, and adds up the imports, the TODO comments and the
/// cyclomatic totals of the two parts.
pub proof fn law_captures_split(ids: CaptureIds, a: Seq<Capture>, b: Seq<Capture>, src: Seq<u8>, bs: Seq<usize>)
    ensures
        functions_of(ids, a + b) == functions_of(ids, a) + functions_of(ids, b),
        branches_of(ids, a + b) == branches_of(ids, a) + branches_of(ids, b),
        comments_of(ids, a + b) == comments_of(ids, a) + comments_of(ids, b),
        imports_of(ids, a + b) == imports_of(ids, a) + imports_of(ids, b),
        todos_of(ids, a + b, src) == todos_of(ids, a, src) + todos_of(ids, b, src),
        total_cyclomatic(a + b, bs) == total_cyclomatic(a, bs) + total_cyclomatic(b, bs),
    decreases b.len(),
{
    if b.len() == 0 {
        assert(a + b =~= a);
        assert(functions_of(ids, a) + functions_of(ids, b) =~= functions_of(ids, a));
        assert(branches_of(ids, a) + branches_of(ids, b) =~= branches_of(ids, a));
        assert(comments_of(ids, a) + comments_of(ids, b) =~= comments_of(ids, a));
    } else {
        let b0 = b.drop_last();
        law_captures_split(ids, a, b0, src, bs);
        assert((a + b).drop_last() =~= a + b0);
        assert((a + b).last() == b.last());
        assert(functions_of(ids, a + b) =~= functions_of(ids, a) + functions_of(ids, b));
        assert(branches_of(ids, a + b) =~= branches_of(ids, a) + branches_of(ids, b));
        assert(comments_of(ids, a + b) =~= comments_of(ids, a) + comments_of(ids, b));
    }
}

/// What one capture contributes: a function capture is a function (with
/// cyclomatic complexity one plus the branches inside it), a branch
/// capture a branch at its start byte, an import one import, a comment its
/// byte range (and one TODO when its text holds a marker), anything else
/// nothing. A name the query shares between kinds counts as the first of
/// function, branch, import, comment.
pub proof fn law_single_capture(ids: CaptureIds, c: Capture, src: Seq<u8>, bs: Seq<usize>)
    ensures
        functions_of(ids, seq![c]) == (if ids.function == Some(c.index) { seq![c] } else { Seq::<Capture>::empty() }),
        branches_of(ids, seq![c]) == (if ids.function != Some(c.index) && ids.branch == Some(c.index) {
            seq![c.start_byte]
        } else {
            Seq::<usize>::empty()
        }),
        imports_of(ids, seq![c]) == (if ids.function != Some(c.index) && ids.branch != Some(c.index)
            && ids.import == Some(c.index) { 1nat } else { 0nat }),
        comments_of(ids, seq![c]) == (if ids.function != Some(c.index) && ids.branch != Some(c.index)
            && ids.import != Some(c.index) && ids.comment == Some(c.index) {
            seq![(c.start_byte, c.end_byte)]
        } else {
            Seq::<(usize, usize)>::empty()
        }),
        todos_of(ids, seq![c], src) == (if ids.function != Some(c.index) && ids.branch != Some(c.index)
            && ids.import != Some(c.index) && ids.comment == Some(c.index) && has_todo(
            src.subrange(c.start_byte as int, c.end_byte as int),
        ) { 1nat } else { 0nat }),
        total_cyclomatic(seq![c], bs) == 1 + count_in(bs, c.start_byte as int, c.end_byte as int),
{
    let one = seq![c];
    let e = Seq::<Capture>::empty();
    assert(one.drop_last() =~= e);
    assert(one.last() == c);
    assert(functions_of(ids, e) == e);
    assert(branches_of(ids, e) =~= Seq::<usize>::empty());
    assert(comments_of(ids, e) =~= Seq::<(usize, usize)>::empty());
    assert(imports_of(ids, e) == 0);
    assert(todos_of(ids, e, src) == 0);
    assert(total_cyclomatic(e, bs) == 0);
    assert(functions_of(ids, one) == (if kind(ids, c) == 0 { e.push(c) } else { e }));
    assert(branches_of(ids, one) == (if kind(ids, c) == 1 { Seq::<usize>::empty().push(c.start_byte) } else { Seq::<usize>::empty() }));
    assert(Seq::<Capture>::empty().push(c) =~= seq![c]);
    assert(Seq::<usize>::empty().push(c.start_byte) =~= seq![c.start_byte]);
    assert(Seq::<(usize, usize)>::empty().push((c.start_byte, c.end_byte)) =~= seq![(c.start_byte, c.end_byte)]);
}

/// The largest cyclomatic complexity is the largest of all: no function
/// exceeds it, one function has exactly it when there is any, it is 0 for
/// none, and no function's complexity exceeds the total.
pub proof fn law_max_cyclomatic_is_maximum(fs: Seq<Capture>, bs: Seq<usize>)
    ensures
        forall|k: int| 0 <= k < fs.len() ==> cyclomatic(#[trigger] fs[k], bs) <= max_cyclomatic(fs, bs),
        fs.len() > 0 ==> exists|k: int| 0 <= k < fs.len() && cyclomatic(#[trigger] fs[k], bs) == max_cyclomatic(fs, bs),
        fs.len() == 0 ==> max_cyclomatic(fs, bs) == 0,
        max_cyclomatic(fs, bs) <= total_cyclomatic(fs, bs),
    decreases fs.len(),
{
    if fs.len() > 0 {
        let p = fs.drop_last();
        law_max_cyclomatic_is_maximum(p, bs);
        assert forall|k: int| 0 <= k < fs.len() implies cyclomatic(#[trigger] fs[k], bs) <= max_cyclomatic(fs, bs) by {
            if k < p.len() {
                assert(fs[k] == p[k]);
            }
        }
        if cyclomatic(fs.last(), bs) > max_cyclomatic(p, bs) {
            assert(cyclomatic(fs[fs.len() - 1], bs) == max_cyclomatic(fs, bs));
        } else if p.len() > 0 {
            let k = choose|k: int| 0 <= k < p.len() && cyclomatic(#[trigger] p[k], bs) == max_cyclomatic(p, bs);
            assert(fs[k] == p[k]);
        } else {
            assert(cyclomatic(fs[0], bs) == max_cyclomatic(fs, bs));
        }
    }
}

/// The metrics of a file name its largest function complexity and its
/// longest function: every function capture has at most the
/// `cyclomatic_max` complexity and spans at most `longest_function_lines`
/// rows, and, when there is a function, one reaches each.
pub proof fn law_metrics_maxima(m: FileMetrics, ids: CaptureIds, caps: Seq<Capture>, src: Seq<u8>)
    requires
        metrics_spec(m, ids, caps, src),
        within_limits(ids, caps),
    ensures
        ({
            let fs = functions_of(ids, caps);
            let bs = branches_of(ids, caps);
            &&& m.cyclomatic_max matches Some(c) && forall|k: int|
                0 <= k < fs.len() ==> cyclomatic(#[trigger] fs[k], bs) <= c as nat
            &&& m.longest_function_lines matches Some(l) && forall|k: int|
                0 <= k < fs.len() ==> span(#[trigger] fs[k]) <= l as int
            &&& fs.len() > 0 ==> exists|k: int| 0 <= k < fs.len() && cyclomatic(#[trigger] fs[k], bs) == m.cyclomatic_max.unwrap() as nat
            &&& fs.len() > 0 ==> exists|k: int| 0 <= k < fs.len() && span(#[trigger] fs[k]) == m.longest_function_lines.unwrap() as int
            &&& fs.len() > 0 ==> m.longest_function_lines.unwrap() >= 1
        }),
{
    let fs = functions_of(ids, caps);
    let bs = branches_of(ids, caps);
    law_max_cyclomatic_is_maximum(fs, bs);
    law_longest_span_is_longest(fs);
    assert(longest_span(fs) <= u32::MAX) by {
        if fs.len() > 0 {
            let k = choose|k: int| 0 <= k < fs.len() && span(#[trigger] fs[k]) == longest_span(fs);
            assert(span(fs[k]) <= u32::MAX);
        }
    }
}

proof fn lemma_counts_bounded(ids: CaptureIds, caps: Seq<Capture>, src: Seq<u8>)
    ensures
        functions_of(ids, caps).len() <= caps.len(),
        branches_of(ids, caps).len() <= caps.len(),
        comments_of(ids, caps).len() <= caps.len(),
        imports_of(ids, caps) <= caps.len(),
        todos_of(ids, caps, src) <= caps.len(),
    decreases caps.len(),
{
    if caps.len() > 0 {
        lemma_counts_bounded(ids, caps.drop_last(), src);
    }
}

proof fn lemma_count_in_bounded(s: Seq<usize>, lo: int, hi: int)
    ensures
        count_in(s, lo, hi) <= s.len(),
    decreases s.len(),
{
    if s.len() > 0 {
        lemma_count_in_bounded(s.drop_last(), lo, hi);
    }
}

proof fn lemma_functions_in_source(ids: CaptureIds, caps: Seq<Capture>, src: Seq<u8>)
    requires
        captures_in_source(caps, src),
    ensures
        captures_in_source(functions_of(ids, caps), src),
    decreases caps.len(),
{
    if caps.len() > 0 {
        assert(captures_in_source(caps.drop_last(), src)) by {
            assert forall|k: int| 0 <= k < caps.drop_last().len() implies (#[trigger] caps.drop_last()[k]).start_byte
                <= caps.drop_last()[k].end_byte <= src.len() by {
                assert(caps.drop_last()[k] == caps[k]);
            }
        }
        lemma_functions_in_source(ids, caps.drop_last(), src);
        let p = functions_of(ids, caps.drop_last());
        if kind(ids, caps.last()) == 0 {
            assert forall|k: int| 0 <= k < p.push(caps.last()).len() implies (#[trigger] p.push(caps.last())[k]).start_byte
                <= p.push(caps.last())[k].end_byte <= src.len() by {
                if k < p.len() {
                    assert(p.push(caps.last())[k] == p[k]);
                }
            }
        }
    }
}

proof fn lemma_total_prefix(fs: Seq<Capture>, bs: Seq<usize>, k: int)
    requires
        0 <= k <= fs.len(),
    ensures
        total_cyclomatic(fs.take(k), bs) <= total_cyclomatic(fs, bs),
    decreases fs.len() - k,
{
    if k < fs.len() {
        lemma_total_prefix(fs, bs, k + 1);
        assert(fs.take(k + 1).drop_last() =~= fs.take(k));
    } else {
        assert(fs.take(k) =~= fs);
    }
}

/// The metrics of a file from the nodes its metrics query captured, or
/// `None` when a count would not fit its `u32` field.
///
/// Line counts classify each line by the comment captures; each function
/// capture counts one function, whose cyclomatic complexity is one plus
/// the branch captures starting inside its byte range, and whose length is
/// its row span. Import captures and comment captures holding a TODO-style
/// word are counted.
pub fn metrics_from_captures(
    path: String,
    language: String,
    source: &[u8],
    ids: &CaptureIds,
    captures: &Vec<Capture>,
) -> (r: Option<FileMetrics>)
    requires
        captures_in_source(captures@, source@),
        line_count(source@) <= u32::MAX,
    ensures
        r is Some <==> within_limits(*ids, captures@),
        r matches Some(m) ==> {
            &&& metrics_spec(m, *ids, captures@, source@)
            &&& m.path@ == path@
            &&& m.language@ == language@
            &&& m.bytes == source@.len()
        },
{
    let ghost caps = captures@;
    let ghost src = source@;
    if captures.len() >= 4294967295usize {
        return None;
    }
    let mut m = FileMetrics::new(path, language, source.len() as u64);
    let mut function_ranges: Vec<(usize, usize, u32, u32)> = Vec::new();
    let ghost mut fcaps: Seq<Capture> = seq![];
    let mut branches: Vec<usize> = Vec::new();
    let mut comment_ranges: Vec<(usize, usize)> = Vec::new();
    let mut imports: u32 = 0;
    let mut todo_comments: u32 = 0;
    let mut k: usize = 0;
    while k < captures.len()
        invariant
            caps == captures@,
            src == source@,
            captures_in_source(caps, src),
            k <= caps.len(),
            caps.len() < u32::MAX,
            fcaps == functions_of(*ids, caps.take(k as int)),
            function_ranges@.len() == fcaps.len(),
            forall|j: int|
                0 <= j < fcaps.len() ==> (#[trigger] function_ranges@[j]) == (
                fcaps[j].start_byte,
                fcaps[j].end_byte,
                fcaps[j].start_row as u32,
                fcaps[j].end_row as u32,
            ),
            branches@ == branches_of(*ids, caps.take(k as int)),
            comment_ranges@ == comments_of(*ids, caps.take(k as int)),
            imports == imports_of(*ids, caps.take(k as int)),
            todo_comments == todos_of(*ids, caps.take(k as int), src),
        decreases caps.len() - k,
    {
        proof {
            lemma_counts_bounded(*ids, caps.take(k as int), src);
            assert(caps.take(k + 1).drop_last() =~= caps.take(k as int));
        }
        let cap = &captures[k];
        if Some(cap.index) == ids.function {
            function_ranges.push((cap.start_byte, cap.end_byte, cap.start_row as u32, cap.end_row as u32));
            proof {
                fcaps = fcaps.push(*cap);
            }
        } else if Some(cap.index) == ids.branch {
            branches.push(cap.start_byte);
        } else if Some(cap.index) == ids.import {
            imports = imports + 1;
        } else if Some(cap.index) == ids.comment {
            comment_ranges.push((cap.start_byte, cap.end_byte));
            assert(caps[k as int] == *cap);
            let text = slice_subrange(source, cap.start_byte, cap.end_byte);
            if contains_todo(text) {
                todo_comments = todo_comments + 1;
            }
        }
        k += 1;
    }
    proof {
        assert(caps.take(caps.len() as int) =~= caps);
        lemma_functions_in_source(*ids, caps, src);
        lemma_counts_bounded(*ids, caps, src);
    }
    let lc = classify_lines(source, &mut comment_ranges);
    m.lines = lc.lines;
    m.code = lc.code;
    m.comments = lc.comments;
    m.blanks = lc.blanks;

    let ghost bs = branches@;
    sort_positions(&mut branches);
    let mut cyclomatic_total: u32 = 0;
    let mut cyclomatic_max: u32 = 0;
    let mut longest_function_lines: u32 = 0;
    let mut j: usize = 0;
    while j < function_ranges.len()
        invariant
            caps == captures@,
            src == source@,
            fcaps == functions_of(*ids, caps),
            captures_in_source(fcaps, src),
            function_ranges@.len() == fcaps.len(),
            forall|q: int|
                0 <= q < fcaps.len() ==> (#[trigger] function_ranges@[q]) == (
                fcaps[q].start_byte,
                fcaps[q].end_byte,
                fcaps[q].start_row as u32,
                fcaps[q].end_row as u32,
            ),
            ascending(branches@),
            branches@.to_multiset() == bs.to_multiset(),
            bs == branches_of(*ids, caps),
            bs.len() <= caps.len(),
            caps.len() < u32::MAX,
            j <= fcaps.len(),
            cyclomatic_total == total_cyclomatic(fcaps.take(j as int), bs),
            cyclomatic_max == max_cyclomatic(fcaps.take(j as int), bs),
            longest_function_lines == longest_span(fcaps.take(j as int)),
            forall|q: int| 0 <= q < j ==> span(#[trigger] fcaps[q]) <= u32::MAX,
        decreases fcaps.len() - j,
    {
        let (start, end, srow, erow) = function_ranges[j];
        proof {
            assert(function_ranges@[j as int] == (
                fcaps[j as int].start_byte,
                fcaps[j as int].end_byte,
                fcaps[j as int].start_row as u32,
                fcaps[j as int].end_row as u32,
            ));
            assert(fcaps.take(j + 1).drop_last() =~= fcaps.take(j as int));
            assert(fcaps[j as int].start_byte <= fcaps[j as int].end_byte);
        }
        let lo = partition_below(&branches, start);
        let hi = partition_below(&branches, end);
        proof {
            lemma_count_sorted(branches@, start as int, end as int, lo as int, hi as int);
            lemma_count_in_permutation(branches@, bs, start as int, end as int);
            lemma_count_in_bounded(bs, start as int, end as int);
        }
        let cc = 1 + (hi - lo) as u32;
        match cyclomatic_total.checked_add(cc) {
            Some(t) => {
                cyclomatic_total = t;
            },
            None => {
                proof {
                    lemma_total_prefix(fcaps, bs, j + 1);
                    assert(fcaps.take(j + 1).last() == fcaps[j as int]);
                    assert(cc == total_cyclomatic(fcaps.take(j + 1), bs) - cyclomatic_total);
                    assert(!within_limits(*ids, captures@));
                }
                return None;
            },
        }
        if cc > cyclomatic_max {
            cyclomatic_max = cc;
        }
        let d = erow.saturating_sub(srow);
        if d == 4294967295u32 {
            assert(span(fcaps[j as int]) > u32::MAX);
            assert(!within_limits(*ids, caps));
            return None;
        }
        let lines = d + 1;
        if lines > longest_function_lines {
            longest_function_lines = lines;
        }
        j += 1;
    }
    proof {
        assert(fcaps.take(fcaps.len() as int) =~= fcaps);
    }
    m.functions = Some(function_ranges.len() as u32);
    m.cyclomatic_total = Some(cyclomatic_total);
    m.cyclomatic_max = Some(cyclomatic_max);
    m.longest_function_lines = Some(longest_function_lines);
    m.imports = Some(imports);
    m.todo_comments = Some(todo_comments);
    Some(m)
}

// ---------------------------------------------------------------------
// Per-function breakdown
// ---------------------------------------------------------------------

/// One function of a file: its first and last line (1-based), its
/// cyclomatic complexity and its length in lines.
pub struct FunctionDetail {
    pub start_line: u32,
    pub end_line: u32,
    pub cyclomatic: u32,
    pub lines: u32,
}

/// The 1-based line of a 0-based row, as `u32` (saturating).
pub open spec fn line_of(row: usize) -> u32 {
    let r = row as u32;
    if r == u32::MAX {
        u32::MAX
    } else {
        (r + 1) as u32
    }
}

impl FunctionDetail {
    /// The detail of function capture `f` among the branches `bs`.
    pub open spec fn of(&self, f: Capture, bs: Seq<usize>) -> bool {
        &&& self.start_line == line_of(f.start_row)
        &&& self.end_line == line_of(f.end_row)
        &&& self.cyclomatic == cyclomatic(f, bs)
        &&& self.lines == span(f)
    }
}

/// The per-function breakdown of a file from the nodes its metrics query
/// captured, in capture order, or `None` when a count would not fit its
/// `u32` field.
pub fn details_from_captures(ids: &CaptureIds, captures: &Vec<Capture>, source: &[u8]) -> (r: Option<
    Vec<FunctionDetail>,
>)
    requires
        captures_in_source(captures@, source@),
    ensures
        r is Some <==> within_limits(*ids, captures@),
        r matches Some(ds) ==> {
            let fs = functions_of(*ids, captures@);
            &&& ds@.len() == fs.len()
            &&& forall|j: int| 0 <= j < fs.len() ==> (#[trigger] ds@[j]).of(fs[j], branches_of(*ids, captures@))
        },
{
    let ghost caps = captures@;
    if captures.len() >= 4294967295usize {
        return None;
    }
    let mut fcs: Vec<Capture> = Vec::new();
    let mut branches: Vec<usize> = Vec::new();
    let mut k: usize = 0;
    while k < captures.len()
        invariant
            caps == captures@,
            k <= caps.len(),
            fcs@ == functions_of(*ids, caps.take(k as int)),
            branches@ == branches_of(*ids, caps.take(k as int)),
        decreases caps.len() - k,
    {
        proof {
            assert(caps.take(k + 1).drop_last() =~= caps.take(k as int));
        }
        let cap = &captures[k];
        if Some(cap.index) == ids.function {
            fcs.push(Capture {
                index: cap.index,
                start_byte: cap.start_byte,
                end_byte: cap.end_byte,
                start_row: cap.start_row,
                end_row: cap.end_row,
            });
        } else if Some(cap.index) == ids.branch {
            branches.push(cap.start_byte);
        }
        k += 1;
    }
    proof {
        assert(caps.take(caps.len() as int) =~= caps);
        lemma_counts_bounded(*ids, caps, seq![]);
        lemma_functions_in_source(*ids, caps, source@);
    }
    let ghost fs = fcs@;
    let ghost bs = branches@;
    sort_positions(&mut branches);
    let mut out: Vec<FunctionDetail> = Vec::new();
    let mut total: u32 = 0;
    let mut j: usize = 0;
    while j < fcs.len()
        invariant
            caps == captures@,
            fs == fcs@,
            fs == functions_of(*ids, caps),
            captures_in_source(fs, source@),
            bs == branches_of(*ids, caps),
            ascending(branches@),
            branches@.to_multiset() == bs.to_multiset(),
            bs.len() <= caps.len(),
            caps.len() < u32::MAX,
            j <= fs.len(),
            total == total_cyclomatic(fs.take(j as int), bs),
            out@.len() == j,
            forall|q: int| 0 <= q < j ==> (#[trigger] out@[q]).of(fs[q], bs),
            forall|q: int| 0 <= q < j ==> span(#[trigger] fs[q]) <= u32::MAX,
        decreases fs.len() - j,
    {
        let f = &fcs[j];
        proof {
            assert(fs.take(j + 1).drop_last() =~= fs.take(j as int));
            assert(fs.take(j + 1).last() == fs[j as int]);
        }
        let lo = partition_below(&branches, f.start_byte);
        let hi = partition_below(&branches, f.end_byte);
        proof {
            assert(f.start_byte <= f.end_byte);
            lemma_count_in_permutation(branches@, bs, f.start_byte as int, f.end_byte as int);
            lemma_count_in_bounded(bs, f.start_byte as int, f.end_byte as int);
            lemma_count_sorted(branches@, f.start_byte as int, f.end_byte as int, lo as int, hi as int);
        }
        let cc = 1 + (hi - lo) as u32;
        match total.checked_add(cc) {
            Some(t) => {
                total = t;
            },
            None => {
                proof {
                    lemma_total_prefix(fs, bs, j + 1);
                }
                return None;
            },
        }
        let srow = f.start_row as u32;
        let erow = f.end_row as u32;
        let d = erow.saturating_sub(srow);
        if d == 4294967295u32 {
            assert(span(fs[j as int]) > u32::MAX);
            return None;
        }
        let start_line = if srow == 4294967295u32 { srow } else { srow + 1 };
        let end_line = if erow == 4294967295u32 { erow } else { erow + 1 };
        out.push(FunctionDetail { start_line, end_line, cyclomatic: cc, lines: d + 1 });
        j += 1;
    }
    proof {
        assert(fs.take(fs.len() as int) =~= fs);
    }
    Some(out)
}

// ---------------------------------------------------------------------
// The analyzer
// ---------------------------------------------------------------------

#[verifier::external_type_specification]
#[verifier::external_body]
pub struct ExLanguage(tree_sitter::Language);

#[verifier::external_type_specification]
#[verifier::external_body]
pub struct ExQuery(tree_sitter::Query);

#[verifier::external_type_specification]
#[verifier::external_body]
pub struct ExQueryError(tree_sitter::QueryError);

#[verifier::external_type_specification]
#[verifier::external_body]
pub struct ExTree(tree_sitter::Tree);

/// Why an analyzer could not be built.
pub enum AstError {
    /// The metrics query does not compile against the grammar.
    Query(tree_sitter::QueryError),
    /// The grammar is not one this tree-sitter version can load.
    Language,
}

/// Whether `tree_sitter::Query::new` compiles the query text `source` for
/// the grammar `language`.
pub uninterp spec fn ts_query_compiles(language: tree_sitter::Language, source: Seq<char>) -> bool;

/// `tree_sitter::Query::new`: compiles a query for a grammar. Whether it
/// compiles depends on the grammar's node types and the query text alone,
/// so that is named; the compiled query itself is a handle to memory the
/// call allocates, so it gets no name.
#[verifier::external_body]
fn compile_query(language: &tree_sitter::Language, source: &str) -> (r: Result<
    tree_sitter::Query,
    tree_sitter::QueryError,
>)
    ensures
        r is Ok <==> ts_query_compiles(*language, source@),
{
    tree_sitter::Query::new(language, source)
}

/// The index a compiled query gives the capture name `name`, if it uses
/// that name.
pub uninterp spec fn ts_capture_index(query: tree_sitter::Query, name: Seq<char>) -> Option<u32>;

/// `tree_sitter::Query::capture_index_for_name`: the position of `name`
/// among the query's capture names, if the query uses that name. It reads
/// the query and the name alone, so the result is named.
#[verifier::external_body]
fn capture_index(query: &tree_sitter::Query, name: &str) -> (r: Option<u32>)
    ensures
        r == ts_capture_index(*query, name@),
{
    query.capture_index_for_name(name)
}

/// `found` holds captures that all lie inside `src` and whose counts fit.
pub open spec fn usable(ids: CaptureIds, found: Option<Seq<Capture>>, src: Seq<u8>) -> bool {
    found matches Some(caps) && captures_in_source(caps, src) && within_limits(ids, caps)
}

/// The captures that `run_query` lists for a grammar, a compiled query and
/// a text, or `None` where the parser does not give a tree.
pub uninterp spec fn ts_captures(
    language: tree_sitter::Language,
    query: tree_sitter::Query,
    source: Seq<u8>,
) -> Option<Seq<Capture>>;

/// `tree_sitter::Parser::parse` on a fresh parser set to `language` (no
/// timeout, no cancellation flag), then `tree_sitter::QueryCursor::matches`
/// of `query` over the whole tree: every capture of every match, in the
/// order the cursor yields them, each with its capture index, byte range
/// and start and end rows. `None` when the parser refuses the grammar or
/// gives no tree. Both steps depend on the grammar, the query and the text
/// alone, so the result is named; nothing more is claimed of it, and the
/// caller checks that the captures lie inside the source.
#[verifier::external_body]
fn run_query(language: &tree_sitter::Language, query: &tree_sitter::Query, source: &[u8]) -> (r: Option<
    Vec<Capture>,
>)
    ensures
        r matches Some(v) ==> ts_captures(*language, *query, source@) == Some(v@),
        r is None ==> ts_captures(*language, *query, source@) is None,
{
    let mut parser = tree_sitter::Parser::new();
    parser.set_language(language).ok()?;
    let tree = parser.parse(source, None)?;
    let mut cursor = tree_sitter::QueryCursor::new();
    let mut matches = cursor.matches(query, tree.root_node(), source);
    let mut out = Vec::new();
    while let Some(mat) = matches.next() {
        for cap in mat.captures() {
            let (n, sp, ep) = (cap.node, cap.node.start_position(), cap.node.end_position());
            out.push(Capture { index: cap.index, start_byte: n.start_byte(), end_byte: n.end_byte(), start_row: sp.row, end_row: ep.row });
        }
    }
    Some(out)
}

/// Whether every capture lies inside the source, start before end.
pub fn captures_fit(caps: &Vec<Capture>, source: &[u8]) -> (r: bool)
    ensures
        r == captures_in_source(caps@, source@),
{
    let mut k: usize = 0;
    while k < caps.len()
        invariant
            k <= caps@.len(),
            forall|q: int|
                0 <= q < k ==> (#[trigger] caps@[q]).start_byte <= caps@[q].end_byte <= source@.len(),
        decreases caps@.len() - k,
    {
        if !(caps[k].start_byte <= caps[k].end_byte && caps[k].end_byte <= source.len()) {
            return false;
        }
        k += 1;
    }
    true
}

/// Analyzer for a language with a tree-sitter grammar and a metrics query.
pub struct TreeSitterAnalyzer {
    name: String,
    language: tree_sitter::Language,
    query: tree_sitter::Query,
    ids: CaptureIds,
}

impl TreeSitterAnalyzer {
    /// The language name the analyzer reports.
    pub closed spec fn name(&self) -> Seq<char> {
        self.name@
    }

    /// The capture indices of the recognised names.
    pub closed spec fn ids(&self) -> CaptureIds {
        self.ids
    }

    /// The grammar the analyzer parses with.
    pub closed spec fn language(&self) -> tree_sitter::Language {
        self.language
    }

    /// The compiled metrics query.
    pub closed spec fn query(&self) -> tree_sitter::Query {
        self.query
    }

    /// Compile the metrics query for the grammar and look up the capture
    /// names `function`, `branch`, `import` and `comment`. Fails exactly
    /// when the query does not compile.
    pub fn new(name: String, language: tree_sitter::Language, query_src: &str) -> (r: Result<
        Self,
        AstError,
    >)
        ensures
            r is Ok <==> ts_query_compiles(language, query_src@),
            r matches Ok(a) ==> {
                &&& a.name() == name@
                &&& a.language() == language
                &&& a.ids().function == ts_capture_index(a.query(), "function"@)
                &&& a.ids().branch == ts_capture_index(a.query(), "branch"@)
                &&& a.ids().import == ts_capture_index(a.query(), "import"@)
                &&& a.ids().comment == ts_capture_index(a.query(), "comment"@)
            },
            r matches Err(e) ==> e is Query,
    {
        let query = match compile_query(&language, query_src) {
            Ok(q) => q,
            Err(e) => {
                return Err(AstError::Query(e));
            },
        };
        let function = capture_index(&query, "function");
        let branch = capture_index(&query, "branch");
        let import = capture_index(&query, "import");
        let comment = capture_index(&query, "comment");
        Ok(TreeSitterAnalyzer {
            name,
            language,
            query,
            ids: CaptureIds { function, branch, import, comment },
        })
    }
}

impl crate::registry::Analyzer for TreeSitterAnalyzer {
    /// The metrics of `metrics_from_captures` over the captures of the
    /// metrics query on the file. When the grammar gives no tree, a capture
    /// lies outside the file, or a count would not fit, the metrics hold no
    /// line counts and no tree-sitter field.
    fn analyze(&self, path: &str, source: &[u8]) -> (m: FileMetrics)
        ensures
            m.language@ == self.name(),
            ({
                let found = ts_captures(self.language(), self.query(), source@);
                &&& usable(self.ids(), found, source@) ==> metrics_spec(m, self.ids(), found.unwrap(), source@)
                &&& !usable(self.ids(), found, source@) ==> (m.lines == 0 && m.code == 0 && m.comments == 0
                    && m.blanks == 0 && m.no_ast_fields())
            }),
    {
        proof {
            crate::tokenizer::lemma_counts_partition_len(source@);
        }
        let fallback = FileMetrics::new(path.to_owned(), self.name.clone(), source.len() as u64);
        let caps = match run_query(&self.language, &self.query, source) {
            Some(c) => c,
            None => {
                return fallback;
            },
        };
        if !captures_fit(&caps, source) {
            return fallback;
        }
        match metrics_from_captures(path.to_owned(), self.name.clone(), source, &self.ids, &caps) {
            Some(m) => {
                proof {
                    lemma_classify_partition(source@, comments_of(self.ids, caps@));
                }
                m
            },
            None => fallback,
        }
    }

    /// The per-function breakdown of `details_from_captures` over the
    /// captures of the metrics query on the file; empty when the grammar
    /// gives no tree, a capture lies outside the file, or a count would not
    /// fit.
    fn explain(&self, path: &str, source: &[u8]) -> (r: Option<Vec<FunctionDetail>>)
        ensures
            r is Some,
            ({
                let found = ts_captures(self.language(), self.query(), source@);
                let ds = r.unwrap()@;
                let fs = functions_of(self.ids(), found.unwrap());
                &&& usable(self.ids(), found, source@) ==> ds.len() == fs.len() && forall|j: int|
                    0 <= j < ds.len() ==> (#[trigger] ds[j]).of(fs[j], branches_of(self.ids(), found.unwrap()))
                &&& !usable(self.ids(), found, source@) ==> ds.len() == 0
            }),
    {
        let caps = match run_query(&self.language, &self.query, source) {
            Some(c) => c,
            None => {
                return Some(Vec::new());
            },
        };
        if !captures_fit(&caps, source) {
            return Some(Vec::new());
        }
        match details_from_captures(&self.ids, &caps, source) {
            Some(ds) => Some(ds),
            None => Some(Vec::new()),
        }
    }
}

} // verus!
