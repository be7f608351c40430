//! Line classification and per-function metrics of the tree-sitter tier,
//! computed from the byte ranges of the captured nodes.
use vstd::prelude::*;
use vstd::seq_lib::{to_multiset_build, to_multiset_insert, to_multiset_remove, to_multiset_contains};
use crate::tokenizer::{is_ascii_ws, line_count, newlines, starts_at};

verus! {

// ---------------------------------------------------------------------
// Sorting
// ---------------------------------------------------------------------

/// Ranges ordered by their start.
pub open spec fn sorted_by_start(s: Seq<(usize, usize)>) -> bool {
    forall|a: int, b: int| 0 <= a < b < s.len() ==> s[a].0 <= s[b].0
}

/// Positions in ascending order.
pub open spec fn ascending(s: Seq<usize>) -> bool {
    forall|a: int, b: int| 0 <= a < b < s.len() ==> s[a] <= s[b]
}

/// Sort ranges by their start; ranges with equal starts may come in any
/// order.
pub fn sort_by_start(v: &mut Vec<(usize, usize)>)
    ensures
        sorted_by_start(final(v)@),
        final(v)@.to_multiset() == old(v)@.to_multiset(),
{
    let mut r: Vec<(usize, usize)> = Vec::new();
    let mut k: usize = 0;
    assert(r@ =~= v@.take(0));
    while k < v.len()
        invariant
            k <= v@.len(),
            v@ == old(v)@,
            sorted_by_start(r@),
            r@.to_multiset() == v@.take(k as int).to_multiset(),
        decreases v@.len() - k,
    {
        let x = v[k];
        let mut p: usize = 0;
        while p < r.len() && r[p].0 <= x.0
            invariant
                p <= r@.len(),
                forall|j: int| 0 <= j < p ==> r@[j].0 <= x.0,
            decreases r@.len() - p,
        {
            p += 1;
        }
        let ghost before = r@;
        r.insert(p, x);
        proof {
            to_multiset_insert(before, p as int, x);
            assert(v@.take(k + 1) =~= v@.take(k as int).push(x));
            to_multiset_build(v@.take(k as int), x);
            assert forall|a: int, b: int| 0 <= a < b < r@.len() implies r@[a].0 <= r@[b].0 by {
                if b == p {
                } else if a == p {
                    assert(before[p as int].0 > x.0);
                    assert(r@[b] == before[b - 1]);
                    assert(before[p as int].0 <= before[b - 1].0);
                } else {
                    let a0 = if a < p { a } else { a - 1 };
                    let b0 = if b < p { b } else { b - 1 };
                    assert(r@[a] == before[a0]);
                    assert(r@[b] == before[b0]);
                }
            }
        }
        k += 1;
    }
    proof {
        assert(v@.take(v@.len() as int) =~= v@);
    }
    *v = r;
}

/// Sort positions ascending.
pub fn sort_positions(v: &mut Vec<usize>)
    ensures
        ascending(final(v)@),
        final(v)@.to_multiset() == old(v)@.to_multiset(),
{
    let mut r: Vec<usize> = Vec::new();
    let mut k: usize = 0;
    assert(r@ =~= v@.take(0));
    while k < v.len()
        invariant
            k <= v@.len(),
            v@ == old(v)@,
            ascending(r@),
            r@.to_multiset() == v@.take(k as int).to_multiset(),
        decreases v@.len() - k,
    {
        let x = v[k];
        let mut p: usize = 0;
        while p < r.len() && r[p] <= x
            invariant
                p <= r@.len(),
                forall|j: int| 0 <= j < p ==> r@[j] <= x,
            decreases r@.len() - p,
        {
            p += 1;
        }
        let ghost before = r@;
        r.insert(p, x);
        proof {
            to_multiset_insert(before, p as int, x);
            assert(v@.take(k + 1) =~= v@.take(k as int).push(x));
            to_multiset_build(v@.take(k as int), x);
            assert forall|a: int, b: int| 0 <= a < b < r@.len() implies r@[a] <= r@[b] by {
                if b == p {
                } else if a == p {
                    assert(before[p as int] > x);
                    assert(r@[b] == before[b - 1]);
                } else {
                    let a0 = if a < p { a } else { a - 1 };
                    let b0 = if b < p { b } else { b - 1 };
                    assert(r@[a] == before[a0]);
                    assert(r@[b] == before[b0]);
                }
            }
        }
        k += 1;
    }
    proof {
        assert(v@.take(v@.len() as int) =~= v@);
    }
    *v = r;
}

// ---------------------------------------------------------------------
// Counting positions in a range
// ---------------------------------------------------------------------

/// Number of positions `p` of `s` with `lo <= p < hi`.
pub open spec fn count_in(s: Seq<usize>, lo: int, hi: int) -> nat
    decreases s.len(),
{
    if s.len() == 0 {
        0
    } else {
        count_in(s.drop_last(), lo, hi) + if lo <= s.last() < hi {
            1nat
        } else {
            0nat
        }
    }
}

proof fn lemma_count_in_remove(s: Seq<usize>, j: int, lo: int, hi: int)
    requires
        0 <= j < s.len(),
    ensures
        count_in(s, lo, hi) == count_in(s.remove(j), lo, hi) + if lo <= s[j] < hi {
            1nat
        } else {
            0nat
        },
    decreases s.len(),
{
    if j == s.len() - 1 {
        assert(s.remove(j) =~= s.drop_last());
    } else {
        lemma_count_in_remove(s.drop_last(), j, lo, hi);
        assert(s.remove(j).drop_last() =~= s.drop_last().remove(j));
        assert(s.remove(j).last() == s.last());
    }
}

/// The count of positions in a range depends only on which positions there
/// are, not on their order.
pub proof fn lemma_count_in_permutation(s1: Seq<usize>, s2: Seq<usize>, lo: int, hi: int)
    requires
        s1.to_multiset() == s2.to_multiset(),
    ensures
        count_in(s1, lo, hi) == count_in(s2, lo, hi),
    decreases s1.len(),
{
    broadcast use vstd::seq_lib::group_to_multiset_ensures;

    vstd::seq_lib::to_multiset_len(s1);
    vstd::seq_lib::to_multiset_len(s2);
    if s1.len() == 0 {
        assert(s2.len() == 0);
    } else {
        let x = s1.last();
        let s1p = s1.drop_last();
        assert(s1 =~= s1p.push(x));
        to_multiset_build(s1p, x);
        to_multiset_contains(s2, x);
        assert(s2.to_multiset().count(x) > 0);
        let j = choose|j: int| 0 <= j < s2.len() && s2[j] == x;
        to_multiset_remove(s2, j);
        assert(s1p.to_multiset() =~= s2.remove(j).to_multiset());
        lemma_count_in_permutation(s1p, s2.remove(j), lo, hi);
        lemma_count_in_remove(s2, j, lo, hi);
    }
}

/// `p` splits the ascending `s` at `x`: everything before is below `x`.
pub open spec fn splits(s: Seq<usize>, x: int, p: int) -> bool {
    &&& 0 <= p <= s.len()
    &&& forall|i: int| 0 <= i < p ==> s[i] < x
    &&& forall|i: int| p <= i < s.len() ==> s[i] >= x
}

pub proof fn lemma_count_sorted(s: Seq<usize>, lo: int, hi: int, plo: int, phi: int)
    requires
        ascending(s),
        lo <= hi,
        splits(s, lo, plo),
        splits(s, hi, phi),
    ensures
        plo <= phi,
        count_in(s, lo, hi) == phi - plo,
    decreases s.len(),
{
    if s.len() > 0 {
        let n = s.len() as int;
        let sp = s.drop_last();
        let last = s.last();
        if last < lo {
            lemma_count_sorted(sp, lo, hi, n - 1, n - 1);
        } else if last < hi {
            lemma_count_sorted(sp, lo, hi, plo, n - 1);
        } else {
            lemma_count_sorted(sp, lo, hi, plo, phi);
        }
    }
}

/// Number of leading elements of the ascending `v` that lie below `x`.
pub fn partition_below(v: &Vec<usize>, x: usize) -> (p: usize)
    requires
        ascending(v@),
    ensures
        splits(v@, x as int, p as int),
{
    let mut lo: usize = 0;
    let mut hi: usize = v.len();
    while lo < hi
        invariant
            0 <= lo <= hi <= v@.len(),
            ascending(v@),
            forall|i: int| 0 <= i < lo ==> v@[i] < x,
            forall|i: int| hi <= i < v@.len() ==> v@[i] >= x,
        decreases hi - lo,
    {
        let mid = lo + (hi - lo) / 2;
        if v[mid] < x {
            lo = mid + 1;
        } else {
            hi = mid;
        }
    }
    lo
}

// ---------------------------------------------------------------------
// Line classification
// ---------------------------------------------------------------------

/// Byte `i` lies inside one of the comment ranges.
pub open spec fn in_comment(ranges: Seq<(usize, usize)>, i: int) -> bool {
    exists|k: int| 0 <= k < ranges.len() && (#[trigger] ranges[k]).0 <= i < ranges[k].1
}

/// Line counts so far, and what the open line has shown.
pub struct LineScan {
    pub lines: nat,
    pub code: nat,
    pub comments: nat,
    pub blanks: nat,
    pub has_code: bool,
    pub has_comment: bool,
}

pub open spec fn close(s: LineScan) -> LineScan {
    LineScan {
        lines: s.lines + 1,
        code: if s.has_code { s.code + 1 } else { s.code },
        comments: if !s.has_code && s.has_comment { s.comments + 1 } else { s.comments },
        blanks: if !s.has_code && !s.has_comment { s.blanks + 1 } else { s.blanks },
        has_code: false,
        has_comment: false,
    }
}

/// The classification of the first `n` bytes: a newline closes the line;
/// a non-whitespace byte marks the line as holding code, or a comment
/// when it lies inside a comment range.
pub open spec fn classify_prefix(src: Seq<u8>, ranges: Seq<(usize, usize)>, n: int) -> LineScan
    decreases n,
{
    if n <= 0 {
        LineScan { lines: 0, code: 0, comments: 0, blanks: 0, has_code: false, has_comment: false }
    } else {
        let s = classify_prefix(src, ranges, n - 1);
        let b = src[n - 1];
        if b == 0x0au8 {
            close(s)
        } else if is_ascii_ws(b) {
            s
        } else if in_comment(ranges, n - 1) {
            LineScan { has_comment: true, ..s }
        } else {
            LineScan { has_code: true, ..s }
        }
    }
}

/// The classification of a whole file: a last line without a newline is
/// closed too.
pub open spec fn classify_all(src: Seq<u8>, ranges: Seq<(usize, usize)>) -> LineScan {
    let s = classify_prefix(src, ranges, src.len() as int);
    if src.len() > 0 && src.last() != 0x0au8 {
        close(s)
    } else {
        s
    }
}

/// The counts of `classify_lines`.
pub struct LineCounts {
    pub lines: u32,
    pub code: u32,
    pub comments: u32,
    pub blanks: u32,
}

impl LineCounts {
    pub open spec fn matches(&self, s: LineScan) -> bool {
        &&& self.lines == s.lines
        &&& self.code == s.code
        &&& self.comments == s.comments
        &&& self.blanks == s.blanks
    }
}

proof fn lemma_classify_prefix_lines(src: Seq<u8>, ranges: Seq<(usize, usize)>, n: int)
    requires
        0 <= n <= src.len(),
    ensures
        ({
            let s = classify_prefix(src, ranges, n);
            &&& s.lines == newlines(src.take(n))
            &&& s.lines == s.code + s.comments + s.blanks
        }),
    decreases n,
{
    if n > 0 {
        lemma_classify_prefix_lines(src, ranges, n - 1);
        assert(src.take(n).drop_last() =~= src.take(n - 1));
    }
}

/// Every line of a file is counted exactly once, and as exactly one of
/// code, comment or blank.
pub proof fn lemma_classify_partition(src: Seq<u8>, ranges: Seq<(usize, usize)>)
    ensures
        ({
            let s = classify_all(src, ranges);
            &&& s.lines == line_count(src)
            &&& s.lines == s.code + s.comments + s.blanks
        }),
{
    lemma_classify_prefix_lines(src, ranges, src.len() as int);
    assert(src.take(src.len() as int) =~= src);
}

proof fn lemma_classify_prefix_extremes(src: Seq<u8>, ranges: Seq<(usize, usize)>, n: int)
    requires
        0 <= n <= src.len(),
    ensures
        ({
            let s = classify_prefix(src, ranges, n);
            &&& ranges.len() == 0 ==> s.comments == 0 && !s.has_comment
            &&& (forall|i: int| 0 <= i < n && !is_ascii_ws(#[trigger] src[i]) ==> in_comment(ranges, i))
                ==> s.code == 0 && !s.has_code
            &&& (forall|i: int| 0 <= i < n ==> is_ascii_ws(#[trigger] src[i])) ==> s.code == 0 && s.comments
                == 0 && !s.has_code && !s.has_comment
        }),
    decreases n,
{
    if n > 0 {
        lemma_classify_prefix_extremes(src, ranges, n - 1);
        if forall|i: int| 0 <= i < n && !is_ascii_ws(#[trigger] src[i]) ==> in_comment(ranges, i) {
            assert forall|i: int| 0 <= i < n - 1 && !is_ascii_ws(#[trigger] src[i]) implies in_comment(ranges, i) by {}
        }
        if forall|i: int| 0 <= i < n ==> is_ascii_ws(#[trigger] src[i]) {
            assert forall|i: int| 0 <= i < n - 1 implies is_ascii_ws(#[trigger] src[i]) by {}
            assert(is_ascii_ws(src[n - 1]));
        }
    }
}

/// The classification keeps code and comments apart: with no comment
/// ranges no line is a comment line; when every byte that is not
/// whitespace lies in a comment range no line is a code line; and a file
/// of whitespace alone has only blank lines.
pub proof fn law_classify_extremes(src: Seq<u8>, ranges: Seq<(usize, usize)>)
    ensures
        ranges.len() == 0 ==> classify_all(src, ranges).comments == 0,
        (forall|i: int| 0 <= i < src.len() && !is_ascii_ws(#[trigger] src[i]) ==> in_comment(ranges, i))
            ==> classify_all(src, ranges).code == 0,
        (forall|i: int| 0 <= i < src.len() ==> is_ascii_ws(#[trigger] src[i])) ==> classify_all(
            src,
            ranges,
        ).blanks == classify_all(src, ranges).lines,
{
    lemma_classify_prefix_extremes(src, ranges, src.len() as int);
    lemma_classify_partition(src, ranges);
    if forall|i: int| 0 <= i < src.len() ==> is_ascii_ws(#[trigger] src[i]) {
        lemma_classify_prefix_lines(src, ranges, src.len() as int);
    }
}

/// Which comment ranges contain a byte does not depend on their order.
proof fn lemma_in_comment_permutation(r1: Seq<(usize, usize)>, r2: Seq<(usize, usize)>, i: int)
    requires
        r1.to_multiset() == r2.to_multiset(),
    ensures
        in_comment(r1, i) == in_comment(r2, i),
{
    broadcast use vstd::seq_lib::group_to_multiset_ensures;

    if in_comment(r1, i) {
        let k = choose|k: int| 0 <= k < r1.len() && (#[trigger] r1[k]).0 <= i < r1[k].1;
        to_multiset_contains(r1, r1[k]);
        to_multiset_contains(r2, r1[k]);
    }
    if in_comment(r2, i) {
        let k = choose|k: int| 0 <= k < r2.len() && (#[trigger] r2[k]).0 <= i < r2[k].1;
        to_multiset_contains(r2, r2[k]);
        to_multiset_contains(r1, r2[k]);
    }
}

proof fn lemma_classify_prefix_permutation(
    src: Seq<u8>,
    r1: Seq<(usize, usize)>,
    r2: Seq<(usize, usize)>,
    n: int,
)
    requires
        r1.to_multiset() == r2.to_multiset(),
    ensures
        classify_prefix(src, r1, n) == classify_prefix(src, r2, n),
    decreases n,
{
    if n > 0 {
        lemma_classify_prefix_permutation(src, r1, r2, n - 1);
        lemma_in_comment_permutation(r1, r2, n - 1);
    }
}

/// Walk the source once, attributing each line to code, comment, or blank.
/// A line is code if any non-whitespace byte lies outside every comment
/// range; otherwise comment if any non-whitespace byte lies inside a
/// comment; otherwise blank. The ranges come back sorted by start.
pub fn classify_lines(source: &[u8], comment_ranges: &mut Vec<(usize, usize)>) -> (lc: LineCounts)
    requires
        line_count(source@) <= u32::MAX,
    ensures
        sorted_by_start(final(comment_ranges)@),
        final(comment_ranges)@.to_multiset() == old(comment_ranges)@.to_multiset(),
        lc.matches(classify_all(source@, old(comment_ranges)@)),
{
    sort_by_start(comment_ranges);
    let ghost r = comment_ranges@;
    let ghost src = source@;
    proof {
        lemma_classify_prefix_permutation(src, r, old(comment_ranges)@, src.len() as int);
        lemma_classify_partition(src, r);
        lemma_newlines_bound(src);
    }
    let mut lines: u32 = 0;
    let mut code: u32 = 0;
    let mut comments: u32 = 0;
    let mut blanks: u32 = 0;
    let mut line_has_code = false;
    let mut line_has_comment = false;
    let mut comment_idx: usize = 0;
    let mut i: usize = 0;
    while i < source.len()
        invariant
            src == source@,
            r == comment_ranges@,
            sorted_by_start(r),
            i <= src.len(),
            comment_idx <= r.len(),
            forall|k: int| 0 <= k < comment_idx ==> r[k].1 <= i,
            classify_prefix(src, r, i as int) == (LineScan {
                lines: lines as nat,
                code: code as nat,
                comments: comments as nat,
                blanks: blanks as nat,
                has_code: line_has_code,
                has_comment: line_has_comment,
            }),
            newlines(src) <= u32::MAX,
        decreases src.len() - i,
    {
        let b = source[i];
        proof {
            lemma_classify_prefix_lines(src, r, i as int);
            lemma_classify_prefix_lines(src, r, i + 1);
            lemma_newlines_monotone_prefix(src, i + 1);
        }
        if b == 0x0au8 {
            lines = lines + 1;
            if line_has_code {
                code = code + 1;
            } else if line_has_comment {
                comments = comments + 1;
            } else {
                blanks = blanks + 1;
            }
            line_has_code = false;
            line_has_comment = false;
            i = i + 1;
            continue;
        }
        if b == 0x20u8 || b == 0x09u8 || b == 0x0cu8 || b == 0x0du8 {
            i = i + 1;
            continue;
        }
        while comment_idx < comment_ranges.len() && comment_ranges[comment_idx].1 <= i
            invariant
                r == comment_ranges@,
                comment_idx <= r.len(),
                forall|k: int| 0 <= k < comment_idx ==> r[k].1 <= i,
            decreases r.len() - comment_idx,
        {
            comment_idx = comment_idx + 1;
        }
        let in_comment_now = comment_idx < comment_ranges.len() && comment_ranges[comment_idx].0 <= i
            && i < comment_ranges[comment_idx].1;
        proof {
            if in_comment(r, i as int) {
                let k = choose|k: int| 0 <= k < r.len() && (#[trigger] r[k]).0 <= i < r[k].1;
                assert(k >= comment_idx);
                assert(r[comment_idx as int].0 <= r[k].0);
            }
        }
        if in_comment_now {
            line_has_comment = true;
        } else {
            line_has_code = true;
        }
        i = i + 1;
    }
    if !source.is_empty() && source[source.len() - 1] != 0x0au8 {
        lines = lines + 1;
        if line_has_code {
            code = code + 1;
        } else if line_has_comment {
            comments = comments + 1;
        } else {
            blanks = blanks + 1;
        }
    }
    LineCounts { lines, code, comments, blanks }
}

proof fn lemma_newlines_monotone_prefix(src: Seq<u8>, n: int)
    requires
        0 <= n <= src.len(),
    ensures
        newlines(src.take(n)) <= newlines(src),
    decreases src.len() - n,
{
    if n < src.len() {
        lemma_newlines_monotone_prefix(src, n + 1);
        assert(src.take(n + 1).drop_last() =~= src.take(n));
    } else {
        assert(src.take(n) =~= src);
    }
}

proof fn lemma_newlines_bound(src: Seq<u8>)
    ensures
        newlines(src) <= line_count(src),
{
}

} // verus!
