//! The terminal table: per-language rows, language families folded into
//! a sub-total row with indented members, and a total row.
use vstd::prelude::*;
use vstd::seq_lib::{to_multiset_build, to_multiset_contains, to_multiset_insert};
use crate::fmt::{families, Family};
use crate::report::{
    fits, is_breakdown, lemma_tally_le_all, lemma_two_tallies_le_all, lex_lt, str_lt, tally,
    tally_all, LanguageTotal, Report,
};
use crate::metrics::FileMetrics;
use crate::text::{char_count, pad_left, pad_right, push_char, push_pad_left, push_pad_right, push_repeat, repeat, str_eq};
use crate::fmt::{fmt_int, fmt_usd, int_text, usd_text};
use owo_colors::{OwoColorize, Stream};

verus! {

/// One table row.
pub struct Row {
    pub name: String,
    pub files: u32,
    pub lines: u32,
    pub code: u32,
    pub comments: u32,
    pub blanks: u32,
    pub complexity: u32,
    pub cost: Option<u64>,
}

/// A standalone language, or a family head followed by its members.
pub struct Block {
    pub head: Row,
    pub indented: Vec<Row>,
}

/// Display order: more lines first, then by name.
pub open spec fn row_before(a: Row, b: Row) -> bool {
    a.lines > b.lines || (a.lines == b.lines && lex_lt(a.name@, b.name@))
}

/// `a` does not come after `b`.
pub open spec fn row_le(a: Row, b: Row) -> bool {
    a.lines > b.lines || (a.lines == b.lines && !lex_lt(b.name@, a.name@))
}

pub open spec fn rows_ordered(s: Seq<Row>) -> bool {
    forall|i: int, j: int| 0 <= i < j < s.len() ==> row_le(s[i], s[j])
}

pub open spec fn blocks_ordered(s: Seq<Block>) -> bool {
    forall|i: int, j: int| 0 <= i < j < s.len() ==> row_le(s[i].head, s[j].head)
}

proof fn lemma_row_le_trans(a: Row, b: Row, c: Row)
    requires
        row_le(a, b),
        row_le(b, c),
    ensures
        row_le(a, c),
{
    if a.lines == b.lines && b.lines == c.lines {
        lemma_lex_trans_not(c.name@, b.name@, a.name@);
    }
}

/// `!(c < b) && !(b < a) ==> !(c < a)`.
proof fn lemma_lex_trans_not(c: Seq<char>, b: Seq<char>, a: Seq<char>)
    requires
        !lex_lt(c, b),
        !lex_lt(b, a),
    ensures
        !lex_lt(c, a),
    decreases a.len(),
{
    crate::report::lemma_lex_trichotomy(c, b);
    crate::report::lemma_lex_trichotomy(b, a);
    if c.len() > 0 && b.len() > 0 && a.len() > 0 && c[0] == b[0] && b[0] == a[0] {
        lemma_lex_trans_not(c.drop_first(), b.drop_first(), a.drop_first());
    }
    vstd::utf8::char_u32_cast(a[0], a[0] as u32);
    vstd::utf8::char_u32_cast(b[0], b[0] as u32);
    vstd::utf8::char_u32_cast(c[0], c[0] as u32);
}

/// A copy of a row.
pub fn copy_row(r: &Row) -> (c: Row)
    ensures
        c == *r,
{
    Row {
        name: r.name.clone(),
        files: r.files,
        lines: r.lines,
        code: r.code,
        comments: r.comments,
        blanks: r.blanks,
        complexity: r.complexity,
        cost: r.cost,
    }
}

fn row_comes_before(a: &Row, b: &Row) -> (r: bool)
    ensures
        r == row_before(*a, *b),
{
    a.lines > b.lines || (a.lines == b.lines && str_lt(a.name.as_str(), b.name.as_str()))
}

/// Sort rows into display order (stable).
pub fn sort_rows(v: Vec<Row>) -> (r: Vec<Row>)
    ensures
        rows_ordered(r@),
        r@.to_multiset() == v@.to_multiset(),
{
    let mut v = v;
    let ghost orig = v@;
    let n = v.len();
    let mut r: Vec<Row> = Vec::new();
    assert(r@ =~= orig.take(0));
    let mut k: usize = 0;
    while v.len() > 0
        invariant
            orig.len() == k + v@.len(),
            orig.len() == n,
            v@ == orig.skip(k as int),
            rows_ordered(r@),
            r@.to_multiset() == orig.take(k as int).to_multiset(),
        decreases v@.len(),
    {
        let x = v.remove(0);
        let mut p: usize = 0;
        while p < r.len() && !row_comes_before(&x, &r[p])
            invariant
                p <= r@.len(),
                forall|j: int| 0 <= j < p ==> !row_before(x, #[trigger] r@[j]),
            decreases r@.len() - p,
        {
            p += 1;
        }
        let ghost before = r@;
        proof {
            assert forall|j: int| 0 <= j < p implies row_le(#[trigger] before[j], x) by {
                crate::report::lemma_lex_trichotomy(x.name@, before[j].name@);
            }
            if p < before.len() {
                crate::report::lemma_lex_trichotomy(x.name@, before[p as int].name@);
                assert(row_le(x, before[p as int]));
            }
        }
        r.insert(p, x);
        proof {
            to_multiset_insert(before, p as int, x);
            assert(orig[k as int] == x);
            assert(orig.take(k + 1) =~= orig.take(k as int).push(x));
            to_multiset_build(orig.take(k as int), x);
            assert(v@ =~= orig.skip(k + 1));
            assert forall|a: int, b: int| 0 <= a < b < r@.len() implies row_le(r@[a], r@[b]) by {
                if b == p {
                    assert(r@[a] == before[a]);
                } else if a == p {
                    assert(r@[b] == before[b - 1]);
                    if b - 1 > p {
                        lemma_row_le_trans(x, before[p as int], before[b - 1]);
                    }
                } else {
                    let a0 = if a < p { a } else { a - 1 };
                    let b0 = if b < p { b } else { b - 1 };
                    assert(r@[a] == before[a0] && r@[b] == before[b0]);
                }
            }
        }
        k += 1;
    }
    assert(orig.take(k as int) =~= orig);
    r
}

/// A row in mathematical form.
pub struct RowView {
    pub name: Seq<char>,
    pub files: nat,
    pub lines: nat,
    pub code: nat,
    pub comments: nat,
    pub blanks: nat,
    pub complexity: nat,
    pub cost: Option<nat>,
}

pub open spec fn rv(r: Row) -> RowView {
    RowView {
        name: r.name@,
        files: r.files as nat,
        lines: r.lines as nat,
        code: r.code as nat,
        comments: r.comments as nat,
        blanks: r.blanks as nat,
        complexity: r.complexity as nat,
        cost: match r.cost {
            Some(c) => Some(c as nat),
            None => None,
        },
    }
}

/// The display name and member names of family `f` (0, 1 or 2).
pub open spec fn fam_display(f: int) -> Seq<char> {
    if f == 0 {
        "TS + TSX"@
    } else if f == 1 {
        "JS + JSX"@
    } else {
        "C + C++"@
    }
}

pub open spec fn fam_members(f: int) -> Seq<Seq<char>> {
    if f == 0 {
        seq!["TypeScript"@, "TSX"@]
    } else if f == 1 {
        seq!["JavaScript"@, "JSX"@]
    } else {
        seq!["C"@, "C++"@]
    }
}

/// Index of the first row named `m`.
pub open spec fn first_named(rows: Seq<Row>, m: Seq<char>, k: int) -> Option<int>
    decreases rows.len() - k,
{
    if k < 0 || k >= rows.len() {
        None
    } else if rows[k].name@ == m {
        Some(k)
    } else {
        first_named(rows, m, k + 1)
    }
}

/// The rows of the first `n` member names of a family that are present,
/// in member order.
pub open spec fn present(rows: Seq<Row>, ms: Seq<Seq<char>>, n: int) -> Seq<Row>
    decreases n,
{
    if n <= 0 {
        seq![]
    } else {
        let p = present(rows, ms, n - 1);
        match first_named(rows, ms[n - 1], 0) {
            Some(i) => p.push(rows[i]),
            None => p,
        }
    }
}

pub open spec fn members_present(rows: Seq<Row>, f: int) -> Seq<Row> {
    present(rows, fam_members(f), fam_members(f).len() as int)
}

/// A family is shown when two or more of its members are present.
pub open spec fn active(rows: Seq<Row>, f: int) -> bool {
    members_present(rows, f).len() >= 2
}

pub open spec fn sum_rows(ms: Seq<Row>) -> RowView
    decreases ms.len(),
{
    if ms.len() == 0 {
        RowView { name: seq![], files: 0, lines: 0, code: 0, comments: 0, blanks: 0, complexity: 0, cost: None }
    } else {
        let s = sum_rows(ms.drop_last());
        let m = ms.last();
        RowView {
            name: seq![],
            files: s.files + m.files as nat,
            lines: s.lines + m.lines as nat,
            code: s.code + m.code as nat,
            comments: s.comments + m.comments as nat,
            blanks: s.blanks + m.blanks as nat,
            complexity: s.complexity + m.complexity as nat,
            cost: match m.cost {
                Some(c) => match s.cost {
                    Some(t) => Some(t + c as nat),
                    None => Some(c as nat),
                },
                None => s.cost,
            },
        }
    }
}

/// The sum of two optional costs: absent only when both are.
pub open spec fn add_costs(a: Option<nat>, b: Option<nat>) -> Option<nat> {
    match (a, b) {
        (Some(x), Some(y)) => Some(x + y),
        (Some(x), None) => Some(x),
        (None, Some(y)) => Some(y),
        (None, None) => None,
    }
}

/// A family head adds up its members: the sums of two lists of rows one
/// after the other are the sums of their sums (a cost is present when
/// either part has one), and the sums of one row are its own numbers.
pub proof fn law_sum_rows_adds(a: Seq<Row>, b: Seq<Row>)
    ensures
        ({
            let x = sum_rows(a);
            let y = sum_rows(b);
            let z = sum_rows(a + b);
            &&& z.files == x.files + y.files
            &&& z.lines == x.lines + y.lines
            &&& z.code == x.code + y.code
            &&& z.comments == x.comments + y.comments
            &&& z.blanks == x.blanks + y.blanks
            &&& z.complexity == x.complexity + y.complexity
            &&& z.cost == add_costs(x.cost, y.cost)
        }),
        forall|r: Row| #[trigger] sum_rows(seq![r]) == (RowView { name: seq![], ..rv(r) }),
    decreases b.len(),
{
    assert forall|r: Row| #[trigger] sum_rows(seq![r]) == (RowView { name: seq![], ..rv(r) }) by {
        let e = Seq::<Row>::empty();
        assert(seq![r].drop_last() =~= e);
        assert(seq![r].last() == r);
        assert(sum_rows(e) == RowView { name: seq![], files: 0, lines: 0, code: 0, comments: 0, blanks: 0, complexity: 0, cost: None });
        assert(sum_rows(e).name =~= Seq::<char>::empty());
    }
    if b.len() == 0 {
        assert(a + b =~= a);
    } else {
        law_sum_rows_adds(a, b.drop_last());
        assert((a + b).drop_last() =~= a + b.drop_last());
        assert((a + b).last() == b.last());
    }
}

/// The head row of family `f`: its display name and the sums of its
/// present members; a cost when any member has one.
pub open spec fn family_head(rows: Seq<Row>, f: int) -> RowView {
    RowView { name: fam_display(f), ..sum_rows(members_present(rows, f)) }
}

/// The name belongs to an active family.
pub open spec fn consumed(rows: Seq<Row>, name: Seq<char>) -> bool {
    exists|f: int| 0 <= f < 3 && active(rows, f) && fam_members(f).contains(name)
}

/// The heads of the active families, in family order.
pub open spec fn family_heads(rows: Seq<Row>, n: int) -> Seq<RowView>
    decreases n,
{
    if n <= 0 {
        seq![]
    } else if active(rows, n - 1) {
        family_heads(rows, n - 1).push(family_head(rows, n - 1))
    } else {
        family_heads(rows, n - 1)
    }
}

/// The rows not in an active family, in row order.
pub open spec fn standalone(rows: Seq<Row>, n: int) -> Seq<RowView>
    decreases n,
{
    if n <= 0 {
        seq![]
    } else if consumed(rows, rows[n - 1].name@) {
        standalone(rows, n - 1)
    } else {
        standalone(rows, n - 1).push(rv(rows[n - 1]))
    }
}

/// The heads of all blocks before sorting.
pub open spec fn all_heads(rows: Seq<Row>) -> Seq<RowView> {
    family_heads(rows, 3) + standalone(rows, rows.len() as int)
}

/// The sums fit the fields of a row.
pub open spec fn fits_row(s: RowView) -> bool {
    &&& s.files <= u32::MAX
    &&& s.lines <= u32::MAX
    &&& s.code <= u32::MAX
    &&& s.comments <= u32::MAX
    &&& s.blanks <= u32::MAX
    &&& s.complexity <= u32::MAX
    &&& s.cost matches Some(c) ==> c <= u64::MAX
}

/// The sums of every family fit the row's fields.
pub open spec fn sums_fit(rows: Seq<Row>) -> bool {
    forall|f: int| 0 <= f < 3 ==> fits_row(#[trigger] sum_rows(members_present(rows, f)))
}

/// The head rows of a sequence of blocks.
pub open spec fn heads_of(bs: Seq<Block>) -> Seq<RowView> {
    bs.map_values(|b: Block| rv(b.head))
}

/// The names of a list of string literals.
pub open spec fn names_of(v: Seq<&'static str>) -> Seq<Seq<char>> {
    v.map_values(|s: &'static str| s@)
}

impl Block {
    /// The block of active family `f`: its head sums the present members,
    /// which follow it in display order.
    pub open spec fn is_family_block(&self, rows: Seq<Row>, f: int) -> bool {
        &&& 0 <= f < 3
        &&& active(rows, f)
        &&& rv(self.head) == family_head(rows, f)
        &&& rows_ordered(self.indented@)
        &&& self.indented@.to_multiset() == members_present(rows, f).to_multiset()
    }

    /// The block of row `i`, which belongs to no active family.
    pub open spec fn is_standalone_block(&self, rows: Seq<Row>, i: int) -> bool {
        &&& 0 <= i < rows.len()
        &&& !consumed(rows, rows[i].name@)
        &&& rv(self.head) == rv(rows[i])
        &&& self.indented@.len() == 0
    }

    /// The block is a family's, or a standalone row's.
    pub open spec fn well_made(&self, rows: Seq<Row>) -> bool {
        ||| exists|f: int| #[trigger] self.is_family_block(rows, f)
        ||| exists|i: int| #[trigger] self.is_standalone_block(rows, i)
    }
}

proof fn lemma_sum_prefix(ms: Seq<Row>, j: int)
    requires
        0 <= j <= ms.len(),
    ensures
        ({
            let a = sum_rows(ms.take(j));
            let b = sum_rows(ms);
            &&& a.files <= b.files
            &&& a.lines <= b.lines
            &&& a.code <= b.code
            &&& a.comments <= b.comments
            &&& a.blanks <= b.blanks
            &&& a.complexity <= b.complexity
            &&& a.cost matches Some(x) ==> (b.cost matches Some(y) && x <= y)
        }),
    decreases ms.len(),
{
    if j == ms.len() {
        assert(ms.take(j) =~= ms);
    } else {
        assert(ms.take(j) =~= ms.drop_last().take(j));
        lemma_sum_prefix(ms.drop_last(), j);
    }
}

/// The first row named `m`.
fn find_named(rows: &Vec<Row>, m: &str) -> (r: Option<usize>)
    ensures
        match r {
            Some(i) => i < rows@.len() && first_named(rows@, m@, 0) == Some(i as int),
            None => first_named(rows@, m@, 0) is None,
        },
{
    let mut i: usize = 0;
    while i < rows.len()
        invariant
            i <= rows@.len(),
            first_named(rows@, m@, 0) == first_named(rows@, m@, i as int),
        decreases rows@.len() - i,
    {
        if str_eq(rows[i].name.as_str(), m) {
            return Some(i);
        }
        i += 1;
    }
    None
}

/// Copies of the rows of the named members that are present, in member order.
pub(crate) fn present_rows(rows: &Vec<Row>, members: &Vec<&'static str>) -> (ms: Vec<Row>)
    ensures
        ms@ == present(rows@, names_of(members@), members@.len() as int),
{
    let ghost names = names_of(members@);
    let mut ms: Vec<Row> = Vec::new();
    let mut j: usize = 0;
    while j < members.len()
        invariant
            j <= members@.len(),
            names == names_of(members@),
            ms@ == present(rows@, names, j as int),
        decreases members@.len() - j,
    {
        assert(names[j as int] == members@[j as int]@);
        match find_named(rows, members[j]) {
            Some(i) => {
                ms.push(copy_row(&rows[i]));
            },
            None => {},
        }
        j += 1;
    }
    ms
}

/// The head row of a family: the display name and the sums of the members.
pub(crate) fn family_head_row(display: &str, ms: &Vec<Row>) -> (h: Row)
    requires
        fits_row(sum_rows(ms@)),
    ensures
        rv(h) == (RowView { name: display@, ..sum_rows(ms@) }),
{
    let mut head = Row {
        name: display.to_owned(),
        files: 0,
        lines: 0,
        code: 0,
        comments: 0,
        blanks: 0,
        complexity: 0,
        cost: None,
    };
    assert(ms@.take(0) =~= Seq::<Row>::empty());
    let mut i: usize = 0;
    while i < ms.len()
        invariant
            i <= ms@.len(),
            fits_row(sum_rows(ms@)),
            rv(head) == (RowView { name: display@, ..sum_rows(ms@.take(i as int)) }),
        decreases ms@.len() - i,
    {
        proof {
            lemma_sum_prefix(ms@, i + 1);
            assert(ms@.take(i + 1).drop_last() =~= ms@.take(i as int));
        }
        let m = &ms[i];
        head.files = head.files + m.files;
        head.lines = head.lines + m.lines;
        head.code = head.code + m.code;
        head.comments = head.comments + m.comments;
        head.blanks = head.blanks + m.blanks;
        head.complexity = head.complexity + m.complexity;
        if let Some(c) = m.cost {
            let t = match head.cost {
                Some(t) => t,
                None => 0,
            };
            head.cost = Some(t + c);
        }
        i += 1;
    }
    assert(ms@.take(i as int) =~= ms@);
    head
}

fn block_comes_before(a: &Block, b: &Block) -> (r: bool)
    ensures
        r == row_before(a.head, b.head),
{
    row_comes_before(&a.head, &b.head)
}

/// Sort blocks into display order by their heads (stable).
fn sort_blocks(v: Vec<Block>) -> (r: Vec<Block>)
    ensures
        blocks_ordered(r@),
        r@.to_multiset() == v@.to_multiset(),
        heads_of(r@).to_multiset() == heads_of(v@).to_multiset(),
{
    let mut v = v;
    let ghost orig = v@;
    let n = v.len();
    let mut r: Vec<Block> = Vec::new();
    assert(r@ =~= orig.take(0));
    assert(heads_of(r@) =~= heads_of(orig.take(0)));
    let mut k: usize = 0;
    while v.len() > 0
        invariant
            orig.len() == k + v@.len(),
            orig.len() == n,
            v@ == orig.skip(k as int),
            blocks_ordered(r@),
            r@.to_multiset() == orig.take(k as int).to_multiset(),
            heads_of(r@).to_multiset() == heads_of(orig.take(k as int)).to_multiset(),
        decreases v@.len(),
    {
        let x = v.remove(0);
        let mut p: usize = 0;
        while p < r.len() && !block_comes_before(&x, &r[p])
            invariant
                p <= r@.len(),
                forall|j: int| 0 <= j < p ==> !row_before(x.head, #[trigger] r@[j].head),
            decreases r@.len() - p,
        {
            p += 1;
        }
        let ghost before = r@;
        proof {
            assert forall|j: int| 0 <= j < p implies row_le(#[trigger] before[j].head, x.head) by {
                crate::report::lemma_lex_trichotomy(x.head.name@, before[j].head.name@);
            }
            if p < before.len() {
                crate::report::lemma_lex_trichotomy(x.head.name@, before[p as int].head.name@);
                assert(row_le(x.head, before[p as int].head));
            }
        }
        r.insert(p, x);
        proof {
            to_multiset_insert(before, p as int, x);
            assert(heads_of(r@) =~= heads_of(before).insert(p as int, rv(x.head)));
            to_multiset_insert(heads_of(before), p as int, rv(x.head));
            assert(orig[k as int] == x);
            assert(orig.take(k + 1) =~= orig.take(k as int).push(x));
            assert(heads_of(orig.take(k + 1)) =~= heads_of(orig.take(k as int)).push(rv(x.head)));
            to_multiset_build(orig.take(k as int), x);
            to_multiset_build(heads_of(orig.take(k as int)), rv(x.head));
            assert(v@ =~= orig.skip(k + 1));
            assert forall|a: int, b: int| 0 <= a < b < r@.len() implies row_le(
                r@[a].head,
                r@[b].head,
            ) by {
                if b == p {
                    assert(r@[a] == before[a]);
                } else if a == p {
                    assert(r@[b] == before[b - 1]);
                    if b - 1 > p {
                        lemma_row_le_trans(x.head, before[p as int].head, before[b - 1].head);
                    }
                } else {
                    let a0 = if a < p { a } else { a - 1 };
                    let b0 = if b < p { b } else { b - 1 };
                    assert(r@[a] == before[a0] && r@[b] == before[b0]);
                }
            }
        }
        k += 1;
    }
    assert(orig.take(k as int) =~= orig);
    r
}

/// The three families' names, as the spec functions give them.
pub(crate) proof fn lemma_families(fams: Seq<Family>)
    requires
        fams.len() == 3,
        fams[0].display@ == "TS + TSX"@,
        fams[0].members@.len() == 2,
        fams[0].members@[0]@ == "TypeScript"@,
        fams[0].members@[1]@ == "TSX"@,
        fams[1].display@ == "JS + JSX"@,
        fams[1].members@.len() == 2,
        fams[1].members@[0]@ == "JavaScript"@,
        fams[1].members@[1]@ == "JSX"@,
        fams[2].display@ == "C + C++"@,
        fams[2].members@.len() == 2,
        fams[2].members@[0]@ == "C"@,
        fams[2].members@[1]@ == "C++"@,
    ensures
        forall|g: int|
            0 <= g < 3 ==> #[trigger] names_of(fams[g].members@) == fam_members(g)
                && fams[g].display@ == fam_display(g),
{
    assert(names_of(fams[0].members@) =~= fam_members(0));
    assert(names_of(fams[1].members@) =~= fam_members(1));
    assert(names_of(fams[2].members@) =~= fam_members(2));
}

/// Whether `name` belongs to an active family.
fn is_consumed(fams: &Vec<Family>, act: &Vec<bool>, name: &str, Ghost(rows): Ghost<Seq<Row>>) -> (r:
    bool)
    requires
        fams@.len() == 3,
        act@.len() == 3,
        forall|g: int|
            0 <= g < 3 ==> #[trigger] names_of(fams@[g].members@) == fam_members(g),
        forall|g: int| 0 <= g < 3 ==> #[trigger] act@[g] == active(rows, g),
    ensures
        r == consumed(rows, name@),
{
    let mut g: usize = 0;
    while g < fams.len()
        invariant
            g <= 3,
            fams@.len() == 3,
            act@.len() == 3,
            forall|h: int|
                0 <= h < 3 ==> #[trigger] names_of(fams@[h].members@) == fam_members(h),
            forall|h: int| 0 <= h < 3 ==> #[trigger] act@[h] == active(rows, h),
            forall|h: int|
                0 <= h < g ==> !(active(rows, h) && #[trigger] fam_members(h).contains(name@)),
        decreases 3 - g,
    {
        let ms = &fams[g].members;
        assert(names_of(fams@[g as int].members@) == fam_members(g as int));
        if act[g] {
            assert(act@[g as int] == active(rows, g as int));
            let mut j: usize = 0;
            while j < ms.len()
                invariant
                    j <= ms@.len(),
                    names_of(ms@) == fam_members(g as int),
                    g < 3,
                    active(rows, g as int),
                    forall|k: int| 0 <= k < j ==> ms@[k]@ != name@,
                decreases ms@.len() - j,
            {
                if str_eq(ms[j], name) {
                    proof {
                        assert(names_of(ms@)[j as int] == ms@[j as int]@);
                        assert(fam_members(g as int)[j as int] == name@);
                        assert(fam_members(g as int).contains(name@));
                        assert(consumed(rows, name@));
                    }
                    return true;
                }
                j += 1;
            }
            proof {
                if fam_members(g as int).contains(name@) {
                    let k = choose|k: int|
                        0 <= k < fam_members(g as int).len() && fam_members(g as int)[k] == name@;
                    assert(names_of(ms@)[k] == ms@[k]@);
                }
            }
        }
        g += 1;
    }
    false
}

/// Group the rows into display blocks: each active family becomes a head
/// row with its members indented under it, every other row a block of its
/// own; blocks come in display order of their heads.
pub fn build_blocks(rows: &Vec<Row>) -> (blocks: Vec<Block>)
    requires
        sums_fit(rows@),
    ensures
        blocks_ordered(blocks@),
        heads_of(blocks@).to_multiset() == all_heads(rows@).to_multiset(),
        forall|i: int| 0 <= i < blocks@.len() ==> #[trigger] blocks@[i].well_made(rows@),
{
    let fams = families();
    proof {
        lemma_families(fams@);
    }
    let mut blocks: Vec<Block> = Vec::new();
    let mut act: Vec<bool> = Vec::new();
    let mut f: usize = 0;
    assert(heads_of(blocks@) =~= family_heads(rows@, 0));
    while f < fams.len()
        invariant
            f <= 3,
            fams@.len() == 3,
            sums_fit(rows@),
            forall|g: int|
                0 <= g < 3 ==> #[trigger] names_of(fams@[g].members@) == fam_members(g)
                    && fams@[g].display@ == fam_display(g),
            act@.len() == f,
            forall|g: int| 0 <= g < f ==> #[trigger] act@[g] == active(rows@, g),
            heads_of(blocks@) == family_heads(rows@, f as int),
            forall|i: int| 0 <= i < blocks@.len() ==> #[trigger] blocks@[i].well_made(rows@),
        decreases 3 - f,
    {
        let fam = &fams[f];
        assert(names_of(fams@[f as int].members@) == fam_members(f as int));
        let ms = present_rows(rows, &fam.members);
        assert(ms@ == members_present(rows@, f as int));
        if ms.len() >= 2 {
            assert(fits_row(sum_rows(members_present(rows@, f as int))));
            let head = family_head_row(fam.display, &ms);
            let indented = sort_rows(ms);
            let b = Block { head, indented };
            assert(b.is_family_block(rows@, f as int));
            let ghost old_blocks = blocks@;
            blocks.push(b);
            proof {
                assert(heads_of(blocks@) =~= heads_of(old_blocks).push(rv(b.head)));
                assert forall|i: int| 0 <= i < blocks@.len() implies #[trigger] blocks@[i].well_made(
                    rows@,
                ) by {
                    if i < old_blocks.len() {
                        assert(blocks@[i] == old_blocks[i]);
                    }
                }
            }
            act.push(true);
        } else {
            act.push(false);
        }
        f += 1;
    }
    let mut i: usize = 0;
    assert(heads_of(blocks@) =~= family_heads(rows@, 3) + standalone(rows@, 0));
    while i < rows.len()
        invariant
            i <= rows@.len(),
            fams@.len() == 3,
            act@.len() == 3,
            forall|g: int|
                0 <= g < 3 ==> #[trigger] names_of(fams@[g].members@) == fam_members(g),
            forall|g: int| 0 <= g < 3 ==> #[trigger] act@[g] == active(rows@, g),
            heads_of(blocks@) == family_heads(rows@, 3) + standalone(rows@, i as int),
            forall|j: int| 0 <= j < blocks@.len() ==> #[trigger] blocks@[j].well_made(rows@),
        decreases rows@.len() - i,
    {
        if !is_consumed(&fams, &act, rows[i].name.as_str(), Ghost(rows@)) {
            let b = Block { head: copy_row(&rows[i]), indented: Vec::new() };
            assert(b.is_standalone_block(rows@, i as int));
            let ghost old_blocks = blocks@;
            blocks.push(b);
            proof {
                assert(heads_of(blocks@) =~= heads_of(old_blocks).push(rv(b.head)));
                assert(heads_of(blocks@) =~= family_heads(rows@, 3) + standalone(
                    rows@,
                    i + 1,
                ));
                assert forall|j: int| 0 <= j < blocks@.len() implies #[trigger] blocks@[j].well_made(
                    rows@,
                ) by {
                    if j < old_blocks.len() {
                        assert(blocks@[j] == old_blocks[j]);
                    }
                }
            }
        }
        i += 1;
    }
    let ghost unsorted = blocks@;
    let sorted = sort_blocks(blocks);
    proof {
        assert forall|j: int| 0 <= j < sorted@.len() implies #[trigger] sorted@[j].well_made(
            rows@,
        ) by {
            to_multiset_contains(sorted@, sorted@[j]);
            to_multiset_contains(unsorted, sorted@[j]);
            assert(sorted@.contains(sorted@[j]));
            let k = choose|k: int| 0 <= k < unsorted.len() && unsorted[k] == sorted@[j];
            assert(unsorted[k].well_made(rows@));
        }
    }
    sorted
}

/// Members are indented this many spaces under their family's head.
pub const INDENT: usize = 2;

/// One printed line of the table: the name, already indented, the six
/// number cells (files, lines, code, comments, blanks, complexity), and
/// the cost cell (empty when the row has no cost), printed when the table
/// has a cost column.
pub struct Line {
    pub name: String,
    pub cells: Vec<String>,
    pub cost: String,
}

/// Column widths: the language column, each number column, and the cost
/// column (0 when there is none).
pub struct Widths {
    pub lang: usize,
    pub num: usize,
    pub cost: usize,
}

impl Widths {
    /// The language column, six number columns, the cost column when
    /// present, and one space between columns.
    pub open spec fn total(&self) -> int {
        self.lang + 6 * self.num + (if self.cost > 0 {
            self.cost + 1
        } else {
            0
        }) + 7
    }

    /// The width of the whole table.
    pub fn total_width(&self) -> (n: usize)
        requires
            self.total() <= usize::MAX,
        ensures
            n == self.total(),
    {
        let cost_part = if self.cost > 0 {
            self.cost + 1
        } else {
            0
        };
        self.lang + 6 * self.num + cost_part + 7
    }
}

/// The texts of a line's cells.
pub open spec fn cell_texts(l: Line) -> Seq<Seq<char>> {
    l.cells@.map_values(|c: String| c@)
}

/// The length of the longest text, 0 for none.
pub open spec fn max_len(cs: Seq<Seq<char>>) -> nat
    decreases cs.len(),
{
    if cs.len() == 0 {
        0
    } else if cs.last().len() > max_len(cs.drop_last()) {
        cs.last().len()
    } else {
        max_len(cs.drop_last())
    }
}

/// The names of the lines.
pub open spec fn line_names(ls: Seq<Line>) -> Seq<Seq<char>> {
    ls.map_values(|l: Line| l.name@)
}

/// The longest cell of any line.
pub open spec fn longest_cell(ls: Seq<Line>) -> nat
    decreases ls.len(),
{
    if ls.len() == 0 {
        0
    } else {
        let a = longest_cell(ls.drop_last());
        let b = max_len(cell_texts(ls.last()));
        if b > a {
            b
        } else {
            a
        }
    }
}

/// The longest text is the longest of all: no text is longer, one has
/// exactly that length when there is any, and it is 0 for none.
pub proof fn law_max_len_is_longest(cs: Seq<Seq<char>>)
    ensures
        forall|k: int| 0 <= k < cs.len() ==> (#[trigger] cs[k]).len() <= max_len(cs),
        cs.len() > 0 ==> exists|k: int| 0 <= k < cs.len() && (#[trigger] cs[k]).len() == max_len(cs),
        cs.len() == 0 ==> max_len(cs) == 0,
    decreases cs.len(),
{
    if cs.len() > 0 {
        let p = cs.drop_last();
        law_max_len_is_longest(p);
        assert forall|k: int| 0 <= k < cs.len() implies (#[trigger] cs[k]).len() <= max_len(cs) by {
            if k < p.len() {
                assert(cs[k] == p[k]);
            }
        }
        if cs.last().len() > max_len(p) {
            assert(cs[cs.len() - 1].len() == max_len(cs));
        } else if p.len() > 0 {
            let k = choose|k: int| 0 <= k < p.len() && (#[trigger] p[k]).len() == max_len(p);
            assert(cs[k] == p[k]);
        } else {
            assert(cs[0].len() == max_len(cs));
        }
    }
}

/// The number columns fit every cell: no cell of any line is longer than
/// `longest_cell`, and, when some line has a cell, one cell is exactly that
/// long.
pub proof fn law_longest_cell_fits(ls: Seq<Line>)
    ensures
        forall|i: int, k: int|
            0 <= i < ls.len() && 0 <= k < cell_texts(ls[i]).len() ==> (#[trigger] cell_texts(ls[i])[k]).len()
                <= longest_cell(ls),
        longest_cell(ls) == 0 || exists|i: int, k: int|
            0 <= i < ls.len() && 0 <= k < cell_texts(ls[i]).len() && (#[trigger] cell_texts(ls[i])[k]).len()
                == longest_cell(ls),
    decreases ls.len(),
{
    if ls.len() > 0 {
        let p = ls.drop_last();
        law_longest_cell_fits(p);
        let l = ls.last();
        law_max_len_is_longest(cell_texts(l));
        assert forall|i: int, k: int|
            0 <= i < ls.len() && 0 <= k < cell_texts(ls[i]).len() implies (#[trigger] cell_texts(ls[i])[k]).len()
                <= longest_cell(ls) by {
            if i < p.len() {
                assert(ls[i] == p[i]);
            } else {
                assert(ls[i] == l);
            }
        }
        if max_len(cell_texts(l)) > longest_cell(p) {
            let k = choose|k: int|
                0 <= k < cell_texts(l).len() && (#[trigger] cell_texts(l)[k]).len() == max_len(cell_texts(l));
            assert(ls[ls.len() - 1] == l);
            assert(cell_texts(ls[ls.len() - 1])[k].len() == longest_cell(ls));
        } else if longest_cell(p) != 0 {
            let (i, k) = choose|i: int, k: int|
                0 <= i < p.len() && 0 <= k < cell_texts(p[i]).len() && (#[trigger] cell_texts(p[i])[k]).len()
                    == longest_cell(p);
            assert(ls[i] == p[i]);
            assert(cell_texts(ls[i])[k].len() == longest_cell(ls));
        }
    }
}

/// The language column: as wide as the widest name, and at least as wide
/// as its header `Language`.
pub open spec fn lang_width(ls: Seq<Line>) -> int {
    let m = max_len(line_names(ls));
    if m > 8 {
        m as int
    } else {
        8
    }
}

/// The number columns: as wide as the widest number, and at least as wide
/// as the widest header, `Complexity`.
pub open spec fn num_width(ls: Seq<Line>) -> int {
    let m = longest_cell(ls);
    if m > 10 {
        m as int
    } else {
        10
    }
}

/// The six number cells, each right-aligned to `w` after a space.
pub open spec fn cells_line(cs: Seq<Seq<char>>, w: int) -> Seq<char>
    decreases cs.len(),
{
    if cs.len() == 0 {
        seq![]
    } else {
        cells_line(cs.drop_last(), w) + seq![' '] + pad_left(cs.last(), w)
    }
}

/// The cost cell after a space, right-aligned, when there is a cost column.
pub open spec fn cost_part(l: Line, w: Widths) -> Seq<char> {
    if w.cost > 0 {
        seq![' '] + pad_left(l.cost@, w.cost as int)
    } else {
        seq![]
    }
}

/// One printed row.
pub open spec fn line_text(l: Line, w: Widths) -> Seq<char> {
    pad_right(l.name@, w.lang as int) + cells_line(cell_texts(l), w.num as int) + cost_part(l, w)
        + seq!['\n']
}

/// Printed rows, in order.
pub open spec fn lines_text(ls: Seq<Line>, w: Widths) -> Seq<char>
    decreases ls.len(),
{
    if ls.len() == 0 {
        seq![]
    } else {
        lines_text(ls.drop_last(), w) + line_text(ls.last(), w)
    }
}

/// Texts joined by single spaces.
pub open spec fn joined(hs: Seq<Seq<char>>) -> Seq<char>
    decreases hs.len(),
{
    if hs.len() == 0 {
        seq![]
    } else if hs.len() == 1 {
        hs[0]
    } else {
        joined(hs.drop_last()) + seq![' '] + hs.last()
    }
}

/// A horizontal rule of `n` box-drawing characters, then a newline.
pub open spec fn rule(n: int) -> Seq<char> {
    repeat('\u{2500}', n) + seq!['\n']
}

/// The table: rule, header, rule, the rows, rule, the last line (the
/// total), rule.
pub open spec fn table_text(ls: Seq<Line>, hs: Seq<Seq<char>>, w: Widths) -> Seq<char> {
    let r = rule(w.total());
    r + joined(hs) + seq!['\n'] + r + lines_text(ls.drop_last(), w) + r + line_text(ls.last(), w) + r
}

/// Bold in an ANSI terminal.
pub open spec fn bold(s: Seq<char>) -> Seq<char> {
    "\x1b[1m"@ + s + "\x1b[0m"@
}

/// The header labels.
pub open spec fn header_label(i: int) -> Seq<char> {
    if i == 0 {
        "Language"@
    } else if i == 1 {
        "Files"@
    } else if i == 2 {
        "Lines"@
    } else if i == 3 {
        "Code"@
    } else if i == 4 {
        "Comments"@
    } else if i == 5 {
        "Blanks"@
    } else {
        "Complexity"@
    }
}

/// Header cell `i`: its label aligned as its column, bold or plain; the
/// cost column's `Cost` last when there is one.
pub open spec fn header_ok(hs: Seq<Seq<char>>, w: Widths) -> bool {
    &&& hs.len() == if w.cost > 0 {
        8int
    } else {
        7int
    }
    &&& w.cost > 0 ==> {
        let p = pad_left("Cost"@, w.cost as int);
        hs[7] == p || hs[7] == bold(p)
    }
    &&& forall|i: int|
        0 <= i < 7 ==> {
            let p = if i == 0 {
                pad_right(header_label(i), w.lang as int)
            } else {
                pad_left(header_label(i), w.num as int)
            };
            #[trigger] hs[i] == p || hs[i] == bold(p)
        }
}

/// owo-colors' `if_supports_color(Stream::Stdout, OwoColorize::bold)` on
/// `text`, printed: the text wrapped in the bold and reset codes when
/// standard output takes colour, else the text itself. Which of the two
/// depends on the terminal and the environment, so the result is stated as
/// one or the other.
#[verifier::external_body]
fn bold_on_stdout(text: &str) -> (r: String)
    ensures
        r@ == text@ || r@ == bold(text@),
{
    format!("{}", text.if_supports_color(Stream::Stdout, OwoColorize::bold))
}

/// A header label aligned to `w` and styled for standard output.
fn header_cell(label: &str, w: usize, left: bool) -> (r: String)
    ensures
        r@ == (if left {
            pad_right(label@, w as int)
        } else {
            pad_left(label@, w as int)
        }) || r@ == bold(
            if left {
                pad_right(label@, w as int)
            } else {
                pad_left(label@, w as int)
            },
        ),
{
    let mut padded = String::new();
    if left {
        push_pad_right(&mut padded, label, w);
    } else {
        push_pad_left(&mut padded, label, w);
    }
    bold_on_stdout(padded.as_str())
}

/// The header cells for the widths `w`.
fn header_cells(w: &Widths) -> (hs: Vec<String>)
    ensures
        header_ok(hs@.map_values(|c: String| c@), *w),
{
    let mut hs: Vec<String> = Vec::new();
    hs.push(header_cell("Language", w.lang, true));
    hs.push(header_cell("Files", w.num, false));
    hs.push(header_cell("Lines", w.num, false));
    hs.push(header_cell("Code", w.num, false));
    hs.push(header_cell("Comments", w.num, false));
    hs.push(header_cell("Blanks", w.num, false));
    hs.push(header_cell("Complexity", w.num, false));
    if w.cost > 0 {
        hs.push(header_cell("Cost", w.cost, false));
    }
    proof {
        reveal_strlit("Language");
        reveal_strlit("Files");
        reveal_strlit("Lines");
        reveal_strlit("Code");
        reveal_strlit("Comments");
        reveal_strlit("Blanks");
        reveal_strlit("Complexity");
        let v = hs@.map_values(|c: String| c@);
        if w.cost > 0 {
            assert(v[7] == hs@[7]@);
        }
        assert forall|i: int| 0 <= i < 7 implies {
            let p = if i == 0 {
                pad_right(header_label(i), w.lang as int)
            } else {
                pad_left(header_label(i), w.num as int)
            };
            #[trigger] v[i] == p || v[i] == bold(p)
        } by {
            assert(v[i] == hs@[i]@);
        }
    }
    hs
}

/// The widest text of `cs`, by characters.
fn longest(cs: &Vec<String>) -> (n: usize)
    ensures
        n == max_len(cs@.map_values(|c: String| c@)),
{
    let ghost v = cs@.map_values(|c: String| c@);
    let mut n: usize = 0;
    let mut j: usize = 0;
    assert(v.take(0) =~= Seq::<Seq<char>>::empty());
    while j < cs.len()
        invariant
            j <= cs@.len(),
            v == cs@.map_values(|c: String| c@),
            n == max_len(v.take(j as int)),
        decreases cs@.len() - j,
    {
        let m = char_count(cs[j].as_str());
        proof {
            assert(v.take(j + 1).drop_last() =~= v.take(j as int));
            assert(v.take(j + 1).last() == cs@[j as int]@);
        }
        if m > n {
            n = m;
        }
        j += 1;
    }
    assert(v.take(j as int) =~= v);
    n
}

/// The cost cells of the lines.
pub open spec fn cost_texts(ls: Seq<Line>) -> Seq<Seq<char>> {
    ls.map_values(|l: Line| l.cost@)
}

/// The cost column, when shown: as wide as the widest cost, and at least
/// as wide as its header `Cost`; 0 when not shown.
pub open spec fn cost_width(ls: Seq<Line>, show_cost: bool) -> int {
    let m = max_len(cost_texts(ls));
    if !show_cost {
        0
    } else if m > 4 {
        m as int
    } else {
        4
    }
}

/// The column widths that fit every line and header.
pub fn compute_widths(ls: &Vec<Line>, show_cost: bool) -> (w: Widths)
    ensures
        w.lang == lang_width(ls@),
        w.num == num_width(ls@),
        w.cost == cost_width(ls@, show_cost),
{
    let ghost names = line_names(ls@);
    let ghost costs = cost_texts(ls@);
    let mut lang_max: usize = 0;
    let mut num_max: usize = 0;
    let mut cost_max: usize = 0;
    let mut k: usize = 0;
    assert(names.take(0) =~= Seq::<Seq<char>>::empty());
    assert(costs.take(0) =~= Seq::<Seq<char>>::empty());
    assert(ls@.take(0) =~= Seq::<Line>::empty());
    while k < ls.len()
        invariant
            k <= ls@.len(),
            names == line_names(ls@),
            costs == cost_texts(ls@),
            lang_max == max_len(names.take(k as int)),
            cost_max == max_len(costs.take(k as int)),
            num_max == longest_cell(ls@.take(k as int)),
        decreases ls@.len() - k,
    {
        let m = char_count(ls[k].name.as_str());
        let c = longest(&ls[k].cells);
        let d = char_count(ls[k].cost.as_str());
        proof {
            assert(names.take(k + 1).drop_last() =~= names.take(k as int));
            assert(names.take(k + 1).last() == ls@[k as int].name@);
            assert(costs.take(k + 1).drop_last() =~= costs.take(k as int));
            assert(costs.take(k + 1).last() == ls@[k as int].cost@);
            assert(ls@.take(k + 1).drop_last() =~= ls@.take(k as int));
            assert(ls@.take(k + 1).last() == ls@[k as int]);
        }
        if m > lang_max {
            lang_max = m;
        }
        if c > num_max {
            num_max = c;
        }
        if d > cost_max {
            cost_max = d;
        }
        k += 1;
    }
    assert(names.take(k as int) =~= names);
    assert(costs.take(k as int) =~= costs);
    assert(ls@.take(k as int) =~= ls@);
    Widths {
        lang: if lang_max > 8 {
            lang_max
        } else {
            8
        },
        num: if num_max > 10 {
            num_max
        } else {
            10
        },
        cost: if !show_cost {
            0
        } else if cost_max > 4 {
            cost_max
        } else {
            4
        },
    }
}

/// Print one row.
pub fn write_row(sink: &mut String, l: &Line, w: &Widths)
    ensures
        final(sink)@ == old(sink)@ + line_text(*l, *w),
{
    let ghost start = sink@;
    let ghost cs = cell_texts(*l);
    push_pad_right(sink, l.name.as_str(), w.lang);
    let mut j: usize = 0;
    assert(cs.take(0) =~= Seq::<Seq<char>>::empty());
    while j < l.cells.len()
        invariant
            j <= l.cells@.len(),
            cs == cell_texts(*l),
            sink@ == start + pad_right(l.name@, w.lang as int) + cells_line(cs.take(j as int), w.num as int),
        decreases l.cells@.len() - j,
    {
        push_char(sink, ' ');
        push_pad_left(sink, l.cells[j].as_str(), w.num);
        proof {
            assert(cs.take(j + 1).drop_last() =~= cs.take(j as int));
            assert(cs.take(j + 1).last() == l.cells@[j as int]@);
            assert(sink@ =~= start + pad_right(l.name@, w.lang as int) + cells_line(
                cs.take(j + 1),
                w.num as int,
            ));
        }
        j += 1;
    }
    assert(cs.take(j as int) =~= cs);
    if w.cost > 0 {
        push_char(sink, ' ');
        push_pad_left(sink, l.cost.as_str(), w.cost);
    }
    push_char(sink, '\n');
    assert(sink@ =~= start + line_text(*l, *w));
}

/// Print the header cells, joined by spaces, and a newline.
pub fn write_header(sink: &mut String, hs: &Vec<String>)
    ensures
        final(sink)@ == old(sink)@ + joined(hs@.map_values(|c: String| c@)) + seq!['\n'],
{
    let ghost start = sink@;
    let ghost v = hs@.map_values(|c: String| c@);
    let mut j: usize = 0;
    assert(v.take(0) =~= Seq::<Seq<char>>::empty());
    while j < hs.len()
        invariant
            j <= hs@.len(),
            v == hs@.map_values(|c: String| c@),
            sink@ == start + joined(v.take(j as int)),
        decreases hs@.len() - j,
    {
        if j > 0 {
            push_char(sink, ' ');
        }
        sink.append(hs[j].as_str());
        proof {
            assert(v.take(j + 1).drop_last() =~= v.take(j as int));
            assert(v.take(j + 1).last() == hs@[j as int]@);
            if j == 0 {
                assert(v.take(1)[0] == hs@[0]@);
            }
            assert(sink@ =~= start + joined(v.take(j + 1)));
        }
        j += 1;
    }
    assert(v.take(j as int) =~= v);
    push_char(sink, '\n');
}

fn write_rule(sink: &mut String, n: usize)
    ensures
        final(sink)@ == old(sink)@ + rule(n as int),
{
    push_repeat(sink, '\u{2500}', n);
    push_char(sink, '\n');
    assert(final(sink)@ =~= old(sink)@ + rule(n as int));
}

/// Print the table of `ls`, whose last line is the total, under the header
/// cells `hs`.
pub fn render_table(ls: &Vec<Line>, hs: &Vec<String>, w: &Widths, sink: &mut String)
    requires
        ls@.len() >= 1,
        w.total() <= usize::MAX,
    ensures
        final(sink)@ == old(sink)@ + table_text(ls@, hs@.map_values(|c: String| c@), *w),
{
    let ghost start = sink@;
    let n = w.total_width();
    write_rule(sink, n);
    write_header(sink, hs);
    write_rule(sink, n);
    let ghost mid = sink@;
    let last = ls.len() - 1;
    let mut k: usize = 0;
    assert(ls@.drop_last().take(0) =~= Seq::<Line>::empty());
    while k < last
        invariant
            k <= last,
            last == ls@.len() - 1,
            sink@ == mid + lines_text(ls@.drop_last().take(k as int), *w),
        decreases last - k,
    {
        write_row(sink, &ls[k], w);
        proof {
            let d = ls@.drop_last();
            assert(d.take(k + 1).drop_last() =~= d.take(k as int));
            assert(d.take(k + 1).last() == ls@[k as int]);
        }
        k += 1;
    }
    assert(ls@.drop_last().take(k as int) =~= ls@.drop_last());
    write_rule(sink, n);
    write_row(sink, &ls[last], w);
    write_rule(sink, n);
    assert(sink@ =~= start + table_text(ls@, hs@.map_values(|c: String| c@), *w));
}

/// The terminal table exporter.
pub struct TableExporter;

/// Costs to print in the table: one per language, and the project's.
pub struct TableCosts {
    pub per_language: Vec<(String, u64)>,
    pub project: u64,
}

/// The cost listed for `name`: that of the first entry naming it.
pub open spec fn cost_from(per: Seq<(String, u64)>, name: Seq<char>, k: int) -> Option<u64>
    decreases per.len() - k,
{
    if k < 0 || k >= per.len() {
        None
    } else if per[k].0@ == name {
        Some(per[k].1)
    } else {
        cost_from(per, name, k + 1)
    }
}

/// The cost a language's row shows: its listed cost when the table has a
/// cost column, else none.
pub open spec fn listed_cost(show_cost: bool, per: Seq<(String, u64)>, name: Seq<char>) -> Option<u64> {
    if show_cost {
        cost_from(per, name, 0)
    } else {
        None
    }
}

/// The cost of a row, in mathematical form.
pub open spec fn cost_view(c: Option<u64>) -> Option<nat> {
    match c {
        Some(x) => Some(x as nat),
        None => None,
    }
}

/// The row of a language's totals. The per-language totals carry no
/// complexity figure, so that stays 0; the cost is the listed one.
pub open spec fn total_view(t: LanguageTotal, show_cost: bool, per: Seq<(String, u64)>) -> RowView {
    RowView {
        name: t.language@,
        files: t.files as nat,
        lines: t.lines as nat,
        code: t.code as nat,
        comments: t.comments as nat,
        blanks: t.blanks as nat,
        complexity: 0,
        cost: cost_view(listed_cost(show_cost, per, t.language@)),
    }
}

/// `built` holds one row per total, in the same order.
pub open spec fn rows_of_totals(
    built: Seq<Row>,
    totals: Seq<LanguageTotal>,
    show_cost: bool,
    per: Seq<(String, u64)>,
) -> bool {
    &&& built.len() == totals.len()
    &&& forall|i: int|
        0 <= i < built.len() ==> rv(#[trigger] built[i]) == total_view(totals[i], show_cost, per)
}

/// `rows` are the rows of the report's languages, in some order.
pub open spec fn language_rows(
    files: Seq<FileMetrics>,
    rows: Seq<Row>,
    show_cost: bool,
    per: Seq<(String, u64)>,
) -> bool {
    exists|totals: Seq<LanguageTotal>, built: Seq<Row>|
        #![trigger rows_of_totals(built, totals, show_cost, per)]
        is_breakdown(totals, files) && rows_of_totals(built, totals, show_cost, per)
            && rows.to_multiset() == built.to_multiset()
}

/// The language `m` has a file in the report.
pub open spec fn in_report(files: Seq<FileMetrics>, m: Seq<char>) -> bool {
    exists|j: int| 0 <= j < files.len() && (#[trigger] files[j]).language@ == m
}

/// A row holding the totals and the listed cost of one of the report's
/// languages.
pub open spec fn row_holds(r: Row, files: Seq<FileMetrics>, show_cost: bool, per: Seq<(String, u64)>) -> bool {
    let t = tally(files, r.name@);
    &&& r.files == t.files
    &&& r.lines == t.lines
    &&& r.code == t.code
    &&& r.comments == t.comments
    &&& r.blanks == t.blanks
    &&& r.complexity == 0
    &&& r.cost == listed_cost(show_cost, per, r.name@)
    &&& in_report(files, r.name@)
}

/// The cost a family member adds to its family's head: its listed cost
/// when the report has its language, else nothing.
pub open spec fn member_cost(files: Seq<FileMetrics>, show_cost: bool, per: Seq<(String, u64)>, m: Seq<char>) -> nat {
    if in_report(files, m) {
        match listed_cost(show_cost, per, m) {
            Some(c) => c as nat,
            None => 0,
        }
    } else {
        0
    }
}

/// The costs of each family's members present in the report add up
/// within `u64`.
pub open spec fn costs_fit(files: Seq<FileMetrics>, show_cost: bool, per: Seq<(String, u64)>) -> bool {
    forall|f: int|
        0 <= f < 3 ==> member_cost(files, show_cost, per, #[trigger] fam_members(f)[0]) + member_cost(
            files,
            show_cost,
            per,
            fam_members(f)[1],
        ) <= u64::MAX
}

/// The names printed for one block: the head, then the indented members.
pub open spec fn block_lines(b: Block) -> Seq<Seq<char>> {
    seq![b.head.name@] + b.indented@.map_values(|r: Row| repeat(' ', INDENT as int) + r.name@)
}

/// The names printed for the blocks, in order.
pub open spec fn blocks_lines(bs: Seq<Block>) -> Seq<Seq<char>>
    decreases bs.len(),
{
    if bs.len() == 0 {
        seq![]
    } else {
        blocks_lines(bs.drop_last()) + block_lines(bs.last())
    }
}

/// The widths the lines call for.
pub open spec fn widths_of(ls: Seq<Line>, show_cost: bool) -> Widths {
    Widths {
        lang: lang_width(ls) as usize,
        num: num_width(ls) as usize,
        cost: cost_width(ls, show_cost) as usize,
    }
}

/// The table of the report's files, drawn from `rows` grouped into `bs`,
/// printed as the lines `ls` under the header cells `hs`, took `before` to
/// `after`; with a cost column when `show_cost`, the rows then showing the
/// costs listed in `per`. The number and cost cells come from the locale
/// and are not stated.
pub open spec fn table_drawn(
    files: Seq<FileMetrics>,
    show_cost: bool,
    per: Seq<(String, u64)>,
    rows: Seq<Row>,
    bs: Seq<Block>,
    ls: Seq<Line>,
    hs: Seq<Seq<char>>,
    before: Seq<char>,
    after: Seq<char>,
    project: nat,
) -> bool {
    &&& language_rows(files, rows, show_cost, per)
    &&& rows_ordered(rows)
    &&& blocks_ordered(bs)
    &&& heads_of(bs).to_multiset() == all_heads(rows).to_multiset()
    &&& forall|i: int| 0 <= i < bs.len() ==> #[trigger] bs[i].well_made(rows)
    &&& line_names(ls) == blocks_lines(bs).push("Total"@)
    &&& forall|i: int| 0 <= i < ls.len() ==> (#[trigger] ls[i]).cells@.len() == 6
    &&& all_show(ls, blocks_views(bs).push(total_line_view(files, show_cost, project)))
    &&& lang_width(ls) <= usize::MAX
    &&& num_width(ls) <= usize::MAX
    &&& cost_width(ls, show_cost) <= usize::MAX
    &&& header_ok(hs, widths_of(ls, show_cost))
    &&& if widths_of(ls, show_cost).total() <= usize::MAX {
        after == before + table_text(ls, hs, widths_of(ls, show_cost))
    } else {
        after == before
    }
}

proof fn lemma_first_named(rows: Seq<Row>, m: Seq<char>, k: int)
    requires
        0 <= k,
    ensures
        first_named(rows, m, k) matches Some(i) ==> k <= i < rows.len() && rows[i].name@ == m,
    decreases rows.len() - k,
{
    if k < rows.len() && rows[k].name@ != m {
        lemma_first_named(rows, m, k + 1);
    }
}

/// The cost a row adds to a sum.
pub open spec fn cost_amount(c: Option<u64>) -> nat {
    match c {
        Some(x) => x as nat,
        None => 0,
    }
}

/// Two distinct member names whose rows hold their totals have a sum that
/// fits.
proof fn lemma_pair_fits(
    rows: Seq<Row>,
    files: Seq<FileMetrics>,
    show_cost: bool,
    per: Seq<(String, u64)>,
    ms: Seq<Seq<char>>,
)
    requires
        forall|i: int| 0 <= i < rows.len() ==> row_holds(#[trigger] rows[i], files, show_cost, per),
        fits(tally_all(files)),
        ms.len() == 2,
        ms[0] != ms[1],
        member_cost(files, show_cost, per, ms[0]) + member_cost(files, show_cost, per, ms[1])
            <= u64::MAX,
    ensures
        fits_row(sum_rows(present(rows, ms, 2))),
{
    let a = ms[0];
    let b = ms[1];
    lemma_first_named(rows, a, 0);
    lemma_first_named(rows, b, 0);
    lemma_tally_le_all(files, a);
    lemma_tally_le_all(files, b);
    lemma_two_tallies_le_all(files, a, b);
    let p0 = present(rows, ms, 0);
    let p1 = present(rows, ms, 1);
    let p2 = present(rows, ms, 2);
    assert(p0 == Seq::<Row>::empty());
    let e = Seq::<Row>::empty();
    assert(sum_rows(e).files == 0 && sum_rows(e).lines == 0 && sum_rows(e).code == 0);
    assert(sum_rows(e).comments == 0 && sum_rows(e).blanks == 0 && sum_rows(e).complexity == 0);
    assert(sum_rows(e).cost is None);
    match first_named(rows, a, 0) {
        Some(i) => {
            assert(row_holds(rows[i], files, show_cost, per));
            assert(member_cost(files, show_cost, per, a) == cost_amount(rows[i].cost));
            assert(p1 == e.push(rows[i]));
            assert(p1.drop_last() =~= e);
            let s1 = sum_rows(p1);
            assert(s1.files == rows[i].files && s1.lines == rows[i].lines);
            assert(s1.code == rows[i].code && s1.comments == rows[i].comments);
            assert(s1.blanks == rows[i].blanks && s1.complexity == 0);
            assert(s1.cost == cost_view(rows[i].cost));
            match first_named(rows, b, 0) {
                Some(j) => {
                    assert(row_holds(rows[j], files, show_cost, per));
                    assert(member_cost(files, show_cost, per, b) == cost_amount(rows[j].cost));
                    assert(p2 == p1.push(rows[j]));
                    assert(p2.drop_last() =~= p1);
                    let s2 = sum_rows(p2);
                    assert(s2.files == rows[i].files + rows[j].files);
                },
                None => {
                    assert(p2 == p1);
                },
            }
        },
        None => {
            assert(p1 == e);
            match first_named(rows, b, 0) {
                Some(j) => {
                    assert(row_holds(rows[j], files, show_cost, per));
                    assert(member_cost(files, show_cost, per, b) == cost_amount(rows[j].cost));
                    assert(p2 == e.push(rows[j]));
                    assert(p2.drop_last() =~= e);
                    let s2 = sum_rows(p2);
                    assert(s2.files == rows[j].files && s2.cost == cost_view(rows[j].cost));
                },
                None => {
                    assert(p2 == e);
                },
            }
        },
    }
}

/// Rows that hold their languages' totals have family sums that fit.
pub(crate) proof fn lemma_sums_fit(
    rows: Seq<Row>,
    files: Seq<FileMetrics>,
    show_cost: bool,
    per: Seq<(String, u64)>,
)
    requires
        forall|i: int| 0 <= i < rows.len() ==> row_holds(#[trigger] rows[i], files, show_cost, per),
        fits(tally_all(files)),
        costs_fit(files, show_cost, per),
    ensures
        sums_fit(rows),
{
    reveal_strlit("TypeScript");
    reveal_strlit("TSX");
    reveal_strlit("JavaScript");
    reveal_strlit("JSX");
    reveal_strlit("C");
    reveal_strlit("C++");
    assert forall|f: int| 0 <= f < 3 implies fits_row(
        #[trigger] sum_rows(members_present(rows, f)),
    ) by {
        let ms = fam_members(f);
        assert(ms.len() == 2);
        assert(ms[0].len() != ms[1].len());
        lemma_pair_fits(rows, files, show_cost, per, ms);
    }
}

/// The cells of `l` show the numbers of `v`: files, lines, code, comments,
/// blanks and complexity in the locale's format, and the cost in dollars,
/// empty when there is none.
pub open spec fn line_shows(l: Line, v: RowView) -> bool {
    &&& l.cells@.len() == 6
    &&& int_text(v.files, l.cells@[0]@)
    &&& int_text(v.lines, l.cells@[1]@)
    &&& int_text(v.code, l.cells@[2]@)
    &&& int_text(v.comments, l.cells@[3]@)
    &&& int_text(v.blanks, l.cells@[4]@)
    &&& int_text(v.complexity, l.cells@[5]@)
    &&& match v.cost {
        Some(c) => usd_text(c, l.cost@),
        None => l.cost@.len() == 0,
    }
}

/// Each line shows the numbers of the row at its place.
pub open spec fn all_show(ls: Seq<Line>, vs: Seq<RowView>) -> bool {
    &&& ls.len() == vs.len()
    &&& forall|i: int| 0 <= i < ls.len() ==> line_shows(#[trigger] ls[i], vs[i])
}

/// The rows printed for the blocks, in order: each head, then its members.
pub open spec fn blocks_views(bs: Seq<Block>) -> Seq<RowView>
    decreases bs.len(),
{
    if bs.len() == 0 {
        seq![]
    } else {
        blocks_views(bs.drop_last()) + seq![rv(bs.last().head)] + bs.last().indented@.map_values(|r: Row| rv(r))
    }
}

/// The total row of the files: the grand totals, complexity 0, and the
/// project's cost when costs are shown.
pub open spec fn total_line_view(files: Seq<FileMetrics>, show_cost: bool, project: nat) -> RowView {
    let t = tally_all(files);
    RowView {
        name: "Total"@,
        files: t.files,
        lines: t.lines,
        code: t.code,
        comments: t.comments,
        blanks: t.blanks,
        complexity: 0,
        cost: if show_cost {
            Some(project)
        } else {
            None
        },
    }
}

proof fn lemma_all_show_push(ls: Seq<Line>, vs: Seq<RowView>, l: Line, v: RowView)
    requires
        all_show(ls, vs),
        line_shows(l, v),
    ensures
        all_show(ls.push(l), vs.push(v)),
{
    assert forall|i: int| 0 <= i < ls.len() + 1 implies line_shows(#[trigger] ls.push(l)[i], vs.push(v)[i]) by {
        if i < ls.len() {
            assert(ls.push(l)[i] == ls[i]);
            assert(vs.push(v)[i] == vs[i]);
        }
    }
}

/// A printed line for `r`, indented `indent` spaces, its numbers in the
/// locale's format.
pub fn line_of(r: &Row, indent: usize) -> (l: Line)
    ensures
        l.name@ == repeat(' ', indent as int) + r.name@,
        l.cells@.len() == 6,
        r.cost is None ==> l.cost@.len() == 0,
        r.cost is Some ==> l.cost@.len() > 0 && l.cost@[0] == '$',
        line_shows(l, rv(*r)),
{
    let mut name = String::new();
    push_repeat(&mut name, ' ', indent);
    name.append(r.name.as_str());
    let mut cells: Vec<String> = Vec::new();
    cells.push(fmt_int(r.files));
    cells.push(fmt_int(r.lines));
    cells.push(fmt_int(r.code));
    cells.push(fmt_int(r.comments));
    cells.push(fmt_int(r.blanks));
    cells.push(fmt_int(r.complexity));
    let cost = match r.cost {
        Some(c) => fmt_usd(c),
        None => String::new(),
    };
    Line { name, cells, cost }
}

/// The printed lines: each block's head, then its indented members; the
/// total last.
pub fn display_lines(blocks: &Vec<Block>, total: &Row) -> (ls: Vec<Line>)
    ensures
        line_names(ls@) == blocks_lines(blocks@).push(total.name@),
        forall|i: int| 0 <= i < ls@.len() ==> (#[trigger] ls@[i]).cells@.len() == 6,
        all_show(ls@, blocks_views(blocks@).push(rv(*total))),
{
    let mut ls: Vec<Line> = Vec::new();
    let mut k: usize = 0;
    assert(blocks@.take(0) =~= Seq::<Block>::empty());
    assert(line_names(ls@) =~= Seq::<Seq<char>>::empty());
    while k < blocks.len()
        invariant
            k <= blocks@.len(),
            line_names(ls@) == blocks_lines(blocks@.take(k as int)),
            forall|i: int| 0 <= i < ls@.len() ==> (#[trigger] ls@[i]).cells@.len() == 6,
            all_show(ls@, blocks_views(blocks@.take(k as int))),
        decreases blocks@.len() - k,
    {
        let b = &blocks[k];
        let ghost base = line_names(ls@);
        let ghost vbase = blocks_views(blocks@.take(k as int));
        let ghost lbase = ls@;
        let l = line_of(&b.head, 0);
        proof {
            lemma_all_show_push(lbase, vbase, l, rv(b.head));
        }
        ls.push(l);
        proof {
            assert(repeat(' ', 0) + b.head.name@ =~= b.head.name@);
            assert(line_names(ls@) =~= base + seq![b.head.name@]);
        }
        let mut j: usize = 0;
        let ghost members = b.indented@.map_values(|r: Row| repeat(' ', INDENT as int) + r.name@);
        let ghost mviews = b.indented@.map_values(|r: Row| rv(r));
        assert(members.take(0) =~= Seq::<Seq<char>>::empty());
        assert(vbase.push(rv(b.head)) + mviews.take(0) =~= vbase.push(rv(b.head)));
        while j < b.indented.len()
            invariant
                j <= b.indented@.len(),
                b == &blocks@[k as int],
                members == b.indented@.map_values(|r: Row| repeat(' ', INDENT as int) + r.name@),
                mviews == b.indented@.map_values(|r: Row| rv(r)),
                line_names(ls@) == base + seq![b.head.name@] + members.take(j as int),
                forall|i: int| 0 <= i < ls@.len() ==> (#[trigger] ls@[i]).cells@.len() == 6,
                all_show(ls@, vbase.push(rv(b.head)) + mviews.take(j as int)),
            decreases b.indented@.len() - j,
        {
            let ghost before = line_names(ls@);
            let ghost lb = ls@;
            let l = line_of(&b.indented[j], INDENT);
            proof {
                lemma_all_show_push(lb, vbase.push(rv(b.head)) + mviews.take(j as int), l, rv(b.indented@[j as int]));
                assert((vbase.push(rv(b.head)) + mviews.take(j as int)).push(rv(b.indented@[j as int]))
                    =~= vbase.push(rv(b.head)) + mviews.take(j + 1));
            }
            ls.push(l);
            proof {
                assert(line_names(ls@) =~= before.push(repeat(' ', INDENT as int) + b.indented@[j as int].name@));
                assert(members.take(j + 1) =~= members.take(j as int).push(members[j as int]));
            }
            j += 1;
        }
        proof {
            assert(members.take(j as int) =~= members);
            assert(mviews.take(j as int) =~= mviews);
            assert(blocks@.take(k + 1).drop_last() =~= blocks@.take(k as int));
            assert(blocks@.take(k + 1).last() == blocks@[k as int]);
            assert(line_names(ls@) =~= blocks_lines(blocks@.take(k + 1)));
            assert(vbase.push(rv(b.head)) + mviews =~= blocks_views(blocks@.take(k + 1)));
        }
        k += 1;
    }
    assert(blocks@.take(k as int) =~= blocks@);
    let ghost before = line_names(ls@);
    let ghost lb = ls@;
    let l = line_of(total, 0);
    proof {
        lemma_all_show_push(lb, blocks_views(blocks@), l, rv(*total));
    }
    ls.push(l);
    proof {
        assert(repeat(' ', 0) + total.name@ =~= total.name@);
        assert(line_names(ls@) =~= before.push(total.name@));
    }
    ls
}

/// The cost `per` lists for `name`.
fn cost_lookup(per: &Vec<(String, u64)>, name: &str) -> (r: Option<u64>)
    ensures
        r == cost_from(per@, name@, 0),
{
    let mut k: usize = 0;
    while k < per.len()
        invariant
            k <= per@.len(),
            cost_from(per@, name@, 0) == cost_from(per@, name@, k as int),
        decreases per@.len() - k,
    {
        if str_eq(per[k].0.as_str(), name) {
            return Some(per[k].1);
        }
        k += 1;
    }
    None
}

/// The report's per-language rows, in display order, with the costs
/// listed in `per` when `show_cost`.
pub fn sorted_language_rows(report: &Report, show_cost: bool, per: &Vec<(String, u64)>) -> (rows: Vec<Row>)
    requires
        fits(tally_all(report.files@)),
    ensures
        language_rows(report.files@, rows@, show_cost, per@),
        rows_ordered(rows@),
        forall|i: int|
            0 <= i < rows@.len() ==> row_holds(#[trigger] rows@[i], report.files@, show_cost, per@),
{
    let ghost files = report.files@;
    proof {
        assert forall|j: int| 0 <= j < files.len() implies fits(
            tally(files, (#[trigger] files[j]).language@),
        ) by {
            lemma_tally_le_all(files, files[j].language@);
        }
    }
    let totals = report.by_language();
    let mut built: Vec<Row> = Vec::new();
    let mut k: usize = 0;
    while k < totals.len()
        invariant
            k <= totals@.len(),
            built@.len() == k,
            forall|i: int|
                0 <= i < k ==> rv(#[trigger] built@[i]) == total_view(totals@[i], show_cost, per@)
                    && built@[i].cost == listed_cost(show_cost, per@, totals@[i].language@),
        decreases totals@.len() - k,
    {
        let t = &totals[k];
        let cost = if show_cost {
            cost_lookup(per, t.language.as_str())
        } else {
            None
        };
        built.push(
            Row {
                name: t.language.clone(),
                files: t.files,
                lines: t.lines,
                code: t.code,
                comments: t.comments,
                blanks: t.blanks,
                complexity: 0,
                cost,
            },
        );
        k += 1;
    }
    let ghost built_v = built@;
    assert(rows_of_totals(built_v, totals@, show_cost, per@));
    let rows = sort_rows(built);
    proof {
        assert forall|i: int| 0 <= i < rows@.len() implies row_holds(
            #[trigger] rows@[i],
            files,
            show_cost,
            per@,
        ) by {
            to_multiset_contains(rows@, rows@[i]);
            to_multiset_contains(built_v, rows@[i]);
            assert(rows@.contains(rows@[i]));
            let q = choose|q: int| 0 <= q < built_v.len() && built_v[q] == rows@[i];
            assert(rv(built_v[q]) == total_view(totals@[q], show_cost, per@));
            crate::report::lemma_breakdown_row(totals@, files, q);
            crate::report::lemma_breakdown_from_files(totals@, files, q);
        }
        assert(language_rows(files, rows@, show_cost, per@));
    }
    rows
}

impl TableExporter {
    fn draw(&self, report: &Report, show_cost: bool, per: &Vec<(String, u64)>, project: u64, sink: &mut String)
        requires
            fits(tally_all(report.files@)),
            costs_fit(report.files@, show_cost, per@),
        ensures
            exists|rows: Seq<Row>, bs: Seq<Block>, ls: Seq<Line>, hs: Seq<Seq<char>>|
                #[trigger] table_drawn(
                    report.files@,
                    show_cost,
                    per@,
                    rows,
                    bs,
                    ls,
                    hs,
                    old(sink)@,
                    final(sink)@,
                    project as nat,
                ),
    {
        let ghost files = report.files@;
        let grand = report.grand_total();
        let rows = sorted_language_rows(report, show_cost, per);
        proof {
            lemma_sums_fit(rows@, files, show_cost, per@);
        }
        let blocks = build_blocks(&rows);
        let total_row = Row {
            name: String::from_str("Total"),
            files: grand.files,
            lines: grand.lines,
            code: grand.code,
            comments: grand.comments,
            blanks: grand.blanks,
            complexity: 0,
            cost: if show_cost {
                Some(project)
            } else {
                None
            },
        };
        proof {
            reveal_strlit("Total");
            assert(rv(total_row) == total_line_view(files, show_cost, project as nat));
        }
        let lines = display_lines(&blocks, &total_row);
        let widths = compute_widths(&lines, show_cost);
        let hs = header_cells(&widths);
        let ghost before = sink@;
        let cost_part: u128 = if widths.cost > 0 {
            (widths.cost as u128) + 1
        } else {
            0
        };
        let wide = (widths.lang as u128) + 6 * (widths.num as u128) + cost_part + 7;
        if wide <= (usize::MAX as u128) {
            render_table(&lines, &hs, &widths, sink);
        }
        proof {
            assert(widths == widths_of(lines@, show_cost));
            assert(table_drawn(
                files,
                show_cost,
                per@,
                rows@,
                blocks@,
                lines@,
                hs@.map_values(|c: String| c@),
                before,
                sink@,
                project as nat,
            ));
        }
    }

    /// Print the table with a cost column: each language's row shows the
    /// cost `costs` lists for it, a family's head the sum of its members'
    /// costs, and the total row the project's cost.
    pub fn write_with_costs(&self, report: &Report, costs: &TableCosts, sink: &mut String)
        requires
            fits(tally_all(report.files@)),
            costs_fit(report.files@, true, costs.per_language@),
        ensures
            exists|rows: Seq<Row>, bs: Seq<Block>, ls: Seq<Line>, hs: Seq<Seq<char>>|
                #[trigger] table_drawn(
                    report.files@,
                    true,
                    costs.per_language@,
                    rows,
                    bs,
                    ls,
                    hs,
                    old(sink)@,
                    final(sink)@,
                    costs.project as nat,
                ),
    {
        self.draw(report, true, &costs.per_language, costs.project, sink);
    }
}

impl TableExporter {
    /// Print the report as a table: one row per language, or per family of
    /// languages with its members indented under it, in order of lines, then
    /// the total.
    pub fn write(&self, report: &Report, sink: &mut String)
        requires
            fits(tally_all(report.files@)),
        ensures
            exists|rows: Seq<Row>, bs: Seq<Block>, ls: Seq<Line>, hs: Seq<Seq<char>>|
                #[trigger] table_drawn(
                    report.files@,
                    false,
                    Seq::<(String, u64)>::empty(),
                    rows,
                    bs,
                    ls,
                    hs,
                    old(sink)@,
                    final(sink)@,
                    0,
                ),
    {
        let per: Vec<(String, u64)> = Vec::new();
        proof {
            assert(per@ =~= Seq::<(String, u64)>::empty());
        }
        self.draw(report, false, &per, 0, sink);
    }
}

/// `!(c < b) && !(b < a) ==> !(c < a)` for the name order.
pub proof fn lemma_lex_trans_not_pub(c: Seq<char>, b: Seq<char>, a: Seq<char>)
    requires
        !lex_lt(c, b),
        !lex_lt(b, a),
    ensures
        !lex_lt(c, a),
{
    lemma_lex_trans_not(c, b, a);
}

/// A member is found at its first row: `first_named` gives the smallest
/// index from `k` on whose row has the name, and `None` when no row from
/// `k` on has it.
pub proof fn law_first_named_is_first(rows: Seq<Row>, m: Seq<char>, k: int)
    requires
        0 <= k,
    ensures
        first_named(rows, m, k) matches Some(i) ==> k <= i < rows.len() && rows[i].name@ == m && forall|q: int|
            k <= q < i ==> (#[trigger] rows[q]).name@ != m,
        first_named(rows, m, k) is None ==> forall|q: int| k <= q < rows.len() ==> (#[trigger] rows[q]).name@ != m,
    decreases rows.len() - k,
{
    if k < rows.len() && rows[k].name@ != m {
        law_first_named_is_first(rows, m, k + 1);
    }
}

/// A name found is the name of the row found.
pub proof fn lemma_first_named_pub(rows: Seq<Row>, m: Seq<char>, k: int)
    requires
        0 <= k,
    ensures
        first_named(rows, m, k) matches Some(i) ==> k <= i < rows.len() && rows[i].name@ == m,
{
    lemma_first_named(rows, m, k);
}

} // verus!
