//! The table's block heads add up to its rows: every language is counted
//! once, on its own or under its family's head.
use vstd::prelude::*;
use vstd::seq_lib::{to_multiset_build, to_multiset_contains, to_multiset_remove};
use crate::table::{
    all_heads, consumed, fam_members, family_heads, first_named, heads_of, active,
    members_present, present, rv, standalone, sum_rows, Block, Row, RowView,
};

verus! {

/// The numbers of a row, without its name.
pub struct Sums {
    pub files: nat,
    pub lines: nat,
    pub code: nat,
    pub comments: nat,
    pub blanks: nat,
    pub complexity: nat,
    pub cost: Option<nat>,
}

/// Adding costs: an absent cost adds nothing.
pub open spec fn opt_add(a: Option<nat>, b: Option<nat>) -> Option<nat> {
    match a {
        Some(x) => match b {
            Some(y) => Some(x + y),
            None => Some(x),
        },
        None => b,
    }
}

pub open spec fn zero_sums() -> Sums {
    Sums { files: 0, lines: 0, code: 0, comments: 0, blanks: 0, complexity: 0, cost: None }
}

pub open spec fn sums_of(v: RowView) -> Sums {
    Sums {
        files: v.files,
        lines: v.lines,
        code: v.code,
        comments: v.comments,
        blanks: v.blanks,
        complexity: v.complexity,
        cost: v.cost,
    }
}

pub open spec fn add_sums(a: Sums, b: Sums) -> Sums {
    Sums {
        files: a.files + b.files,
        lines: a.lines + b.lines,
        code: a.code + b.code,
        comments: a.comments + b.comments,
        blanks: a.blanks + b.blanks,
        complexity: a.complexity + b.complexity,
        cost: opt_add(a.cost, b.cost),
    }
}

/// The numbers of the rows, added up.
pub open spec fn total(vs: Seq<RowView>) -> Sums
    decreases vs.len(),
{
    if vs.len() == 0 {
        zero_sums()
    } else {
        add_sums(total(vs.drop_last()), sums_of(vs.last()))
    }
}

proof fn lemma_add_assoc(a: Sums, b: Sums, c: Sums)
    ensures
        add_sums(add_sums(a, b), c) == add_sums(a, add_sums(b, c)),
{
}

proof fn lemma_add_comm(a: Sums, b: Sums)
    ensures
        add_sums(a, b) == add_sums(b, a),
{
}

proof fn lemma_add_zero(a: Sums)
    ensures
        add_sums(a, zero_sums()) == a,
        add_sums(zero_sums(), a) == a,
{
}

proof fn lemma_total_remove(s: Seq<RowView>, k: int)
    requires
        0 <= k < s.len(),
    ensures
        total(s) == add_sums(total(s.remove(k)), sums_of(s[k])),
    decreases s.len(),
{
    let d = s.drop_last();
    if k == s.len() - 1 {
        assert(s.remove(k) =~= d);
    } else {
        lemma_total_remove(d, k);
        assert(s.remove(k).drop_last() =~= d.remove(k));
        assert(s.remove(k).last() == s.last());
        assert(d[k] == s[k]);
        lemma_add_assoc(total(d.remove(k)), sums_of(s[k]), sums_of(s.last()));
        lemma_add_comm(sums_of(s[k]), sums_of(s.last()));
        lemma_add_assoc(total(d.remove(k)), sums_of(s.last()), sums_of(s[k]));
    }
}

/// Rows in another order add up to the same numbers.
proof fn lemma_total_perm(s1: Seq<RowView>, s2: Seq<RowView>)
    requires
        s1.to_multiset() == s2.to_multiset(),
    ensures
        total(s1) == total(s2),
    decreases s1.len(),
{
    if s1.len() == 0 {
        vstd::seq_lib::to_multiset_len(s1);
        vstd::seq_lib::to_multiset_len(s2);
        assert(s2.len() == 0);
        assert(s2 =~= s1);
    } else {
        let x = s1.last();
        let d = s1.drop_last();
        to_multiset_build(d, x);
        assert(d.push(x) =~= s1);
        to_multiset_contains(s2, x);
        assert(s2.to_multiset().count(x) > 0);
        let k = choose|k: int| 0 <= k < s2.len() && s2[k] == x;
        to_multiset_remove(s2, k);
        assert(d.to_multiset() =~= s2.remove(k).to_multiset());
        lemma_total_perm(d, s2.remove(k));
        lemma_total_remove(s2, k);
    }
}

proof fn lemma_total_append(a: Seq<RowView>, b: Seq<RowView>)
    ensures
        total(a + b) == add_sums(total(a), total(b)),
    decreases b.len(),
{
    if b.len() == 0 {
        assert(a + b =~= a);
        lemma_add_zero(total(a));
    } else {
        lemma_total_append(a, b.drop_last());
        assert((a + b).drop_last() =~= a + b.drop_last());
        assert((a + b).last() == b.last());
        lemma_add_assoc(total(a), total(b.drop_last()), sums_of(b.last()));
    }
}

/// The numbers of those of the first `n` rows whose name satisfies `p`.
pub open spec fn total_where(rows: Seq<Row>, n: int, p: spec_fn(Seq<char>) -> bool) -> Sums
    decreases n,
{
    if n <= 0 {
        zero_sums()
    } else if p(rows[n - 1].name@) {
        add_sums(total_where(rows, n - 1, p), sums_of(rv(rows[n - 1])))
    } else {
        total_where(rows, n - 1, p)
    }
}

/// The rows' views.
pub open spec fn views(rows: Seq<Row>) -> Seq<RowView> {
    rows.map_values(|r: Row| rv(r))
}

/// No two rows share a name.
pub open spec fn distinct_names(rows: Seq<Row>) -> bool {
    forall|i: int, j: int| 0 <= i < j < rows.len() ==> (#[trigger] rows[i]).name@ != (#[trigger] rows[j]).name@
}

proof fn lemma_sum_rows_total(ms: Seq<Row>)
    ensures
        sums_of(sum_rows(ms)) == total(views(ms)),
    decreases ms.len(),
{
    if ms.len() > 0 {
        lemma_sum_rows_total(ms.drop_last());
        assert(views(ms).drop_last() =~= views(ms.drop_last()));
        assert(views(ms).last() == rv(ms.last()));
    }
}

proof fn lemma_where_true(rows: Seq<Row>, n: int)
    requires
        0 <= n <= rows.len(),
    ensures
        total_where(rows, n, |x: Seq<char>| true) == total(views(rows.take(n))),
    decreases n,
{
    if n > 0 {
        lemma_where_true(rows, n - 1);
        assert(views(rows.take(n)).drop_last() =~= views(rows.take(n - 1)));
        assert(views(rows.take(n)).last() == rv(rows[n - 1]));
    } else {
        assert(views(rows.take(0)) =~= Seq::<RowView>::empty());
    }
}

proof fn lemma_where_split(
    rows: Seq<Row>,
    n: int,
    r: spec_fn(Seq<char>) -> bool,
    p: spec_fn(Seq<char>) -> bool,
    q: spec_fn(Seq<char>) -> bool,
)
    requires
        forall|x: Seq<char>| #[trigger] r(x) == (p(x) || q(x)),
        forall|x: Seq<char>| !(#[trigger] p(x) && q(x)),
    ensures
        total_where(rows, n, r) == add_sums(total_where(rows, n, p), total_where(rows, n, q)),
    decreases n,
{
    if n > 0 {
        lemma_where_split(rows, n - 1, r, p, q);
        let x = rows[n - 1].name@;
        let v = sums_of(rv(rows[n - 1]));
        let a = total_where(rows, n - 1, p);
        let b = total_where(rows, n - 1, q);
        assert(r(x) == (p(x) || q(x)));
        assert(!(p(x) && q(x)));
        if p(x) {
            lemma_add_assoc(a, b, v);
            lemma_add_comm(b, v);
            lemma_add_assoc(a, v, b);
        } else if q(x) {
            lemma_add_assoc(a, b, v);
        }
    } else {
        lemma_add_zero(zero_sums());
    }
}

proof fn lemma_standalone_total(rows: Seq<Row>, n: int)
    requires
        0 <= n <= rows.len(),
    ensures
        total(standalone(rows, n)) == total_where(rows, n, |x: Seq<char>| !consumed(rows, x)),
    decreases n,
{
    if n > 0 {
        lemma_standalone_total(rows, n - 1);
        if !consumed(rows, rows[n - 1].name@) {
            let s = standalone(rows, n - 1).push(rv(rows[n - 1]));
            assert(s.drop_last() =~= standalone(rows, n - 1));
        }
    }
}

proof fn lemma_first_named_at(rows: Seq<Row>, m: Seq<char>, k: int, j: int)
    requires
        distinct_names(rows),
        0 <= k <= j < rows.len(),
        rows[j].name@ == m,
    ensures
        first_named(rows, m, k) == Some(j),
    decreases j - k,
{
    if rows[k].name@ != m {
        lemma_first_named_at(rows, m, k + 1, j);
    } else if k != j {
        assert(rows[k].name@ != rows[j].name@);
    }
}

proof fn lemma_first_named_none(rows: Seq<Row>, m: Seq<char>, k: int)
    requires
        0 <= k,
        first_named(rows, m, k) is None,
    ensures
        forall|j: int| k <= j < rows.len() ==> rows[j].name@ != m,
    decreases rows.len() - k,
{
    if k < rows.len() {
        lemma_first_named_none(rows, m, k + 1);
    }
}

/// The names equal to `m`.
pub open spec fn named(m: Seq<char>) -> spec_fn(Seq<char>) -> bool {
    |x: Seq<char>| x == m
}

/// The names a family's members bear.
pub open spec fn in_family(f: int) -> spec_fn(Seq<char>) -> bool {
    |x: Seq<char>| fam_members(f).contains(x)
}

/// The numbers of the row named `m`, if there is one.
pub open spec fn single(rows: Seq<Row>, m: Seq<char>) -> Sums {
    match first_named(rows, m, 0) {
        Some(i) => sums_of(rv(rows[i])),
        None => zero_sums(),
    }
}

proof fn lemma_where_name(rows: Seq<Row>, m: Seq<char>, n: int)
    requires
        distinct_names(rows),
        0 <= n <= rows.len(),
    ensures
        total_where(rows, n, named(m)) == match first_named(rows, m, 0) {
            Some(i) => if i < n {
                sums_of(rv(rows[i]))
            } else {
                zero_sums()
            },
            None => zero_sums(),
        },
    decreases n,
{
    let p = named(m);
    crate::table::lemma_first_named_pub(rows, m, 0);
    if n > 0 {
        lemma_where_name(rows, m, n - 1);
        if rows[n - 1].name@ == m {
            lemma_first_named_at(rows, m, 0, n - 1);
            assert(total_where(rows, n - 1, p) == zero_sums());
            lemma_add_zero(sums_of(rv(rows[n - 1])));
            assert(total_where(rows, n, p) == add_sums(zero_sums(), sums_of(rv(rows[n - 1]))));
        } else {
            assert(total_where(rows, n, p) == total_where(rows, n - 1, p));
            match first_named(rows, m, 0) {
                Some(i) => {
                    assert(rows[i].name@ == m);
                    assert(i != n - 1);
                },
                None => {},
            }
        }
    }
}

proof fn lemma_members_total(rows: Seq<Row>, f: int)
    requires
        distinct_names(rows),
        0 <= f < 3,
    ensures
        total(views(members_present(rows, f))) == total_where(rows, rows.len() as int, in_family(f)),
{
    let ms = fam_members(f);
    reveal_strlit("TypeScript");
    reveal_strlit("TSX");
    reveal_strlit("JavaScript");
    reveal_strlit("JSX");
    reveal_strlit("C");
    reveal_strlit("C++");
    assert(ms.len() == 2);
    assert(ms[0].len() != ms[1].len());
    let a = ms[0];
    let b = ms[1];
    let n = rows.len() as int;
    lemma_where_name(rows, a, n);
    lemma_where_name(rows, b, n);
    crate::table::lemma_first_named_pub(rows, a, 0);
    crate::table::lemma_first_named_pub(rows, b, 0);
    assert forall|x: Seq<char>| #[trigger] ms.contains(x) == (x == a || x == b) by {
        if ms.contains(x) {
            let i = choose|i: int| 0 <= i < ms.len() && ms[i] == x;
            assert(i == 0 || i == 1);
        }
        if x == a {
            assert(ms[0] == x);
        }
        if x == b {
            assert(ms[1] == x);
        }
    }
    lemma_where_split(rows, n, in_family(f), named(a), named(b));
    let e = Seq::<Row>::empty();
    let p1 = present(rows, ms, 1);
    let p2 = present(rows, ms, 2);
    assert(present(rows, ms, 0) == e);
    assert(members_present(rows, f) == p2);
    assert(total(views(e)) == zero_sums()) by {
        assert(views(e) =~= Seq::<RowView>::empty());
    }
    match first_named(rows, a, 0) {
        Some(i) => {
            assert(p1 == e.push(rows[i]));
            assert(views(p1) =~= seq![rv(rows[i])]);
            assert(seq![rv(rows[i])].drop_last() =~= Seq::<RowView>::empty());
            assert(seq![rv(rows[i])].last() == rv(rows[i]));
            lemma_add_zero(sums_of(rv(rows[i])));
            assert(total(Seq::<RowView>::empty()) == zero_sums());
            assert(total(seq![rv(rows[i])]) == add_sums(
                total(seq![rv(rows[i])].drop_last()),
                sums_of(seq![rv(rows[i])].last()),
            ));
            assert(total(views(p1)) == add_sums(zero_sums(), sums_of(rv(rows[i]))));
        },
        None => {
            assert(p1 == e);
        },
    }
    assert(total(views(p1)) == single(rows, a));
    match first_named(rows, b, 0) {
        Some(j) => {
            assert(p2 == p1.push(rows[j]));
            assert(views(p2).drop_last() =~= views(p1));
            assert(views(p2).last() == rv(rows[j]));
        },
        None => {
            assert(p2 == p1);
            lemma_add_zero(total(views(p1)));
        },
    }
}

/// The numbers of the active families' members.
pub open spec fn families_total(rows: Seq<Row>, n: int) -> Sums
    decreases n,
{
    if n <= 0 {
        zero_sums()
    } else if active(rows, n - 1) {
        add_sums(families_total(rows, n - 1), total(views(members_present(rows, n - 1))))
    } else {
        families_total(rows, n - 1)
    }
}

proof fn lemma_family_heads_total(rows: Seq<Row>, n: int)
    requires
        0 <= n <= 3,
    ensures
        total(family_heads(rows, n)) == families_total(rows, n),
    decreases n,
{
    if n > 0 {
        lemma_family_heads_total(rows, n - 1);
        if active(rows, n - 1) {
            let s = family_heads(rows, n - 1).push(crate::table::family_head(rows, n - 1));
            assert(s.drop_last() =~= family_heads(rows, n - 1));
            lemma_sum_rows_total(members_present(rows, n - 1));
        }
    }
}

proof fn lemma_where_false(rows: Seq<Row>, n: int, p: spec_fn(Seq<char>) -> bool)
    requires
        forall|x: Seq<char>| !#[trigger] p(x),
    ensures
        total_where(rows, n, p) == zero_sums(),
    decreases n,
{
    if n > 0 {
        lemma_where_false(rows, n - 1, p);
    }
}

/// The names a family's members bear, when the family is shown.
pub open spec fn in_active_family(rows: Seq<Row>, f: int) -> spec_fn(Seq<char>) -> bool {
    |x: Seq<char>| active(rows, f) && fam_members(f).contains(x)
}

proof fn lemma_families_disjoint(x: Seq<char>, f: int, g: int)
    requires
        0 <= f < g < 3,
    ensures
        !(fam_members(f).contains(x) && fam_members(g).contains(x)),
{
    reveal_strlit("TypeScript");
    reveal_strlit("TSX");
    reveal_strlit("JavaScript");
    reveal_strlit("JSX");
    reveal_strlit("C");
    reveal_strlit("C++");
    if fam_members(f).contains(x) && fam_members(g).contains(x) {
        let i = choose|i: int| 0 <= i < fam_members(f).len() && fam_members(f)[i] == x;
        let j = choose|j: int| 0 <= j < fam_members(g).len() && fam_members(g)[j] == x;
        assert(fam_members(f)[i] == fam_members(g)[j]);
        assert(fam_members(f)[i].len() == fam_members(g)[j].len());
        assert(fam_members(f)[i][0] == fam_members(g)[j][0]);
    }
}

proof fn lemma_active_family_total(rows: Seq<Row>, f: int)
    requires
        distinct_names(rows),
        0 <= f < 3,
    ensures
        total_where(rows, rows.len() as int, in_active_family(rows, f)) == if active(rows, f) {
            total(views(members_present(rows, f)))
        } else {
            zero_sums()
        },
{
    let n = rows.len() as int;
    if active(rows, f) {
        assert(in_active_family(rows, f) =~= in_family(f));
        lemma_members_total(rows, f);
    } else {
        lemma_where_false(rows, n, in_active_family(rows, f));
    }
}

/// The names of rows folded into a shown family.
pub open spec fn folded(rows: Seq<Row>) -> spec_fn(Seq<char>) -> bool {
    |x: Seq<char>| consumed(rows, x)
}

pub open spec fn first_two_folded(rows: Seq<Row>) -> spec_fn(Seq<char>) -> bool {
    |x: Seq<char>| in_active_family(rows, 0)(x) || in_active_family(rows, 1)(x)
}

proof fn lemma_folded_total(rows: Seq<Row>)
    requires
        distinct_names(rows),
    ensures
        total_where(rows, rows.len() as int, folded(rows)) == families_total(rows, 3),
{
    let n = rows.len() as int;
    let a0 = in_active_family(rows, 0);
    let a1 = in_active_family(rows, 1);
    let a2 = in_active_family(rows, 2);
    let c01 = first_two_folded(rows);
    assert forall|x: Seq<char>| #[trigger] c01(x) == (a0(x) || a1(x)) by {}
    assert forall|x: Seq<char>| !(#[trigger] a0(x) && a1(x)) by {
        lemma_families_disjoint(x, 0, 1);
    }
    lemma_where_split(rows, n, c01, a0, a1);
    assert forall|x: Seq<char>| #[trigger] folded(rows)(x) == (c01(x) || a2(x)) by {
        if consumed(rows, x) {
            let f = choose|f: int| 0 <= f < 3 && active(rows, f) && fam_members(f).contains(x);
            assert(f == 0 || f == 1 || f == 2);
        }
        if a0(x) {
            assert(0 <= 0 < 3 && active(rows, 0) && fam_members(0).contains(x));
        }
        if a1(x) {
            assert(0 <= 1 < 3 && active(rows, 1) && fam_members(1).contains(x));
        }
        if a2(x) {
            assert(0 <= 2 < 3 && active(rows, 2) && fam_members(2).contains(x));
        }
    }
    assert forall|x: Seq<char>| !(#[trigger] c01(x) && a2(x)) by {
        lemma_families_disjoint(x, 0, 2);
        lemma_families_disjoint(x, 1, 2);
    }
    lemma_where_split(rows, n, folded(rows), c01, a2);
    lemma_active_family_total(rows, 0);
    lemma_active_family_total(rows, 1);
    lemma_active_family_total(rows, 2);
    let t0 = if active(rows, 0) { total(views(members_present(rows, 0))) } else { zero_sums() };
    let t1 = if active(rows, 1) { total(views(members_present(rows, 1))) } else { zero_sums() };
    let t2 = if active(rows, 2) { total(views(members_present(rows, 2))) } else { zero_sums() };
    lemma_add_zero(t0);
    lemma_add_zero(t1);
    lemma_add_zero(t2);
    lemma_add_zero(add_sums(t0, t1));
    assert(families_total(rows, 0) == zero_sums());
    assert(families_total(rows, 1) == t0);
    assert(families_total(rows, 2) == add_sums(t0, t1));
    assert(families_total(rows, 3) == add_sums(add_sums(t0, t1), t2));
}

/// The table's heads add up to its rows: the blocks of `bs`, whose heads
/// are those `build_blocks` makes of `rows`, hold every row's numbers
/// once, a family's members through its head.
pub proof fn law_heads_add_up(rows: Seq<Row>, bs: Seq<Block>)
    requires
        distinct_names(rows),
        heads_of(bs).to_multiset() == all_heads(rows).to_multiset(),
    ensures
        total(heads_of(bs)) == total(views(rows)),
{
    let n = rows.len() as int;
    lemma_total_perm(heads_of(bs), all_heads(rows));
    lemma_total_append(family_heads(rows, 3), standalone(rows, n));
    lemma_family_heads_total(rows, 3);
    lemma_standalone_total(rows, n);
    lemma_folded_total(rows);
    let everything = |x: Seq<char>| true;
    let rest = |x: Seq<char>| !consumed(rows, x);
    assert forall|x: Seq<char>| #[trigger] everything(x) == (folded(rows)(x) || rest(x)) by {}
    assert forall|x: Seq<char>| !(#[trigger] folded(rows)(x) && rest(x)) by {}
    lemma_where_split(rows, n, everything, folded(rows), rest);
    lemma_where_true(rows, n);
    assert(rows.take(n) =~= rows);
}

} // verus!
