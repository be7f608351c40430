//! Git history enrichment: the options, the errors, and the reading of
//! `git log --name-only --pretty=format:%H%x00%ae%x00%at` output into
//! per-path change counts, author counts and last-modified times.
use vstd::prelude::*;
use crate::text::{chars_of, push_char, str_eq};
use crate::fmt::{decimal, digit};

verus! {

/// Options for the history walk.
pub struct GitOptions {
    pub window_days: u32,
}

impl Default for GitOptions {
    /// A 90-day window.
    fn default() -> (o: Self)
        ensures
            o.window_days == 90,
    {
        GitOptions { window_days: 90 }
    }
}

/// Why the history could not be read.
pub enum GitError {
    /// The path is not inside a git repository.
    NotARepo(String),
    /// `git` ran and failed; its standard error.
    Command(String),
    /// `git` could not be run; the error's text.
    Io(String),
}

/// `s` without one trailing carriage return.
pub open spec fn strip_cr(s: Seq<char>) -> Seq<char> {
    if s.len() > 0 && s.last() == '\r' {
        s.drop_last()
    } else {
        s
    }
}

/// The lines ended so far by `\n` (each without a trailing `\r`), and the
/// text after the last `\n`.
pub open spec fn lines_acc(s: Seq<char>) -> (Seq<Seq<char>>, Seq<char>)
    decreases s.len(),
{
    if s.len() == 0 {
        (seq![], seq![])
    } else {
        let (done, cur) = lines_acc(s.drop_last());
        if s.last() == '\n' {
            (done.push(strip_cr(cur)), seq![])
        } else {
            (done, cur.push(s.last()))
        }
    }
}

/// Number of `\n` in `s`.
pub open spec fn newline_count(s: Seq<char>) -> nat
    decreases s.len(),
{
    if s.len() == 0 {
        0
    } else {
        newline_count(s.drop_last()) + if s.last() == '\n' {
            1nat
        } else {
            0nat
        }
    }
}

proof fn lemma_lines_acc(s: Seq<char>)
    ensures
        lines_acc(s).0.len() == newline_count(s),
        forall|k: int| 0 <= k < lines_acc(s).0.len() ==> !(#[trigger] lines_acc(s).0[k]).contains('\n'),
        !lines_acc(s).1.contains('\n'),
        lines_acc(s).1.len() > 0 <==> (s.len() > 0 && s.last() != '\n'),
    decreases s.len(),
{
    if s.len() > 0 {
        let p = s.drop_last();
        lemma_lines_acc(p);
        let (done, cur) = lines_acc(p);
        if s.last() == '\n' {
            let l = strip_cr(cur);
            assert(!l.contains('\n')) by {
                if l.contains('\n') {
                    let i = choose|i: int| 0 <= i < l.len() && l[i] == '\n';
                    assert(cur[i] == l[i]);
                }
            }
            assert forall|k: int| 0 <= k < done.push(l).len() implies !(#[trigger] done.push(l)[k]).contains('\n') by {
                if k < done.len() {
                    assert(done.push(l)[k] == done[k]);
                }
            }
            assert(!Seq::<char>::empty().contains('\n'));
        } else {
            let c2 = cur.push(s.last());
            assert(!c2.contains('\n')) by {
                if c2.contains('\n') {
                    let i = choose|i: int| 0 <= i < c2.len() && c2[i] == '\n';
                    if i < cur.len() {
                        assert(cur[i] == '\n');
                    }
                }
            }
        }
    }
}

/// Lines are split at every `\n` and only there: no line holds a `\n`,
/// and there is one line per `\n`, plus one for text after the last `\n`.
pub proof fn law_text_lines(s: Seq<char>)
    ensures
        forall|k: int| 0 <= k < text_lines(s).len() ==> !(#[trigger] text_lines(s)[k]).contains('\n'),
        text_lines(s).len() == newline_count(s) + if s.len() > 0 && s.last() != '\n' {
            1nat
        } else {
            0nat
        },
{
    lemma_lines_acc(s);
    let (done, cur) = lines_acc(s);
    assert forall|k: int| 0 <= k < text_lines(s).len() implies !(#[trigger] text_lines(s)[k]).contains('\n') by {
        if k < done.len() {
            assert(text_lines(s)[k] == done[k]);
        }
    }
}

/// `str::lines`: the text split at `\n`, each line without the `\n` and
/// without a `\r` before it; a final line ending is optional.
pub open spec fn text_lines(s: Seq<char>) -> Seq<Seq<char>> {
    let (done, cur) = lines_acc(s);
    if cur.len() > 0 {
        done.push(cur)
    } else {
        done
    }
}

/// The lines of `text`, as `str::lines` gives them.
pub fn split_lines(text: &str) -> (ls: Vec<String>)
    ensures
        ls@.map_values(|l: String| l@) == text_lines(text@),
{
    let cs = chars_of(text);
    let mut ls: Vec<String> = Vec::new();
    let mut cur = String::new();
    let mut i: usize = 0;
    assert(text@.take(0) =~= Seq::<char>::empty());
    while i < cs.len()
        invariant
            cs@ == text@,
            i <= cs@.len(),
            ls@.map_values(|l: String| l@) == lines_acc(text@.take(i as int)).0,
            cur@ == lines_acc(text@.take(i as int)).1,
        decreases cs@.len() - i,
    {
        let c = cs[i];
        proof {
            assert(text@.take(i + 1).drop_last() =~= text@.take(i as int));
            assert(text@.take(i + 1).last() == c);
        }
        if c == '\n' {
            let ccs = chars_of(cur.as_str());
            let n = ccs.len();
            let mut line = String::new();
            let keep = if n > 0 && ccs[n - 1] == '\r' {
                n - 1
            } else {
                n
            };
            let mut j: usize = 0;
            while j < keep
                invariant
                    j <= keep,
                    keep <= ccs@.len(),
                    line@ == ccs@.take(j as int),
                decreases keep - j,
            {
                push_char(&mut line, ccs[j]);
                proof {
                    assert(ccs@.take(j + 1) =~= ccs@.take(j as int).push(ccs@[j as int]));
                }
                j += 1;
            }
            proof {
                assert(line@ =~= strip_cr(cur@));
            }
            let ghost before = ls@.map_values(|l: String| l@);
            ls.push(line);
            proof {
                assert(ls@.map_values(|l: String| l@) =~= before.push(strip_cr(cur@)));
            }
            cur = String::new();
            proof {
                assert(cur@ =~= Seq::<char>::empty());
            }
        } else {
            push_char(&mut cur, c);
        }
        i += 1;
    }
    assert(text@.take(i as int) =~= text@);
    if cur.unicode_len() > 0 {
        let ghost before = ls@.map_values(|l: String| l@);
        ls.push(cur);
        proof {
            assert(ls@.map_values(|l: String| l@) =~= before.push(lines_acc(text@).1));
        }
    }
    ls
}

/// The pieces of `s` between occurrences of `c`, and the piece after the
/// last one.
pub open spec fn split_acc(s: Seq<char>, c: char) -> (Seq<Seq<char>>, Seq<char>)
    decreases s.len(),
{
    if s.len() == 0 {
        (seq![], seq![])
    } else {
        let (done, cur) = split_acc(s.drop_last(), c);
        if s.last() == c {
            (done.push(cur), seq![])
        } else {
            (done, cur.push(s.last()))
        }
    }
}

/// `str::split(c)`: the pieces of `s` between occurrences of `c`; one more
/// piece than there are occurrences.
pub open spec fn split_on(s: Seq<char>, c: char) -> Seq<Seq<char>> {
    let (done, cur) = split_acc(s, c);
    done.push(cur)
}

/// The pieces joined back with `c` between each two.
pub open spec fn joined_with(ps: Seq<Seq<char>>, c: char) -> Seq<char>
    decreases ps.len(),
{
    if ps.len() == 0 {
        seq![]
    } else if ps.len() == 1 {
        ps[0]
    } else {
        joined_with(ps.drop_last(), c) + seq![c] + ps.last()
    }
}

proof fn lemma_split_acc(s: Seq<char>, c: char)
    ensures
        joined_with(split_acc(s, c).0.push(split_acc(s, c).1), c) == s,
        forall|k: int|
            0 <= k < split_acc(s, c).0.len() ==> !(#[trigger] split_acc(s, c).0[k]).contains(c),
        !split_acc(s, c).1.contains(c),
    decreases s.len(),
{
    if s.len() > 0 {
        let p = s.drop_last();
        lemma_split_acc(p, c);
        let (done, cur) = split_acc(p, c);
        let x = s.last();
        assert(p.push(x) =~= s);
        if x == c {
            let d2 = done.push(cur);
            assert(d2.push(seq![]).drop_last() =~= d2);
            assert(joined_with(d2.push(seq![]), c) =~= joined_with(d2, c) + seq![c]);
            assert forall|k: int| 0 <= k < d2.len() implies !(#[trigger] d2[k]).contains(c) by {
                if k < done.len() {
                    assert(d2[k] == done[k]);
                }
            }
            assert(!Seq::<char>::empty().contains(c));
        } else {
            let c2 = cur.push(x);
            assert(done.push(c2).drop_last() =~= done);
            assert(done.push(cur).drop_last() =~= done);
            if done.len() == 0 {
                assert(joined_with(done.push(c2), c) == c2);
                assert(joined_with(done.push(cur), c) == cur);
            } else {
                assert(joined_with(done.push(c2), c) == joined_with(done, c) + seq![c] + c2);
                assert(joined_with(done.push(cur), c) == joined_with(done, c) + seq![c] + cur);
            }
            assert(joined_with(done.push(c2), c) =~= joined_with(done.push(cur), c).push(x));
            assert(!c2.contains(c)) by {
                if c2.contains(c) {
                    let i = choose|i: int| 0 <= i < c2.len() && c2[i] == c;
                    if i < cur.len() {
                        assert(cur[i] == c);
                    }
                }
            }
        }
    }
}

/// Splitting loses nothing and keeps no separator: joining the pieces of
/// `s` back with `c` gives `s`, and no piece holds `c`.
pub proof fn law_split_joins_back(s: Seq<char>, c: char)
    ensures
        joined_with(split_on(s, c), c) == s,
        forall|k: int| 0 <= k < split_on(s, c).len() ==> !(#[trigger] split_on(s, c)[k]).contains(c),
{
    lemma_split_acc(s, c);
    let (done, cur) = split_acc(s, c);
    assert forall|k: int| 0 <= k < split_on(s, c).len() implies !(#[trigger] split_on(s, c)[k]).contains(c) by {
        if k < done.len() {
            assert(split_on(s, c)[k] == done[k]);
        }
    }
}

/// The pieces of `s` between occurrences of `c`.
pub fn split_on_char(s: &str, c: char) -> (ps: Vec<String>)
    ensures
        ps@.map_values(|p: String| p@) == split_on(s@, c),
{
    let cs = chars_of(s);
    let mut ps: Vec<String> = Vec::new();
    let mut cur = String::new();
    let mut i: usize = 0;
    assert(s@.take(0) =~= Seq::<char>::empty());
    while i < cs.len()
        invariant
            cs@ == s@,
            i <= cs@.len(),
            ps@.map_values(|p: String| p@) == split_acc(s@.take(i as int), c).0,
            cur@ == split_acc(s@.take(i as int), c).1,
        decreases cs@.len() - i,
    {
        let x = cs[i];
        proof {
            assert(s@.take(i + 1).drop_last() =~= s@.take(i as int));
            assert(s@.take(i + 1).last() == x);
        }
        if x == c {
            let ghost before = ps@.map_values(|p: String| p@);
            let piece = cur;
            let ghost pv = piece@;
            ps.push(piece);
            proof {
                assert(ps@.map_values(|p: String| p@) =~= before.push(pv));
            }
            cur = String::new();
            proof {
                assert(cur@ =~= Seq::<char>::empty());
            }
        } else {
            push_char(&mut cur, x);
        }
        i += 1;
    }
    assert(s@.take(i as int) =~= s@);
    let ghost before = ps@.map_values(|p: String| p@);
    let ghost cv = cur@;
    ps.push(cur);
    proof {
        assert(ps@.map_values(|p: String| p@) =~= before.push(cv));
    }
    ps
}

/// `s` holds the character `c`.
pub open spec fn holds_char(s: Seq<char>, c: char) -> bool {
    exists|i: int| 0 <= i < s.len() && s[i] == c
}

fn has_char(s: &str, c: char) -> (r: bool)
    ensures
        r == holds_char(s@, c),
{
    let cs = chars_of(s);
    let mut i: usize = 0;
    while i < cs.len()
        invariant
            cs@ == s@,
            i <= cs@.len(),
            forall|j: int| 0 <= j < i ==> s@[j] != c,
        decreases cs@.len() - i,
    {
        if cs[i] == c {
            return true;
        }
        i += 1;
    }
    false
}

/// An ASCII digit.
pub open spec fn is_digit(c: char) -> bool {
    '0' <= c && c <= '9'
}

/// The value of a run of decimal digits.
pub open spec fn digits_value(s: Seq<char>) -> int
    decreases s.len(),
{
    if s.len() == 0 {
        0
    } else {
        digits_value(s.drop_last()) * 10 + (s.last() as int - '0' as int)
    }
}

pub open spec fn all_digits(s: Seq<char>) -> bool {
    forall|i: int| 0 <= i < s.len() ==> is_digit(#[trigger] s[i])
}

/// `i64::from_str`: an optional `+` or `-`, then one or more ASCII digits,
/// whose value lies in the range of `i64`; anything else is an error.
pub open spec fn parse_i64_spec(s: Seq<char>) -> Option<int> {
    let signed = s.len() > 0 && (s[0] == '+' || s[0] == '-');
    let ds = if signed {
        s.drop_first()
    } else {
        s
    };
    let v = if signed && s[0] == '-' {
        -digits_value(ds)
    } else {
        digits_value(ds)
    };
    if ds.len() > 0 && all_digits(ds) && i64::MIN <= v <= i64::MAX {
        Some(v)
    } else {
        None
    }
}

proof fn lemma_digits_nonneg(s: Seq<char>)
    requires
        all_digits(s),
    ensures
        digits_value(s) >= 0,
    decreases s.len(),
{
    if s.len() > 0 {
        lemma_digits_nonneg(s.drop_last());
        assert(is_digit(s[s.len() - 1]));
    }
}

proof fn lemma_digits_grow(s: Seq<char>, j: int)
    requires
        all_digits(s),
        0 <= j <= s.len(),
    ensures
        0 <= digits_value(s.take(j)) <= digits_value(s),
    decreases s.len(),
{
    lemma_digits_nonneg(s.take(j));
    if j < s.len() {
        let d = s.drop_last();
        lemma_digits_grow(d, j);
        assert(d.take(j) =~= s.take(j));
        lemma_digits_nonneg(d);
        assert(is_digit(s[s.len() - 1]));
    } else {
        assert(s.take(j) =~= s);
    }
}

proof fn lemma_digits_of_decimal(n: nat)
    ensures
        digits_value(decimal(n)) == n,
        all_digits(decimal(n)),
        decimal(n).len() > 0,
    decreases n,
{
    crate::fmt::lemma_decimal_digits(n);
    let d = n % 10;
    assert(digit(d) as int == d + 48);
    if n >= 10 {
        lemma_digits_of_decimal(n / 10);
        let p = decimal(n / 10);
        assert(decimal(n) == p.push(digit(d)));
        assert(decimal(n).drop_last() =~= p);
        assert(decimal(n).last() == digit(d));
        assert(digits_value(decimal(n)) == digits_value(p) * 10 + d);
        assert((n / 10) * 10 + n % 10 == n) by (nonlinear_arith);
    } else {
        let e = Seq::<char>::empty();
        assert(decimal(n).drop_last() =~= e);
        assert(decimal(n).last() == digit(d));
        assert(digits_value(e) == 0);
        assert('0' as int == 48);
        assert(digits_value(decimal(n)) == digits_value(e) * 10 + (digit(d) as int - '0' as int));
    }
}

/// Parsing gives back what printing wrote: the decimal digits of a number
/// in the range of `i64` parse to it, and so does the number with a `+`
/// before it; with a `-` before it they parse to its negation.
pub proof fn law_parse_i64_round_trip(n: nat)
    requires
        n <= i64::MAX,
    ensures
        parse_i64_spec(decimal(n)) == Some(n as int),
        parse_i64_spec(seq!['+'] + decimal(n)) == Some(n as int),
        parse_i64_spec(seq!['-'] + decimal(n)) == Some(-(n as int)),
{
    lemma_digits_of_decimal(n);
    let d = decimal(n);
    assert(is_digit(d[0]));
    assert((seq!['+'] + d).drop_first() =~= d);
    assert((seq!['-'] + d).drop_first() =~= d);
}

/// Parse a signed decimal `i64`, as `str::parse::<i64>` does.
pub fn parse_i64(s: &str) -> (r: Option<i64>)
    ensures
        match r {
            Some(v) => parse_i64_spec(s@) == Some(v as int),
            None => parse_i64_spec(s@) is None,
        },
{
    let cs = chars_of(s);
    let n = cs.len();
    if n == 0 {
        return None;
    }
    let signed = cs[0] == '+' || cs[0] == '-';
    let negative = cs[0] == '-';
    let start: usize = if signed {
        1
    } else {
        0
    };
    let ghost ds = if signed {
        s@.drop_first()
    } else {
        s@
    };
    assert(signed == (s@[0] == '+' || s@[0] == '-'));
    assert(negative == (s@[0] == '-'));
    if start == n {
        return None;
    }
    let mut v: u64 = 0;
    let mut i: usize = start;
    assert(ds.take(0) =~= Seq::<char>::empty());
    while i < n
        invariant
            cs@ == s@,
            n == cs@.len(),
            start <= i <= n,
            start == 0 || start == 1,
            ds.len() == n - start,
            forall|j: int| 0 <= j < ds.len() ==> ds[j] == cs@[j + start],
            all_digits(ds.take(i - start)),
            v == digits_value(ds.take(i - start)),
            v <= 9223372036854775808,
            s@.len() > 0,
            signed == (s@[0] == '+' || s@[0] == '-'),
            negative == (s@[0] == '-'),
            ds == (if signed {
                s@.drop_first()
            } else {
                s@
            }),
        decreases n - i,
    {
        let c = cs[i];
        if !('0' <= c && c <= '9') {
            proof {
                assert(ds[i - start] == c);
                assert(!is_digit(ds[i - start]));
                assert(!all_digits(ds));
                assert(parse_i64_spec(s@) is None);
            }
            return None;
        }
        let d = (c as u64) - ('0' as u64);
        proof {
            assert(ds.take(i - start + 1).drop_last() =~= ds.take(i - start));
            assert(ds.take(i - start + 1).last() == c);
        }
        if v > 922337203685477580 || (v == 922337203685477580 && d > 8) {
            proof {
                assert(digits_value(ds.take(i - start + 1)) > 9223372036854775808);
                if all_digits(ds) {
                    lemma_digits_grow(ds, i - start + 1);
                    assert(digits_value(ds) > 9223372036854775808);
                }
                assert(parse_i64_spec(s@) is None);
            }
            return None;
        }
        v = v * 10 + d;
        i += 1;
    }
    assert(ds.take(n - start) =~= ds);
    if negative {
        if v <= 9223372036854775808 {
            if v == 9223372036854775808 {
                Some(i64::MIN)
            } else {
                let x: i64 = v as i64;
                Some(-x)
            }
        } else {
            None
        }
    } else if v <= 9223372036854775807 {
        Some(v as i64)
    } else {
        None
    }
}

/// What the history shows of one path in the window.
pub struct Accumulated {
    pub changes_in_window: u32,
    pub authors_count: u32,
    pub last_modified: Option<i64>,
}

/// The author and time a header line `hash NUL email NUL time` sets: the
/// email, and the time when it parses (0 when it does not).
pub open spec fn header_of(l: Seq<char>) -> Option<(Seq<char>, int)> {
    let ps = split_on(l, '\0');
    if holds_char(l, '\0') && ps.len() == 3 {
        Some(
            (
                ps[1],
                match parse_i64_spec(ps[2]) {
                    Some(v) => v,
                    None => 0,
                },
            ),
        )
    } else {
        None
    }
}

/// A line naming a changed path: neither empty nor a header.
pub open spec fn is_path_line(l: Seq<char>) -> bool {
    l.len() > 0 && !holds_char(l, '\0')
}

/// The author in effect at line `n`: that of the last header before it,
/// empty before any.
pub open spec fn author_at(ls: Seq<Seq<char>>, n: int) -> Seq<char>
    decreases n,
{
    if n <= 0 {
        seq![]
    } else {
        match header_of(ls[n - 1]) {
            Some(h) => h.0,
            None => author_at(ls, n - 1),
        }
    }
}

/// The commit time in effect at line `n`: that of the last header before
/// it, 0 before any.
pub open spec fn time_at(ls: Seq<Seq<char>>, n: int) -> int
    decreases n,
{
    if n <= 0 {
        0
    } else {
        match header_of(ls[n - 1]) {
            Some(h) => h.1,
            None => time_at(ls, n - 1),
        }
    }
}

/// Line `i` names the path `p`.
pub open spec fn touches(ls: Seq<Seq<char>>, p: Seq<char>, i: int) -> bool {
    is_path_line(ls[i]) && ls[i] == p
}

/// How many of the first `n` lines name `p`.
pub open spec fn changes(ls: Seq<Seq<char>>, p: Seq<char>, n: int) -> nat
    decreases n,
{
    if n <= 0 {
        0
    } else if touches(ls, p, n - 1) {
        changes(ls, p, n - 1) + 1
    } else {
        changes(ls, p, n - 1)
    }
}

/// The authors in effect where the first `n` lines name `p`.
pub open spec fn authors(ls: Seq<Seq<char>>, p: Seq<char>, n: int) -> Set<Seq<char>>
    decreases n,
{
    if n <= 0 {
        Set::empty()
    } else if touches(ls, p, n - 1) {
        authors(ls, p, n - 1).insert(author_at(ls, n - 1))
    } else {
        authors(ls, p, n - 1)
    }
}

/// The latest time in effect where the first `n` lines name `p`; 0 when
/// none is later.
pub open spec fn last_time(ls: Seq<Seq<char>>, p: Seq<char>, n: int) -> int
    decreases n,
{
    if n <= 0 {
        0
    } else if touches(ls, p, n - 1) && time_at(ls, n - 1) > last_time(ls, p, n - 1) {
        time_at(ls, n - 1)
    } else {
        last_time(ls, p, n - 1)
    }
}

/// One of the first `n` lines names `p`.
pub open spec fn seen(ls: Seq<Seq<char>>, p: Seq<char>, n: int) -> bool {
    exists|q: int| 0 <= q < n && touches(ls, p, q)
}

/// `a` is what the whole log `ls` shows of `p`.
pub open spec fn accumulated_of(a: Accumulated, ls: Seq<Seq<char>>, p: Seq<char>) -> bool {
    let n = ls.len() as int;
    &&& a.changes_in_window == changes(ls, p, n)
    &&& a.authors_count == (if authors(ls, p, n).len() <= u32::MAX {
        authors(ls, p, n).len()
    } else {
        u32::MAX as nat
    })
    &&& a.last_modified == (if last_time(ls, p, n) > 0 {
        Some(last_time(ls, p, n) as i64)
    } else {
        None
    })
}

/// What the log shows of a path, line by line: `changes` counts the lines
/// naming it (so it is positive exactly when some line names it, and at
/// most the number of lines), `authors` holds exactly the authors in effect
/// at those lines, and `last_time` is the latest time in effect at one of
/// them, or 0 when none is later than 0.
pub proof fn law_path_history(ls: Seq<Seq<char>>, p: Seq<char>, n: int)
    requires
        0 <= n <= ls.len(),
    ensures
        changes(ls, p, n) <= n,
        changes(ls, p, n) > 0 <==> seen(ls, p, n),
        forall|a: Seq<char>|
            #[trigger] authors(ls, p, n).contains(a) <==> exists|q: int|
                0 <= q < n && touches(ls, p, q) && author_at(ls, q) == a,
        forall|q: int| 0 <= q < n && touches(ls, p, q) ==> time_at(ls, q) <= last_time(ls, p, n),
        last_time(ls, p, n) == 0 || exists|q: int|
            0 <= q < n && touches(ls, p, q) && time_at(ls, q) == last_time(ls, p, n),
        last_time(ls, p, n) >= 0,
    decreases n,
{
    if n > 0 {
        law_path_history(ls, p, n - 1);
        let m = n - 1;
        if touches(ls, p, m) {
            assert(seen(ls, p, n));
        } else {
            if seen(ls, p, n) {
                let q = choose|q: int| 0 <= q < n && touches(ls, p, q);
                assert(q != m);
                assert(seen(ls, p, m));
            }
            if seen(ls, p, m) {
                let q = choose|q: int| 0 <= q < m && touches(ls, p, q);
                assert(seen(ls, p, n));
            }
        }
        assert forall|a: Seq<char>|
            #[trigger] authors(ls, p, n).contains(a) <==> exists|q: int|
                0 <= q < n && touches(ls, p, q) && author_at(ls, q) == a by {
            if authors(ls, p, n).contains(a) {
                if touches(ls, p, m) && a == author_at(ls, m) {
                } else {
                    assert(authors(ls, p, m).contains(a));
                    let q = choose|q: int| 0 <= q < m && touches(ls, p, q) && author_at(ls, q) == a;
                    assert(0 <= q < n);
                }
            }
            if exists|q: int| 0 <= q < n && touches(ls, p, q) && author_at(ls, q) == a {
                let q = choose|q: int| 0 <= q < n && touches(ls, p, q) && author_at(ls, q) == a;
                if q < m {
                    assert(authors(ls, p, m).contains(a));
                }
            }
        }
        if last_time(ls, p, m) != 0 && last_time(ls, p, n) == last_time(ls, p, m) {
            let q = choose|q: int| 0 <= q < m && touches(ls, p, q) && time_at(ls, q) == last_time(ls, p, m);
            assert(0 <= q < n && touches(ls, p, q) && time_at(ls, q) == last_time(ls, p, n));
        }
    }
}

struct PathLog {
    path: String,
    changes: u32,
    authors: Vec<String>,
    last: i64,
}

spec fn views(v: Seq<String>) -> Seq<Seq<char>> {
    v.map_values(|s: String| s@)
}

spec fn log_ok(e: PathLog, ls: Seq<Seq<char>>, k: int) -> bool {
    let p = e.path@;
    &&& seen(ls, p, k)
    &&& e.changes == changes(ls, p, k)
    &&& views(e.authors@).no_duplicates()
    &&& views(e.authors@).to_set() == authors(ls, p, k)
    &&& e.last == last_time(ls, p, k)
}

proof fn lemma_changes_mono(ls: Seq<Seq<char>>, p: Seq<char>, a: int, b: int)
    requires
        0 <= a <= b,
    ensures
        changes(ls, p, a) <= changes(ls, p, b),
    decreases b - a,
{
    if a < b {
        lemma_changes_mono(ls, p, a, b - 1);
    }
}

proof fn lemma_unseen(ls: Seq<Seq<char>>, p: Seq<char>, n: int)
    requires
        0 <= n,
        !seen(ls, p, n),
    ensures
        changes(ls, p, n) == 0,
        authors(ls, p, n) == Set::<Seq<char>>::empty(),
        last_time(ls, p, n) == 0,
    decreases n,
{
    if n > 0 {
        assert(!touches(ls, p, n - 1));
        assert(!seen(ls, p, n - 1)) by {
            if seen(ls, p, n - 1) {
                let q = choose|q: int| 0 <= q < n - 1 && touches(ls, p, q);
                assert(0 <= q < n && touches(ls, p, q));
            }
        }
        lemma_unseen(ls, p, n - 1);
    }
}

proof fn lemma_times_fit(ls: Seq<Seq<char>>, n: int)
    ensures
        i64::MIN <= time_at(ls, n) <= i64::MAX,
    decreases n,
{
    if n > 0 {
        lemma_times_fit(ls, n - 1);
    }
}

proof fn lemma_last_fits(ls: Seq<Seq<char>>, p: Seq<char>, n: int)
    ensures
        0 <= last_time(ls, p, n) <= i64::MAX,
    decreases n,
{
    if n > 0 {
        lemma_last_fits(ls, p, n - 1);
        lemma_times_fit(ls, n - 1);
    }
}

fn find_log(logs: &Vec<PathLog>, p: &str) -> (r: Option<usize>)
    ensures
        match r {
            Some(i) => i < logs@.len() && logs@[i as int].path@ == p@,
            None => forall|i: int| 0 <= i < logs@.len() ==> (#[trigger] logs@[i]).path@ != p@,
        },
{
    let mut i: usize = 0;
    while i < logs.len()
        invariant
            i <= logs@.len(),
            forall|j: int| 0 <= j < i ==> (#[trigger] logs@[j]).path@ != p@,
        decreases logs@.len() - i,
    {
        if str_eq(logs[i].path.as_str(), p) {
            return Some(i);
        }
        i += 1;
    }
    None
}

fn add_author(v: &mut Vec<String>, a: &String)
    requires
        views(old(v)@).no_duplicates(),
    ensures
        views(final(v)@).no_duplicates(),
        views(final(v)@).to_set() == views(old(v)@).to_set().insert(a@),
{
    let ghost before = views(v@);
    let mut i: usize = 0;
    while i < v.len()
        invariant
            i <= v@.len(),
            before == views(v@),
            before.no_duplicates(),
            forall|j: int| 0 <= j < i ==> (#[trigger] v@[j])@ != a@,
        decreases v@.len() - i,
    {
        if str_eq(v[i].as_str(), a.as_str()) {
            proof {
                assert(before[i as int] == a@);
                assert(before.to_set().contains(a@));
                assert(before.to_set().insert(a@) =~= before.to_set());
            }
            return;
        }
        i += 1;
    }
    v.push(a.clone());
    proof {
        let after = views(v@);
        assert(after =~= before.push(a@));
        assert forall|x: int, y: int|
            0 <= x < after.len() && 0 <= y < after.len() && x != y implies after[x] != after[y] by {
            if x < before.len() && y < before.len() {
                assert(after[x] == before[x] && after[y] == before[y]);
            } else if x == before.len() {
                assert(after[y] == v@[y]@);
            } else {
                assert(after[x] == v@[x]@);
            }
        }
        assert(after.to_set() =~= before.to_set().insert(a@)) by {
            assert forall|e: Seq<char>| after.to_set().contains(e) implies before.to_set().insert(
                a@,
            ).contains(e) by {
                let q = choose|q: int| 0 <= q < after.len() && after[q] == e;
                if q < before.len() {
                    assert(before[q] == e);
                }
            }
            assert forall|e: Seq<char>| before.to_set().insert(a@).contains(e) implies after.to_set().contains(
                e,
            ) by {
                if e == a@ {
                    assert(after[before.len() as int] == e);
                } else {
                    let q = choose|q: int| 0 <= q < before.len() && before[q] == e;
                    assert(after[q] == e);
                }
            }
        }
    }
}

spec fn logs_ok(logs: Seq<PathLog>, ls: Seq<Seq<char>>, k: int) -> bool {
    &&& forall|i: int, j: int|
        0 <= i < j < logs.len() ==> (#[trigger] logs[i]).path@ != (#[trigger] logs[j]).path@
    &&& forall|i: int| 0 <= i < logs.len() ==> log_ok(#[trigger] logs[i], ls, k)
    &&& forall|q: int|
        0 <= q < k && is_path_line(#[trigger] ls[q]) ==> exists|i: int|
            0 <= i < logs.len() && (#[trigger] logs[i]).path@ == ls[q]
}

proof fn lemma_other_line(ls: Seq<Seq<char>>, p: Seq<char>, k: int)
    requires
        0 <= k < ls.len(),
        !touches(ls, p, k),
    ensures
        changes(ls, p, k + 1) == changes(ls, p, k),
        authors(ls, p, k + 1) == authors(ls, p, k),
        last_time(ls, p, k + 1) == last_time(ls, p, k),
        seen(ls, p, k) ==> seen(ls, p, k + 1),
{
    if seen(ls, p, k) {
        let q = choose|q: int| 0 <= q < k && touches(ls, p, q);
        assert(0 <= q < k + 1 && touches(ls, p, q));
    }
}

proof fn lemma_non_path_step(logs: Seq<PathLog>, ls: Seq<Seq<char>>, k: int)
    requires
        0 <= k < ls.len(),
        logs_ok(logs, ls, k),
        !is_path_line(ls[k]),
    ensures
        logs_ok(logs, ls, k + 1),
{
    assert forall|i: int| 0 <= i < logs.len() implies log_ok(#[trigger] logs[i], ls, k + 1) by {
        lemma_other_line(ls, logs[i].path@, k);
    }
}

/// Record that line `k`, naming a path, was touched by the author and at
/// the time in effect there.
fn record_path(
    logs: &mut Vec<PathLog>,
    line: &String,
    author: &String,
    time: i64,
    Ghost(ls): Ghost<Seq<Seq<char>>>,
    Ghost(k): Ghost<int>,
)
    requires
        0 <= k < ls.len(),
        logs_ok(old(logs)@, ls, k),
        ls[k] == line@,
        is_path_line(line@),
        author@ == author_at(ls, k),
        time == time_at(ls, k),
        changes(ls, line@, ls.len() as int) <= u32::MAX,
    ensures
        logs_ok(final(logs)@, ls, k + 1),
{
    let ghost p = line@;
    assert(touches(ls, p, k));
    proof {
        lemma_changes_mono(ls, p, k + 1, ls.len() as int);
    }
    match find_log(logs, line.as_str()) {
        Some(i) => {
            let ghost before = logs@;
            let mut e = logs.remove(i);
            assert(e == before[i as int]);
            assert(log_ok(e, ls, k));
            e.changes = e.changes + 1;
            add_author(&mut e.authors, author);
            if time > e.last {
                e.last = time;
            }
            assert(log_ok(e, ls, k + 1)) by {
                assert(0 <= k < k + 1 && touches(ls, p, k));
            }
            logs.insert(i, e);
            proof {
                assert(logs@ =~= before.update(i as int, e));
                assert forall|j: int| 0 <= j < logs@.len() implies log_ok(
                    #[trigger] logs@[j],
                    ls,
                    k + 1,
                ) by {
                    if j != i {
                        assert(logs@[j] == before[j]);
                        assert(before[j].path@ != p) by {
                            if j < i {
                                assert(before[j].path@ != before[i as int].path@);
                            } else {
                                assert(before[i as int].path@ != before[j].path@);
                            }
                        }
                        lemma_other_line(ls, before[j].path@, k);
                    }
                }
                assert forall|a: int, b: int|
                    0 <= a < b < logs@.len() implies (#[trigger] logs@[a]).path@ != (
                    #[trigger] logs@[b]).path@ by {
                    assert(logs@[a].path@ == before[a].path@);
                    assert(logs@[b].path@ == before[b].path@);
                }
                assert forall|q: int|
                    0 <= q < k + 1 && is_path_line(#[trigger] ls[q]) implies exists|j: int|
                    0 <= j < logs@.len() && (#[trigger] logs@[j]).path@ == ls[q] by {
                    if q == k {
                        assert(logs@[i as int].path@ == ls[q]);
                    } else {
                        let j = choose|j: int|
                            0 <= j < before.len() && (#[trigger] before[j]).path@ == ls[q];
                        assert(logs@[j].path@ == before[j].path@);
                    }
                }
            }
        },
        None => {
            let ghost before = logs@;
            proof {
                if seen(ls, p, k) {
                    let q = choose|q: int| 0 <= q < k && touches(ls, p, q);
                    assert(is_path_line(ls[q]));
                    let j = choose|j: int|
                        0 <= j < before.len() && (#[trigger] before[j]).path@ == ls[q];
                    assert(before[j].path@ != p);
                }
                lemma_unseen(ls, p, k);
                lemma_times_fit(ls, k);
            }
            let mut authors: Vec<String> = Vec::new();
            authors.push(author.clone());
            let e = PathLog {
                path: line.clone(),
                changes: 1,
                authors,
                last: if time > 0 {
                    time
                } else {
                    0
                },
            };
            proof {
                assert(views(e.authors@) =~= seq![author@]);
                assert(seq![author@].to_set() =~= Set::<Seq<char>>::empty().insert(author@)) by {
                    assert forall|x: Seq<char>| seq![author@].to_set().contains(x) implies x == author@ by {
                        let q = choose|q: int| 0 <= q < 1 && seq![author@][q] == x;
                    }
                    assert(seq![author@][0] == author@);
                }
                assert(0 <= k < k + 1 && touches(ls, p, k));
                assert(log_ok(e, ls, k + 1));
            }
            logs.push(e);
            proof {
                assert forall|j: int| 0 <= j < logs@.len() implies log_ok(
                    #[trigger] logs@[j],
                    ls,
                    k + 1,
                ) by {
                    if j < before.len() {
                        assert(logs@[j] == before[j]);
                        assert(before[j].path@ != p);
                        lemma_other_line(ls, before[j].path@, k);
                    }
                }
                assert forall|a: int, b: int|
                    0 <= a < b < logs@.len() implies (#[trigger] logs@[a]).path@ != (
                    #[trigger] logs@[b]).path@ by {
                    if b < before.len() {
                        assert(logs@[a] == before[a] && logs@[b] == before[b]);
                    } else {
                        assert(logs@[a] == before[a]);
                    }
                }
                assert forall|q: int|
                    0 <= q < k + 1 && is_path_line(#[trigger] ls[q]) implies exists|j: int|
                    0 <= j < logs@.len() && (#[trigger] logs@[j]).path@ == ls[q] by {
                    if q == k {
                        assert(logs@[before.len() as int].path@ == ls[q]);
                    } else {
                        let j = choose|j: int|
                            0 <= j < before.len() && (#[trigger] before[j]).path@ == ls[q];
                        assert(logs@[j] == before[j]);
                    }
                }
            }
        },
    }
}

/// `r` is what the log lines `ls` show: one entry per path they name,
/// no path twice, each with what the log shows of it.
pub open spec fn reads_log(ls: Seq<Seq<char>>, r: Seq<(String, Accumulated)>) -> bool {
    &&& forall|i: int, j: int| 0 <= i < j < r.len() ==> (#[trigger] r[i]).0@ != (#[trigger] r[j]).0@
    &&& forall|i: int|
        0 <= i < r.len() ==> seen(ls, (#[trigger] r[i]).0@, ls.len() as int) && accumulated_of(
            r[i].1,
            ls,
            r[i].0@,
        )
    &&& forall|q: int|
        0 <= q < ls.len() && is_path_line(#[trigger] ls[q]) ==> exists|i: int|
            0 <= i < r.len() && (#[trigger] r[i]).0@ == ls[q]
}

/// The per-path history of a `git log --name-only` text whose commit
/// headers read `hash NUL email NUL time`: one entry per path the log
/// names, with the number of lines naming it, the number of distinct
/// authors in effect there and the latest time in effect there (none when
/// not after 0).
pub fn accumulate(log: &str) -> (r: Vec<(String, Accumulated)>)
    requires
        forall|q: int|
            0 <= q < text_lines(log@).len() ==> changes(
                text_lines(log@),
                #[trigger] text_lines(log@)[q],
                text_lines(log@).len() as int,
            ) <= u32::MAX,
    ensures
        reads_log(text_lines(log@), r@),
{
    let ghost ls = text_lines(log@);
    let lines = split_lines(log);
    let mut logs: Vec<PathLog> = Vec::new();
    let mut author = String::new();
    let mut time: i64 = 0;
    let mut k: usize = 0;
    while k < lines.len()
        invariant
            ls == text_lines(log@),
            lines@.map_values(|l: String| l@) == ls,
            k <= ls.len(),
            forall|q: int|
                0 <= q < ls.len() ==> changes(ls, #[trigger] ls[q], ls.len() as int) <= u32::MAX,
            author@ == author_at(ls, k as int),
            time == time_at(ls, k as int),
            logs_ok(logs@, ls, k as int),
        decreases ls.len() - k,
    {
        let line = &lines[k];
        assert(ls[k as int] == line@);
        if line.unicode_len() == 0 {
            proof {
                lemma_non_path_step(logs@, ls, k as int);
                assert(!holds_char(line@, '\0'));
            }
        } else if has_char(line.as_str(), '\0') {
            let parts = split_on_char(line.as_str(), '\0');
            if parts.len() == 3 {
                author = parts[1].clone();
                time = match parse_i64(parts[2].as_str()) {
                    Some(v) => v,
                    None => 0,
                };
                proof {
                    assert(parts@.map_values(|p: String| p@)[1] == parts@[1]@);
                    assert(parts@.map_values(|p: String| p@)[2] == parts@[2]@);
                }
            }
            proof {
                lemma_non_path_step(logs@, ls, k as int);
            }
        } else {
            record_path(&mut logs, line, &author, time, Ghost(ls), Ghost(k as int));
        }
        k += 1;
    }
    let mut r: Vec<(String, Accumulated)> = Vec::new();
    let mut i: usize = 0;
    let ghost n = ls.len() as int;
    while i < logs.len()
        invariant
            i <= logs@.len(),
            k == n,
            n == ls.len(),
            logs_ok(logs@, ls, n),
            r@.len() == i,
            forall|j: int| 0 <= j < i ==> (#[trigger] r@[j]).0@ == logs@[j].path@ && accumulated_of(
                r@[j].1,
                ls,
                logs@[j].path@,
            ),
        decreases logs@.len() - i,
    {
        let e = &logs[i];
        assert(log_ok(logs@[i as int], ls, n));
        proof {
            views(e.authors@).unique_seq_to_set();
            lemma_last_fits(ls, e.path@, n);
        }
        let count: u32 = if e.authors.len() <= u32::MAX as usize {
            e.authors.len() as u32
        } else {
            u32::MAX
        };
        let last = if e.last > 0 {
            Some(e.last)
        } else {
            None
        };
        r.push((e.path.clone(), Accumulated { changes_in_window: e.changes, authors_count: count, last_modified: last }));
        i += 1;
    }
    proof {
        assert forall|a: int, b: int| 0 <= a < b < r@.len() implies (#[trigger] r@[a]).0@ != (
        #[trigger] r@[b]).0@ by {
            assert(logs@[a].path@ != logs@[b].path@);
        }
        assert forall|j: int| 0 <= j < r@.len() implies seen(ls, (#[trigger] r@[j]).0@, n)
            && accumulated_of(r@[j].1, ls, r@[j].0@) by {
            assert(log_ok(logs@[j], ls, n));
        }
        assert forall|q: int| 0 <= q < ls.len() && is_path_line(#[trigger] ls[q]) implies exists|j: int|
            0 <= j < r@.len() && (#[trigger] r@[j]).0@ == ls[q] by {
            let j = choose|j: int| 0 <= j < logs@.len() && (#[trigger] logs@[j]).path@ == ls[q];
            assert(r@[j].0@ == ls[q]);
        }
    }
    r
}

proof fn lemma_changes_le(ls: Seq<Seq<char>>, p: Seq<char>, n: int)
    requires
        0 <= n,
    ensures
        changes(ls, p, n) <= n,
    decreases n,
{
    if n > 0 {
        lemma_changes_le(ls, p, n - 1);
    }
}

/// The log has at most `u32::MAX` lines, so no path's change count can
/// overflow its counter.
pub fn text_lines_fit(log: &str) -> (b: bool)
    ensures
        b == (text_lines(log@).len() <= u32::MAX),
        b ==> forall|q: int|
            0 <= q < text_lines(log@).len() ==> changes(
                text_lines(log@),
                #[trigger] text_lines(log@)[q],
                text_lines(log@).len() as int,
            ) <= u32::MAX,
{
    let ls = split_lines(log);
    proof {
        let v = text_lines(log@);
        assert(ls@.len() == v.len());
        assert forall|q: int| 0 <= q < v.len() implies changes(v, #[trigger] v[q], v.len() as int)
            <= v.len() by {
            lemma_changes_le(v, v[q], v.len() as int);
        }
    }
    ls.len() <= u32::MAX as usize
}

/// How many of the first `n` lines name a path.
pub open spec fn path_lines(ls: Seq<Seq<char>>, n: int) -> nat
    decreases n,
{
    if n <= 0 {
        0
    } else if is_path_line(ls[n - 1]) {
        path_lines(ls, n - 1) + 1
    } else {
        path_lines(ls, n - 1)
    }
}

/// The change counts of `keys` over the first `n` lines, added up.
pub open spec fn sum_changes(keys: Seq<Seq<char>>, ls: Seq<Seq<char>>, n: int) -> nat
    decreases keys.len(),
{
    if keys.len() == 0 {
        0
    } else {
        sum_changes(keys.drop_last(), ls, n) + changes(ls, keys.last(), n)
    }
}

/// The entries' change counts, added up.
pub open spec fn entries_changes(r: Seq<(String, Accumulated)>) -> nat
    decreases r.len(),
{
    if r.len() == 0 {
        0
    } else {
        entries_changes(r.drop_last()) + r.last().1.changes_in_window as nat
    }
}

proof fn lemma_sum_step_other(keys: Seq<Seq<char>>, ls: Seq<Seq<char>>, n: int)
    requires
        0 <= n < ls.len(),
        !keys.contains(ls[n]) || !is_path_line(ls[n]),
    ensures
        sum_changes(keys, ls, n + 1) == sum_changes(keys, ls, n),
    decreases keys.len(),
{
    if keys.len() > 0 {
        let d = keys.drop_last();
        assert(!d.contains(ls[n]) || !is_path_line(ls[n])) by {
            if d.contains(ls[n]) {
                let i = choose|i: int| 0 <= i < d.len() && d[i] == ls[n];
                assert(keys[i] == ls[n]);
            }
        }
        lemma_sum_step_other(d, ls, n);
        assert(!touches(ls, keys.last(), n)) by {
            if touches(ls, keys.last(), n) {
                assert(keys[keys.len() - 1] == ls[n]);
            }
        }
    }
}

proof fn lemma_sum_step_path(keys: Seq<Seq<char>>, ls: Seq<Seq<char>>, n: int)
    requires
        0 <= n < ls.len(),
        keys.no_duplicates(),
        keys.contains(ls[n]),
        is_path_line(ls[n]),
    ensures
        sum_changes(keys, ls, n + 1) == sum_changes(keys, ls, n) + 1,
    decreases keys.len(),
{
    let d = keys.drop_last();
    if keys.last() == ls[n] {
        assert(!d.contains(ls[n])) by {
            if d.contains(ls[n]) {
                let i = choose|i: int| 0 <= i < d.len() && d[i] == ls[n];
                assert(keys[i] == keys[keys.len() - 1]);
            }
        }
        lemma_sum_step_other(d, ls, n);
        assert(touches(ls, keys.last(), n));
    } else {
        assert(d.no_duplicates()) by {
            assert forall|i: int, j: int| 0 <= i < d.len() && 0 <= j < d.len() && i != j implies d[i]
                != d[j] by {
                assert(d[i] == keys[i] && d[j] == keys[j]);
            }
        }
        assert(d.contains(ls[n])) by {
            let i = choose|i: int| 0 <= i < keys.len() && keys[i] == ls[n];
            assert(i != keys.len() - 1);
            assert(d[i] == ls[n]);
        }
        lemma_sum_step_path(d, ls, n);
        assert(!touches(ls, keys.last(), n));
    }
}

proof fn lemma_sum_changes_all(keys: Seq<Seq<char>>, ls: Seq<Seq<char>>, n: int)
    requires
        0 <= n <= ls.len(),
        keys.no_duplicates(),
        forall|q: int| 0 <= q < n && is_path_line(#[trigger] ls[q]) ==> keys.contains(ls[q]),
    ensures
        sum_changes(keys, ls, n) == path_lines(ls, n),
    decreases n,
{
    if n == 0 {
        lemma_sum_zero(keys, ls);
    } else {
        lemma_sum_changes_all(keys, ls, n - 1);
        if is_path_line(ls[n - 1]) {
            lemma_sum_step_path(keys, ls, n - 1);
        } else {
            lemma_sum_step_other(keys, ls, n - 1);
        }
    }
}

proof fn lemma_sum_zero(keys: Seq<Seq<char>>, ls: Seq<Seq<char>>)
    ensures
        sum_changes(keys, ls, 0) == 0,
    decreases keys.len(),
{
    if keys.len() > 0 {
        lemma_sum_zero(keys.drop_last(), ls);
    }
}

proof fn lemma_entries_keys(r: Seq<(String, Accumulated)>, ls: Seq<Seq<char>>)
    requires
        forall|i: int| 0 <= i < r.len() ==> accumulated_of(#[trigger] r[i].1, ls, r[i].0@),
    ensures
        entries_changes(r) == sum_changes(
            r.map_values(|e: (String, Accumulated)| e.0@),
            ls,
            ls.len() as int,
        ),
    decreases r.len(),
{
    if r.len() > 0 {
        let d = r.drop_last();
        assert forall|i: int| 0 <= i < d.len() implies accumulated_of(#[trigger] d[i].1, ls, d[i].0@) by {
            assert(d[i] == r[i]);
        }
        lemma_entries_keys(d, ls);
        assert(r.map_values(|e: (String, Accumulated)| e.0@).drop_last() =~= d.map_values(
            |e: (String, Accumulated)| e.0@,
        ));
        assert(accumulated_of(r[r.len() - 1].1, ls, r[r.len() - 1].0@));
    }
}

/// Every line naming a path is counted once: the entries' change counts
/// add up to the number of such lines.
pub proof fn law_changes_add_up(ls: Seq<Seq<char>>, r: Seq<(String, Accumulated)>)
    requires
        reads_log(ls, r),
    ensures
        entries_changes(r) == path_lines(ls, ls.len() as int),
{
    let keys = r.map_values(|e: (String, Accumulated)| e.0@);
    lemma_entries_keys(r, ls);
    assert(keys.no_duplicates()) by {
        assert forall|i: int, j: int| 0 <= i < keys.len() && 0 <= j < keys.len() && i != j implies keys[i]
            != keys[j] by {
            if i < j {
                assert(r[i].0@ != r[j].0@);
            } else {
                assert(r[j].0@ != r[i].0@);
            }
        }
    }
    assert forall|q: int| 0 <= q < ls.len() && is_path_line(#[trigger] ls[q]) implies keys.contains(
        ls[q],
    ) by {
        let i = choose|i: int| 0 <= i < r.len() && (#[trigger] r[i]).0@ == ls[q];
        assert(keys[i] == ls[q]);
    }
    lemma_sum_changes_all(keys, ls, ls.len() as int);
}

/// Where the accumulated git data of the repository-relative path `rel`
/// stands: the first entry listed under it, or `None`.
pub fn find_accumulated(info: &Vec<(String, Accumulated)>, rel: &str) -> (r: Option<usize>)
    ensures
        r matches Some(i) ==> i < info@.len() && info@[i as int].0@ == rel@ && forall|j: int|
            0 <= j < i ==> (#[trigger] info@[j]).0@ != rel@,
        r is None ==> forall|j: int| 0 <= j < info@.len() ==> (#[trigger] info@[j]).0@ != rel@,
{
    let mut k: usize = 0;
    while k < info.len()
        invariant
            k <= info@.len(),
            forall|j: int| 0 <= j < k ==> (#[trigger] info@[j]).0@ != rel@,
        decreases info@.len() - k,
    {
        if str_eq(info[k].0.as_str(), rel) {
            return Some(k);
        }
        k += 1;
    }
    None
}

} // verus!
