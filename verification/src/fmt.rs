//! Formatting helpers shared by the exporters.
use vstd::prelude::*;
use num_format::ToFormattedString;
use crate::text::push_char;

verus! {

/// The decimal digit character of `d < 10`.
pub open spec fn digit(d: nat) -> char {
    ((d + 48) as u32) as char
}

/// The decimal representation of `n`, without sign or grouping.
pub open spec fn decimal(n: nat) -> Seq<char>
    decreases n,
{
    if n < 10 {
        seq![digit(n)]
    } else {
        decimal(n / 10).push(digit(n % 10))
    }
}

fn digit_char(d: u64) -> (c: char)
    requires
        d < 10,
    ensures
        c == digit(d as nat),
{
    let b = (d as u8) + 48u8;
    b as char
}

/// Append the decimal representation of `n` to `out`.
pub fn push_decimal(out: &mut String, n: u64)
    ensures
        final(out)@ == old(out)@ + decimal(n as nat),
    decreases n,
{
    if n >= 10 {
        push_decimal(out, n / 10);
    }
    let c = digit_char(n % 10);
    push_char(out, c);
    proof {
        if n >= 10 {
            assert(decimal(n as nat) == decimal((n / 10) as nat).push(digit((n % 10) as nat)));
        }
    }
}

/// The decimal representation of `n`.
pub fn decimal_string(n: u64) -> (s: String)
    ensures
        s@ == decimal(n as nat),
{
    let mut s = String::new();
    push_decimal(&mut s, n);
    assert(s@ =~= decimal(n as nat));
    s
}

/// Language family groupings. When the table or HTML exporter sees two or
/// more members of a family, it emits an extra sub-total row labelled
/// with `display`.
pub struct Family {
    pub display: &'static str,
    pub members: Vec<&'static str>,
}

/// The families: TS + TSX, JS + JSX, C + C++.
pub fn families() -> (r: Vec<Family>)
    ensures
        r@.len() == 3,
        r@[0].display@ == "TS + TSX"@,
        r@[0].members@.len() == 2,
        r@[0].members@[0]@ == "TypeScript"@,
        r@[0].members@[1]@ == "TSX"@,
        r@[1].display@ == "JS + JSX"@,
        r@[1].members@.len() == 2,
        r@[1].members@[0]@ == "JavaScript"@,
        r@[1].members@[1]@ == "JSX"@,
        r@[2].display@ == "C + C++"@,
        r@[2].members@.len() == 2,
        r@[2].members@[0]@ == "C"@,
        r@[2].members@[1]@ == "C++"@,
{
    let mut r: Vec<Family> = Vec::new();
    r.push(Family { display: "TS + TSX", members: vec!["TypeScript", "TSX"] });
    r.push(Family { display: "JS + JSX", members: vec!["JavaScript", "JSX"] });
    r.push(Family { display: "C + C++", members: vec!["C", "C++"] });
    r
}

/// `d` with `sep` before each group of three characters counted from the
/// right (the standard grouping).
pub open spec fn group_threes(d: Seq<char>, sep: Seq<char>) -> Seq<char>
    decreases d.len(),
{
    if d.len() <= 3 {
        d
    } else {
        group_threes(d.take(d.len() - 3), sep) + sep + d.skip(d.len() - 3)
    }
}

/// `d` with `sep` before each group of two characters counted from the
/// right.
pub open spec fn group_twos(d: Seq<char>, sep: Seq<char>) -> Seq<char>
    decreases d.len(),
{
    if d.len() <= 2 {
        d
    } else {
        group_twos(d.take(d.len() - 2), sep) + sep + d.skip(d.len() - 2)
    }
}

/// `d` with `sep` before its last three characters and then before each
/// group of two (the Indian grouping).
pub open spec fn group_indian(d: Seq<char>, sep: Seq<char>) -> Seq<char> {
    if d.len() <= 3 {
        d
    } else {
        group_twos(d.take(d.len() - 3), sep) + sep + d.skip(d.len() - 3)
    }
}

/// `s` is a text `fmt_int` can give for `n` under some locale: the decimal
/// digits of `n`, ungrouped (the POSIX grouping) or with one separator
/// string in the standard or the Indian grouping.
pub open spec fn int_text(n: nat, s: Seq<char>) -> bool {
    ||| s == decimal(n)
    ||| exists|sep: Seq<char>| #[trigger] group_threes(decimal(n), sep) == s
    ||| exists|sep: Seq<char>| #[trigger] group_indian(decimal(n), sep) == s
}

/// `s` is a text `fmt_usd` can give for `n`: `$`, then a text `fmt_int`
/// can give for `n`.
pub open spec fn usd_text(n: nat, s: Seq<char>) -> bool {
    &&& s.len() > 0
    &&& s[0] == '$'
    &&& int_text(n, s.skip(1))
}

/// A number below a thousand has at most three digits.
proof fn lemma_decimal_short(n: nat)
    requires
        n < 1000,
    ensures
        decimal(n).len() <= 3,
{
    if n >= 10 {
        let m = n / 10;
        if m >= 10 {
            assert(decimal(m / 10).len() == 1);
            assert(decimal(m).len() == 2);
        } else {
            assert(decimal(m).len() == 1);
        }
        assert(decimal(n).len() == decimal(m).len() + 1);
    }
}

/// Below a thousand no grouping writes a separator.
pub proof fn lemma_int_text_small(n: nat, s: Seq<char>)
    requires
        int_text(n, s),
        n < 1000,
    ensures
        s == decimal(n),
{
    lemma_decimal_short(n);
}

/// `num_format`'s `to_formatted_string` under the system locale, or `None`
/// when `SystemLocale::default()` cannot read the locale. The separator and
/// the grouping come from the environment: the grouping is POSIX (no
/// separator), standard (threes) or Indian (three, then twos), as
/// `SystemLocale` accepts no other; an empty separator also leaves the
/// digits ungrouped. The digits are ASCII. So the text is the decimal
/// digits of `n` with the locale's separator at the places of one of those
/// groupings.
#[verifier::external_body]
fn system_grouped(n: u64) -> (r: Option<String>)
    ensures
        r matches Some(s) ==> int_text(n as nat, s@),
{
    match num_format::SystemLocale::default() {
        Ok(loc) => Some(n.to_formatted_string(&loc)),
        Err(_) => None,
    }
}

/// `num_format`'s `to_formatted_string` under `Locale::en`, whose separator
/// is `,` and whose grouping is standard: the decimal digits with a comma
/// before each group of three from the right.
#[verifier::external_body]
fn en_grouped(n: u64) -> (r: String)
    ensures
        r@ == group_threes(decimal(n as nat), seq![',']),
{
    n.to_formatted_string(&num_format::Locale::en)
}

/// `n` under the system locale's grouping, or English grouping when the
/// locale cannot be read.
fn grouped(n: u64) -> (r: String)
    ensures
        int_text(n as nat, r@),
        n < 1000 ==> r@ == decimal(n as nat),
{
    let r = match system_grouped(n) {
        Some(s) => s,
        None => {
            let e = en_grouped(n);
            proof {
                assert(group_threes(decimal(n as nat), seq![',']) == e@);
            }
            e
        },
    };
    proof {
        if n < 1000 {
            lemma_int_text_small(n as nat, r@);
        }
    }
    r
}

/// Locale-aware integer formatting: the system locale's digit grouping,
/// or English grouping when the locale cannot be read. A number below a
/// thousand is written as its plain decimal digits.
pub fn fmt_int(n: u32) -> (s: String)
    ensures
        int_text(n as nat, s@),
        n < 1000 ==> s@ == decimal(n as nat),
{
    grouped(n as u64)
}

/// A dollar amount: `$`, then the amount in the locale's grouping.
pub fn fmt_usd(n: u64) -> (s: String)
    ensures
        usd_text(n as nat, s@),
        s@.len() > 0,
        s@[0] == '$',
        n < 1000 ==> s@ == seq!['$'] + decimal(n as nat),
{
    let mut s = String::from_str("$");
    proof {
        reveal_strlit("$");
    }
    let g = grouped(n);
    s.append(g.as_str());
    proof {
        assert(s@.skip(1) =~= g@);
        if n < 1000 {
            assert(s@ =~= seq!['$'] + decimal(n as nat));
        }
    }
    s
}

/// Every character of a decimal representation is a digit.
pub proof fn lemma_decimal_digits(n: nat)
    ensures
        forall|i: int| 0 <= i < decimal(n).len() ==> '0' <= #[trigger] decimal(n)[i] <= '9',
    decreases n,
{
    let d = n % 10;
    assert('0' <= digit(d) <= '9');
    if n >= 10 {
        lemma_decimal_digits(n / 10);
        let p = decimal(n / 10);
        assert(decimal(n) == p.push(digit(d)));
        assert forall|i: int| 0 <= i < decimal(n).len() implies '0' <= #[trigger] decimal(n)[i] <= '9' by {
            if i < p.len() {
                assert(decimal(n)[i] == p[i]);
            }
        }
    } else {
        assert(decimal(n) == seq![digit(n)]);
    }
}

} // verus!
