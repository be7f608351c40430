//! COCOMO project classes. The estimate formulas themselves work in
//! floating point and are computed outside the verified library.
use vstd::prelude::*;
use crate::text::{ascii_lowercase, chars_of, lower, lower_all, push_char, str_eq};

verus! {

/// COCOMO project class. Most general-purpose codebases are `Organic`;
/// large in-house systems are `SemiDetached`; firmware and
/// tightly-coupled embedded code is `Embedded`.
#[derive(Debug, Clone, Copy, PartialEq, Eq, Structural)]
pub enum ProjectType {
    Organic,
    SemiDetached,
    Embedded,
}

impl ProjectType {
    /// The class's configuration name.
    pub fn as_str(self) -> (s: &'static str)
        ensures
            s@ == class_name(self),
    {
        match self {
            ProjectType::Organic => "organic",
            ProjectType::SemiDetached => "semi_detached",
            ProjectType::Embedded => "embedded",
        }
    }
}

/// `char::is_whitespace`: the Unicode `White_Space` characters.
pub open spec fn is_ws(c: char) -> bool {
    let u = c as u32;
    ||| 0x09 <= u <= 0x0d
    ||| u == 0x20
    ||| u == 0x85
    ||| u == 0xa0
    ||| u == 0x1680
    ||| 0x2000 <= u <= 0x200a
    ||| u == 0x2028
    ||| u == 0x2029
    ||| u == 0x202f
    ||| u == 0x205f
    ||| u == 0x3000
}

fn is_ws_char(c: char) -> (r: bool)
    ensures
        r == is_ws(c),
{
    let u = c as u32;
    (0x09 <= u && u <= 0x0d) || u == 0x20 || u == 0x85 || u == 0xa0 || u == 0x1680 || (0x2000 <= u
        && u <= 0x200a) || u == 0x2028 || u == 0x2029 || u == 0x202f || u == 0x205f || u == 0x3000
}

/// `str::trim`: the text without leading and trailing whitespace.
pub open spec fn trimmed(s: Seq<char>, a: int, b: int) -> bool {
    &&& 0 <= a <= b <= s.len()
    &&& forall|i: int| 0 <= i < a ==> is_ws(#[trigger] s[i])
    &&& forall|i: int| b <= i < s.len() ==> is_ws(#[trigger] s[i])
    &&& a < b ==> !is_ws(s[a]) && !is_ws(s[b - 1])
}

pub open spec fn trim(s: Seq<char>) -> Seq<char> {
    let (a, b) = choose|a: int, b: int| trimmed(s, a, b);
    s.subrange(a, b)
}

proof fn lemma_trimmed_unique(s: Seq<char>, a: int, b: int, c: int, d: int)
    requires
        trimmed(s, a, b),
        trimmed(s, c, d),
    ensures
        s.subrange(a, b) == s.subrange(c, d),
{
    if a < b && c < d {
        if a < c {
            assert(is_ws(s[a]));
        }
        if c < a {
            assert(is_ws(s[c]));
        }
        if b < d {
            assert(is_ws(s[d - 1]));
        }
        if d < b {
            assert(is_ws(s[b - 1]));
        }
    } else if a < b {
        // all of s is whitespace by the second split
        if c <= a {
            assert(is_ws(s[a]));
        } else {
            assert(is_ws(s[a]));
        }
    } else if c < d {
        if a <= c {
            assert(is_ws(s[c]));
        } else {
            assert(is_ws(s[c]));
        }
    }
    assert(s.subrange(a, b) =~= s.subrange(c, d));
}

/// The text of `s` without leading and trailing whitespace.
pub fn trim_str(s: &str) -> (r: String)
    ensures
        r@ == trim(s@),
{
    let cs = chars_of(s);
    let mut a: usize = 0;
    while a < cs.len() && is_ws_char(cs[a])
        invariant
            cs@ == s@,
            a <= cs@.len(),
            forall|i: int| 0 <= i < a ==> is_ws(#[trigger] cs@[i]),
        decreases cs@.len() - a,
    {
        a += 1;
    }
    let mut b: usize = cs.len();
    while b > a && is_ws_char(cs[b - 1])
        invariant
            cs@ == s@,
            a <= b <= cs@.len(),
            forall|i: int| b <= i < cs@.len() ==> is_ws(#[trigger] cs@[i]),
        decreases b,
    {
        b -= 1;
    }
    let mut r = String::new();
    let mut i = a;
    while i < b
        invariant
            cs@ == s@,
            a <= i <= b <= cs@.len(),
            r@ == s@.subrange(a as int, i as int),
        decreases b - i,
    {
        push_char(&mut r, cs[i]);
        proof {
            assert(s@.subrange(a as int, i + 1) =~= s@.subrange(a as int, i as int).push(s@[i as int]));
        }
        i += 1;
    }
    proof {
        assert(trimmed(s@, a as int, b as int));
        let (c, d) = choose|c: int, d: int| trimmed(s@, c, d);
        lemma_trimmed_unique(s@, a as int, b as int, c, d);
    }
    r
}

/// `format!("{:?}", s)` of a `str`: the text quoted and escaped as Rust's
/// `Debug` prints it.
pub uninterp spec fn debug_repr(s: Seq<char>) -> Seq<char>;

/// `<str as Debug>::fmt`: the quoted, escaped text. The contract names the
/// result; it is a function of the text alone.
#[verifier::external_body]
fn debug_quoted(s: &str) -> (r: String)
    ensures
        r@ == debug_repr(s@),
{
    format!("{:?}", s)
}

/// The class a (trimmed, case-folded) configuration name stands for.
pub open spec fn project_type_of(key: Seq<char>) -> Option<ProjectType> {
    if key == "organic"@ {
        Some(ProjectType::Organic)
    } else if key == "semi_detached"@ || key == "semi-detached"@ || key == "semidetached"@ {
        Some(ProjectType::SemiDetached)
    } else if key == "embedded"@ {
        Some(ProjectType::Embedded)
    } else {
        None
    }
}

/// Parse a project class, ignoring surrounding whitespace and ASCII case.
/// `semi_detached`, `semi-detached` and `semidetached` all name the
/// semi-detached class. Anything else is refused with a message naming
/// the input and the accepted names.
pub fn parse_project_type(s: &str) -> (r: Result<ProjectType, String>)
    ensures
        ({
            let key = lower_all(trim(s@));
            &&& project_type_of(key) matches Some(t) ==> r == Ok::<ProjectType, String>(t)
            &&& project_type_of(key) is None ==> (r matches Err(msg) && msg@ == "unknown project type "@
                + debug_repr(key) + "; expected organic, semi_detached, or embedded"@)
        }),
{
    let t = trim_str(s);
    let key = ascii_lowercase(t.as_str());
    if str_eq(key.as_str(), "organic") {
        Ok(ProjectType::Organic)
    } else if str_eq(key.as_str(), "semi_detached") || str_eq(key.as_str(), "semi-detached") || str_eq(
        key.as_str(),
        "semidetached",
    ) {
        Ok(ProjectType::SemiDetached)
    } else if str_eq(key.as_str(), "embedded") {
        Ok(ProjectType::Embedded)
    } else {
        let mut msg = String::from_str("unknown project type ");
        let q = debug_quoted(key.as_str());
        msg.append(q.as_str());
        msg.append("; expected organic, semi_detached, or embedded");
        Err(msg)
    }
}

impl std::str::FromStr for ProjectType {
    type Err = String;

    fn from_str(s: &str) -> (r: Result<Self, Self::Err>)
        ensures
            ({
                let key = lower_all(trim(s@));
                &&& project_type_of(key) matches Some(t) ==> r == Ok::<ProjectType, String>(t)
                &&& project_type_of(key) is None ==> (r matches Err(msg) && msg@ == "unknown project type "@
                    + debug_repr(key) + "; expected organic, semi_detached, or embedded"@)
            }),
    {
        parse_project_type(s)
    }
}

/// The name a project class is printed under.
pub open spec fn class_name(t: ProjectType) -> Seq<char> {
    match t {
        ProjectType::Organic => "organic"@,
        ProjectType::SemiDetached => "semi_detached"@,
        ProjectType::Embedded => "embedded"@,
    }
}

proof fn lemma_plain_trim(s: Seq<char>)
    requires
        s.len() > 0,
        !is_ws(s[0]),
        !is_ws(s[s.len() - 1]),
    ensures
        trim(s) == s,
{
    assert(trimmed(s, 0, s.len() as int));
    let p = choose|a: int, b: int| trimmed(s, a, b);
    assert(trimmed(s, p.0, p.1));
    lemma_trimmed_unique(s, p.0, p.1, 0, s.len() as int);
    assert(s.subrange(0, s.len() as int) =~= s);
}

proof fn lemma_plain_name(s: Seq<char>)
    requires
        s.len() > 0,
        forall|i: int| 0 <= i < s.len() ==> ('a' <= #[trigger] s[i] <= 'z' || s[i] == '_'),
    ensures
        lower_all(trim(s)) == s,
{
    let n = s.len() as int;
    assert('a' <= s[0] <= 'z' || s[0] == '_');
    assert('a' <= s[n - 1] <= 'z' || s[n - 1] == '_');
    lemma_plain_trim(s);
    assert forall|i: int| 0 <= i < s.len() implies #[trigger] lower(s[i]) == s[i] by {
        assert('a' <= s[i] <= 'z' || s[i] == '_');
    }
    assert(lower_all(s) =~= s);
}

/// The name `as_str` prints for each class parses back to that class:
/// `parse_project_type` and `from_str` return `Ok` of it.
pub proof fn law_project_type_name_parses_back(t: ProjectType)
    ensures
        project_type_of(lower_all(trim(class_name(t)))) == Some(t),
{
    reveal_strlit("organic");
    reveal_strlit("semi_detached");
    reveal_strlit("embedded");
    reveal_strlit("semi-detached");
    reveal_strlit("semidetached");
    lemma_plain_name(class_name(t));
}

} // verus!
