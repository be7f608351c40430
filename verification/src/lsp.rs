//! The editor surface: which functions get a diagnostic, with what
//! message, and the code lens every function gets. The language-server
//! protocol itself runs outside the verified library.
use vstd::prelude::*;
use crate::ast::FunctionDetail;
use crate::fmt::{decimal, push_decimal};
use crate::text::push_char;

verus! {

/// Thresholds above which a function gets a warning.
pub struct Thresholds {
    pub cyclomatic_max: u32,
    pub longest_function_lines: u32,
}

impl Default for Thresholds {
    fn default() -> (t: Self)
        ensures
            t.cyclomatic_max == 10,
            t.longest_function_lines == 100,
    {
        Thresholds { cyclomatic_max: 10, longest_function_lines: 100 }
    }
}

/// A warning on the lines of one function (0-based, inclusive).
pub struct FunctionDiagnostic {
    pub start_line: u32,
    pub end_line: u32,
    pub message: String,
}

/// The 0-based line of a 1-based one (saturating at 0).
pub open spec fn zero_based(line: u32) -> u32 {
    if line == 0 {
        0
    } else {
        (line - 1) as u32
    }
}

/// The message for a function over one or both thresholds.
pub open spec fn diagnostic_message(d: FunctionDetail, t: Thresholds) -> Seq<char> {
    let cc_over = d.cyclomatic > t.cyclomatic_max;
    let len_over = d.lines > t.longest_function_lines;
    if cc_over && len_over {
        "CC "@ + decimal(d.cyclomatic as nat) + " > "@ + decimal(t.cyclomatic_max as nat)
            + " and length "@ + decimal(d.lines as nat) + " > "@ + decimal(
            t.longest_function_lines as nat,
        )
    } else if cc_over {
        "CC "@ + decimal(d.cyclomatic as nat) + " > threshold "@ + decimal(t.cyclomatic_max as nat)
    } else {
        decimal(d.lines as nat) + " lines > threshold "@ + decimal(t.longest_function_lines as nat)
    }
}

/// The warning for a function, if it exceeds a threshold: over its lines,
/// with a message naming what is over.
pub fn diagnostic_for(d: &FunctionDetail, t: &Thresholds) -> (r: Option<FunctionDiagnostic>)
    ensures
        r is Some <==> (d.cyclomatic > t.cyclomatic_max || d.lines > t.longest_function_lines),
        r matches Some(g) ==> {
            &&& g.start_line == zero_based(d.start_line)
            &&& g.end_line == zero_based(d.end_line)
            &&& g.message@ == diagnostic_message(*d, *t)
        },
{
    let cc_over = d.cyclomatic > t.cyclomatic_max;
    let len_over = d.lines > t.longest_function_lines;
    if !cc_over && !len_over {
        return None;
    }
    let mut message = String::new();
    let ghost m0 = message@;
    if cc_over && len_over {
        message.append("CC ");
        push_decimal(&mut message, d.cyclomatic as u64);
        message.append(" > ");
        push_decimal(&mut message, t.cyclomatic_max as u64);
        message.append(" and length ");
        push_decimal(&mut message, d.lines as u64);
        message.append(" > ");
        push_decimal(&mut message, t.longest_function_lines as u64);
    } else if cc_over {
        message.append("CC ");
        push_decimal(&mut message, d.cyclomatic as u64);
        message.append(" > threshold ");
        push_decimal(&mut message, t.cyclomatic_max as u64);
    } else {
        push_decimal(&mut message, d.lines as u64);
        message.append(" lines > threshold ");
        push_decimal(&mut message, t.longest_function_lines as u64);
    }
    assert(message@ =~= diagnostic_message(*d, *t));
    Some(FunctionDiagnostic {
        start_line: d.start_line.saturating_sub(1),
        end_line: d.end_line.saturating_sub(1),
        message,
    })
}

/// The function exceeds a threshold.
pub open spec fn over(d: FunctionDetail, t: Thresholds) -> bool {
    d.cyclomatic > t.cyclomatic_max || d.lines > t.longest_function_lines
}

/// The functions that exceed a threshold, in order.
pub open spec fn flagged(ds: Seq<FunctionDetail>, t: Thresholds) -> Seq<FunctionDetail>
    decreases ds.len(),
{
    if ds.len() == 0 {
        seq![]
    } else if over(ds.last(), t) {
        flagged(ds.drop_last(), t).push(ds.last())
    } else {
        flagged(ds.drop_last(), t)
    }
}

/// The functions warned about are exactly those over a threshold, in their
/// order: splitting the breakdown anywhere splits the warnings, and one
/// function is warned about exactly when its complexity or its length is
/// over its threshold (strictly).
pub proof fn law_flagged(a: Seq<FunctionDetail>, b: Seq<FunctionDetail>, t: Thresholds)
    ensures
        flagged(a + b, t) == flagged(a, t) + flagged(b, t),
        forall|d: FunctionDetail|
            #[trigger] flagged(seq![d], t) == (if d.cyclomatic > t.cyclomatic_max || d.lines
                > t.longest_function_lines {
                seq![d]
            } else {
                Seq::<FunctionDetail>::empty()
            }),
    decreases b.len(),
{
    assert forall|d: FunctionDetail|
        #[trigger] flagged(seq![d], t) == (if d.cyclomatic > t.cyclomatic_max || d.lines
            > t.longest_function_lines {
            seq![d]
        } else {
            Seq::<FunctionDetail>::empty()
        }) by {
        let e = Seq::<FunctionDetail>::empty();
        assert(seq![d].drop_last() =~= e);
        assert(seq![d].last() == d);
        assert(flagged(e, t) == e);
        assert(e.push(d) =~= seq![d]);
    }
    if b.len() == 0 {
        assert(a + b =~= a);
        assert(flagged(a, t) + flagged(b, t) =~= flagged(a, t));
    } else {
        law_flagged(a, b.drop_last(), t);
        assert((a + b).drop_last() =~= a + b.drop_last());
        assert((a + b).last() == b.last());
        assert(flagged(a + b, t) =~= flagged(a, t) + flagged(b, t));
    }
}

impl FunctionDiagnostic {
    /// The warning of function `d`.
    pub open spec fn warns(&self, d: FunctionDetail, t: Thresholds) -> bool {
        &&& self.start_line == zero_based(d.start_line)
        &&& self.end_line == zero_based(d.end_line)
        &&& self.message@ == diagnostic_message(d, t)
    }
}

/// The warnings of a file's functions: one per function over a threshold,
/// in function order.
pub fn diagnostics(details: &Vec<FunctionDetail>, t: &Thresholds) -> (r: Vec<FunctionDiagnostic>)
    ensures
        r@.len() == flagged(details@, *t).len(),
        forall|i: int| 0 <= i < r@.len() ==> (#[trigger] r@[i]).warns(flagged(details@, *t)[i], *t),
{
    let ghost ds = details@;
    let mut out: Vec<FunctionDiagnostic> = Vec::new();
    let mut k: usize = 0;
    assert(ds.take(0) =~= Seq::<FunctionDetail>::empty());
    while k < details.len()
        invariant
            ds == details@,
            k <= ds.len(),
            out@.len() == flagged(ds.take(k as int), *t).len(),
            forall|i: int| 0 <= i < out@.len() ==> (#[trigger] out@[i]).warns(flagged(ds.take(k as int), *t)[i], *t),
        decreases ds.len() - k,
    {
        proof {
            assert(ds.take(k + 1).drop_last() =~= ds.take(k as int));
            assert(ds.take(k + 1).last() == ds[k as int]);
        }
        let ghost before = out@;
        if let Some(g) = diagnostic_for(&details[k], t) {
            out.push(g);
            proof {
                assert forall|i: int| 0 <= i < out@.len() implies (#[trigger] out@[i]).warns(flagged(ds.take(k + 1), *t)[i], *t) by {
                    if i < before.len() {
                        assert(out@[i] == before[i]);
                    }
                }
            }
        }
        k += 1;
    }
    assert(ds.take(ds.len() as int) =~= ds);
    out
}

/// The code lens title of a function: `bscc: CC=<cc> · <lines> lines`.
pub open spec fn lens_title(d: FunctionDetail) -> Seq<char> {
    "bscc: CC="@ + decimal(d.cyclomatic as nat) + seq![' ', '\u{b7}', ' '] + decimal(d.lines as nat)
        + " lines"@
}

/// The code lens of a function: on its first line (0-based), with its
/// complexity and length.
pub fn code_lens_for(d: &FunctionDetail) -> (r: (u32, String))
    ensures
        r.0 == zero_based(d.start_line),
        r.1@ == lens_title(*d),
{
    let mut title = String::from_str("bscc: CC=");
    push_decimal(&mut title, d.cyclomatic as u64);
    push_char(&mut title, ' ');
    push_char(&mut title, '\u{b7}');
    push_char(&mut title, ' ');
    push_decimal(&mut title, d.lines as u64);
    title.append(" lines");
    (d.start_line.saturating_sub(1), title)
}

} // verus!
