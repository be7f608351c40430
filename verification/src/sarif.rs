//! SARIF: one warning per file and threshold it exceeds, and the fixed
//! envelope of the log. Turning them into JSON happens in the program.
use vstd::prelude::*;
use crate::fmt::{decimal, push_decimal};
use crate::metrics::FileMetrics;
use crate::report::Report;

verus! {

/// Thresholds that cause a file to produce a SARIF result.
pub struct SarifThresholds {
    pub cyclomatic_max: u32,
    pub longest_function_lines: u32,
}

impl Default for SarifThresholds {
    fn default() -> (t: Self)
        ensures
            t.cyclomatic_max == 10,
            t.longest_function_lines == 100,
    {
        SarifThresholds { cyclomatic_max: 10, longest_function_lines: 100 }
    }
}

/// The SARIF exporter.
pub struct SarifExporter {
    pub thresholds: SarifThresholds,
}

impl Default for SarifExporter {
    fn default() -> (e: Self)
        ensures
            e.thresholds.cyclomatic_max == 10,
            e.thresholds.longest_function_lines == 100,
    {
        SarifExporter { thresholds: SarifThresholds::default() }
    }
}

/// Where a result points: the file, by its path.
pub struct SarifLocation {
    pub uri: String,
}

/// One SARIF result.
pub struct SarifResult {
    pub rule_id: &'static str,
    pub level: &'static str,
    pub message: String,
    pub locations: Vec<SarifLocation>,
}

/// A result in mathematical form: rule, message and location.
pub struct Finding {
    pub rule: Seq<char>,
    pub message: Seq<char>,
    pub uri: Seq<char>,
}

pub open spec fn cc_message(cc: u32, t: u32) -> Seq<char> {
    "Cyclomatic complexity "@ + decimal(cc as nat) + " exceeds threshold "@ + decimal(t as nat)
}

pub open spec fn len_message(len: u32, t: u32) -> Seq<char> {
    "Longest function "@ + decimal(len as nat) + " lines exceeds threshold "@ + decimal(t as nat)
}

/// The results of one file: the cyclomatic one if its maximum exceeds the
/// threshold, then the length one if its longest function does.
pub open spec fn file_findings(f: FileMetrics, th: SarifThresholds) -> Seq<Finding> {
    let a = match f.cyclomatic_max {
        Some(cc) => if cc > th.cyclomatic_max {
            seq![Finding { rule: "complexity/cyclomatic"@, message: cc_message(cc, th.cyclomatic_max), uri: f.path@ }]
        } else {
            seq![]
        },
        None => seq![],
    };
    let b = match f.longest_function_lines {
        Some(len) => if len > th.longest_function_lines {
            seq![Finding { rule: "size/longest-function"@, message: len_message(len, th.longest_function_lines), uri: f.path@ }]
        } else {
            seq![]
        },
        None => seq![],
    };
    a + b
}

/// The results of all files, in report order.
pub open spec fn all_findings(files: Seq<FileMetrics>, th: SarifThresholds) -> Seq<Finding>
    decreases files.len(),
{
    if files.len() == 0 {
        seq![]
    } else {
        all_findings(files.drop_last(), th) + file_findings(files.last(), th)
    }
}

impl SarifResult {
    /// A warning with one location.
    pub open spec fn is(&self, g: Finding) -> bool {
        &&& self.rule_id@ == g.rule
        &&& self.level@ == "warning"@
        &&& self.message@ == g.message
        &&& self.locations@.len() == 1
        &&& self.locations@[0].uri@ == g.uri
    }
}

/// The location of a file.
pub fn file_location(path: &String) -> (l: SarifLocation)
    ensures
        l.uri@ == path@,
{
    SarifLocation { uri: path.clone() }
}

fn result_for(rule_id: &'static str, message: String, path: &String) -> (r: SarifResult)
    ensures
        r.rule_id == rule_id,
        r.level@ == "warning"@,
        r.message == message,
        r.locations@.len() == 1,
        r.locations@[0].uri@ == path@,
{
    let mut locations = Vec::new();
    locations.push(file_location(path));
    SarifResult { rule_id, level: "warning", message, locations }
}

impl SarifExporter {
    /// The SARIF results of the report: for each file in order, a
    /// `complexity/cyclomatic` warning when its cyclomatic maximum exceeds
    /// the threshold, then a `size/longest-function` warning when its
    /// longest function does.
    pub fn results(&self, report: &Report) -> (r: Vec<SarifResult>)
        ensures
            r@.len() == all_findings(report.files@, self.thresholds).len(),
            forall|i: int|
                0 <= i < r@.len() ==> (#[trigger] r@[i]).is(all_findings(report.files@, self.thresholds)[i]),
    {
        let ghost files = report.files@;
        let ghost th = self.thresholds;
        let mut out: Vec<SarifResult> = Vec::new();
        let mut k: usize = 0;
        assert(files.take(0) =~= Seq::<FileMetrics>::empty());
        while k < report.files.len()
            invariant
                files == report.files@,
                th == self.thresholds,
                k <= files.len(),
                out@.len() == all_findings(files.take(k as int), th).len(),
                forall|i: int|
                    0 <= i < out@.len() ==> (#[trigger] out@[i]).is(all_findings(files.take(k as int), th)[i]),
            decreases files.len() - k,
        {
            let f = &report.files[k];
            let ghost before = all_findings(files.take(k as int), th);
            let ghost n0 = out@.len();
            proof {
                assert(files.take(k + 1).drop_last() =~= files.take(k as int));
                assert(files.take(k + 1).last() == *f);
            }
            if let Some(cc) = f.cyclomatic_max {
                if cc > self.thresholds.cyclomatic_max {
                    let mut msg = String::from_str("Cyclomatic complexity ");
                    push_decimal(&mut msg, cc as u64);
                    msg.append(" exceeds threshold ");
                    push_decimal(&mut msg, self.thresholds.cyclomatic_max as u64);
                    out.push(result_for("complexity/cyclomatic", msg, &f.path));
                }
            }
            let ghost n1 = out@.len();
            if let Some(len) = f.longest_function_lines {
                if len > self.thresholds.longest_function_lines {
                    let mut msg = String::from_str("Longest function ");
                    push_decimal(&mut msg, len as u64);
                    msg.append(" lines exceeds threshold ");
                    push_decimal(&mut msg, self.thresholds.longest_function_lines as u64);
                    out.push(result_for("size/longest-function", msg, &f.path));
                }
            }
            proof {
                let ff = file_findings(*f, th);
                let after = all_findings(files.take(k + 1), th);
                assert(after =~= before + ff);
                assert(out@.len() == after.len());
                assert forall|i: int| 0 <= i < out@.len() implies (#[trigger] out@[i]).is(after[i]) by {
                    if i < n0 {
                        assert(after[i] == before[i]);
                    } else {
                        assert(after[i] == ff[i - n0]);
                    }
                }
            }
            k += 1;
        }
        proof {
            assert(files.take(files.len() as int) =~= files);
        }
        out
    }
}

/// A rule the results can name: its id, its name and a one-line
/// description.
pub struct SarifRule {
    pub id: &'static str,
    pub name: &'static str,
    pub description: &'static str,
}

/// The fixed part of the SARIF log around the results: the format version,
/// the schema, the tool and the rules it reports under.
pub struct SarifEnvelope {
    pub version: &'static str,
    pub schema: &'static str,
    pub tool_name: &'static str,
    pub information_uri: &'static str,
    pub rules: Vec<SarifRule>,
}

impl SarifExporter {
    /// The SARIF 2.1.0 envelope: version `2.1.0`, the 2.1.0 schema, the
    /// tool `bscc` and its two rules, the cyclomatic one first.
    pub fn envelope(&self) -> (e: SarifEnvelope)
        ensures
            e.version@ == "2.1.0"@,
            e.schema@ == "https://json.schemastore.org/sarif-2.1.0.json"@,
            e.tool_name@ == "bscc"@,
            e.information_uri@ == "https://github.com/i-doll/bscc"@,
            e.rules@.len() == 2,
            e.rules@[0].id@ == "complexity/cyclomatic"@,
            e.rules@[0].name@ == "CyclomaticComplexity"@,
            e.rules@[0].description@ == "Function cyclomatic complexity exceeds threshold"@,
            e.rules@[1].id@ == "size/longest-function"@,
            e.rules@[1].name@ == "LongestFunctionLines"@,
            e.rules@[1].description@ == "Function length exceeds threshold"@,
    {
        let mut rules: Vec<SarifRule> = Vec::new();
        rules.push(
            SarifRule {
                id: "complexity/cyclomatic",
                name: "CyclomaticComplexity",
                description: "Function cyclomatic complexity exceeds threshold",
            },
        );
        rules.push(
            SarifRule {
                id: "size/longest-function",
                name: "LongestFunctionLines",
                description: "Function length exceeds threshold",
            },
        );
        SarifEnvelope {
            version: "2.1.0",
            schema: "https://json.schemastore.org/sarif-2.1.0.json",
            tool_name: "bscc",
            information_uri: "https://github.com/i-doll/bscc",
            rules,
        }
    }
}

} // verus!
