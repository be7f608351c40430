//! Per-file metrics shared by both analysis tiers.
use vstd::prelude::*;

verus! {

/// Per-file metrics. Regex-tier analyzers fill the line counts and leave
/// the tree-sitter-only fields as `None`; tree-sitter-tier analyzers fill
/// both. The path is held as text, as the exporters print it.
pub struct FileMetrics {
    pub path: String,
    pub language: String,
    pub bytes: u64,
    pub lines: u32,
    pub code: u32,
    pub comments: u32,
    pub blanks: u32,
    pub functions: Option<u32>,
    pub cyclomatic_total: Option<u32>,
    pub cyclomatic_max: Option<u32>,
    pub cognitive: Option<u32>,
    pub max_nesting_depth: Option<u32>,
    pub longest_function_lines: Option<u32>,
    pub todo_comments: Option<u32>,
    pub imports: Option<u32>,
}

impl FileMetrics {
    /// No tree-sitter-only metric is present.
    pub open spec fn no_ast_fields(&self) -> bool {
        &&& self.functions is None
        &&& self.cyclomatic_total is None
        &&& self.cyclomatic_max is None
        &&& self.cognitive is None
        &&& self.max_nesting_depth is None
        &&& self.longest_function_lines is None
        &&& self.todo_comments is None
        &&& self.imports is None
    }

    /// Metrics of a file not yet analysed: all counts zero, no
    /// tree-sitter-only field.
    pub fn new(path: String, language: String, bytes: u64) -> (m: Self)
        ensures
            m.path@ == path@,
            m.language@ == language@,
            m.bytes == bytes,
            m.lines == 0,
            m.code == 0,
            m.comments == 0,
            m.blanks == 0,
            m.no_ast_fields(),
    {
        FileMetrics {
            path,
            language,
            bytes,
            lines: 0,
            code: 0,
            comments: 0,
            blanks: 0,
            functions: None,
            cyclomatic_total: None,
            cyclomatic_max: None,
            cognitive: None,
            max_nesting_depth: None,
            longest_function_lines: None,
            todo_comments: None,
            imports: None,
        }
    }
}

} // verus!
