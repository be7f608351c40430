//! scc-style declarative tokenizer: one state machine shared by every
//! regex-tier language, driven by the comment and string markers of a
//! `LanguageConfig`.
use vstd::prelude::*;
use vstd::slice::slice_to_vec;
use vstd::utf8::encode_utf8;
use crate::metrics::FileMetrics;

verus! {

/// A regex-tier language: its name, the file extensions and file names it
/// claims, and the markers the tokenizer recognises.
pub struct LanguageConfig {
    pub name: String,
    pub extensions: Vec<String>,
    pub filenames: Vec<String>,
    pub line_comments: Vec<String>,
    pub block_comments: Vec<[String; 2]>,
    pub strings: Vec<[String; 2]>,
}

/// Line classification of one file.
pub struct Counts {
    pub lines: u32,
    pub code: u32,
    pub comments: u32,
    pub blanks: u32,
}

/// The string delimiters a language gets when its configuration names none:
/// the double quote, opening and closing.
pub fn default_strings() -> (r: Vec<[String; 2]>)
    ensures
        r@.len() == 1,
        r@[0][0]@ == seq!['"'],
        r@[0][1]@ == seq!['"'],
{
    let q1 = String::from_str("\"");
    let q2 = String::from_str("\"");
    proof {
        reveal_strlit("\"");
    }
    let mut v: Vec<[String; 2]> = Vec::new();
    v.push([q1, q2]);
    v
}

/// The bytes of a marker, as the tokenizer compares them.
pub open spec fn marker(s: String) -> Seq<u8> {
    encode_utf8(s@)
}

/// The bytes that `u8::is_ascii_whitespace` accepts.
pub open spec fn is_ascii_ws(b: u8) -> bool {
    b == 0x20u8 || b == 0x09u8 || b == 0x0au8 || b == 0x0cu8 || b == 0x0du8
}

/// `needle` occurs in `hay` at position `pos`.
pub open spec fn starts_at(hay: Seq<u8>, pos: int, needle: Seq<u8>) -> bool {
    &&& 0 <= pos
    &&& pos + needle.len() <= hay.len()
    &&& hay.subrange(pos, pos + needle.len()) == needle
}

/// Index of the first marker (from `k` on) that occurs at `pos`.
pub open spec fn first_from(markers: Seq<Seq<u8>>, hay: Seq<u8>, pos: int, k: int) -> Option<int>
    decreases markers.len() - k,
{
    if k < 0 || k >= markers.len() {
        None
    } else if starts_at(hay, pos, markers[k]) {
        Some(k)
    } else {
        first_from(markers, hay, pos, k + 1)
    }
}

/// The marker found is the first that occurs: `first_from` gives the
/// smallest index from `k` on whose marker occurs at `pos`, and `None` when
/// none does.
pub proof fn law_first_marker_wins(markers: Seq<Seq<u8>>, hay: Seq<u8>, pos: int, k: int)
    requires
        0 <= k,
    ensures
        first_from(markers, hay, pos, k) matches Some(j) ==> k <= j < markers.len() && starts_at(hay, pos, markers[j])
            && forall|q: int| k <= q < j ==> !starts_at(hay, pos, #[trigger] markers[q]),
        first_from(markers, hay, pos, k) is None ==> forall|q: int|
            k <= q < markers.len() ==> !starts_at(hay, pos, #[trigger] markers[q]),
    decreases markers.len() - k,
{
    if k < markers.len() && !starts_at(hay, pos, markers[k]) {
        law_first_marker_wins(markers, hay, pos, k + 1);
    }
}

/// The tokenizer's view of a configuration: marker bytes only.
pub struct Markers {
    pub line: Seq<Seq<u8>>,
    pub block_open: Seq<Seq<u8>>,
    pub block_close: Seq<Seq<u8>>,
    pub str_open: Seq<Seq<u8>>,
    pub str_close: Seq<Seq<u8>>,
}

impl LanguageConfig {
    pub open spec fn markers(&self) -> Markers {
        Markers {
            line: self.line_comments@.map_values(|s: String| marker(s)),
            block_open: self.block_comments@.map_values(|p: [String; 2]| marker(p[0])),
            block_close: self.block_comments@.map_values(|p: [String; 2]| marker(p[1])),
            str_open: self.strings@.map_values(|p: [String; 2]| marker(p[0])),
            str_close: self.strings@.map_values(|p: [String; 2]| marker(p[1])),
        }
    }

    /// No block-comment or string pair has both its markers empty. With such
    /// a pair the tokenizer would stand still on one byte for ever.
    pub open spec fn terminates(&self) -> bool {
        self.markers().terminates()
    }
}

impl Markers {
    pub open spec fn terminates(self) -> bool {
        &&& forall|k: int|
            0 <= k < self.block_open.len() ==> self.block_open[k].len() > 0 || #[trigger] self.block_close[k].len() > 0
        &&& forall|k: int|
            0 <= k < self.str_open.len() ==> self.str_open[k].len() > 0 || #[trigger] self.str_close[k].len() > 0
        &&& self.block_open.len() == self.block_close.len()
        &&& self.str_open.len() == self.str_close.len()
    }
}

/// Where the tokenizer stands between two bytes.
pub enum Mode {
    Code,
    LineComment,
    BlockComment(Seq<u8>),
    StringLit(Seq<u8>, bool),
}

/// The whole state of a scan: position, mode, what the current line has
/// shown so far, and the counts of the lines already closed.
pub struct Scan {
    pub i: int,
    pub mode: Mode,
    pub saw_code: bool,
    pub saw_comment: bool,
    pub lines: nat,
    pub code: nat,
    pub comments: nat,
    pub blanks: nat,
}

/// Close the current line: it is code if it showed code, else comment if
/// it showed a comment, else blank.
pub open spec fn close_line(s: Scan) -> Scan {
    Scan {
        lines: s.lines + 1,
        code: if s.saw_code { s.code + 1 } else { s.code },
        comments: if !s.saw_code && s.saw_comment { s.comments + 1 } else { s.comments },
        blanks: if !s.saw_code && !s.saw_comment { s.blanks + 1 } else { s.blanks },
        saw_code: false,
        saw_comment: false,
        ..s
    }
}

/// One step in code mode at byte `s.i` (not a newline): block-comment
/// openers are tried first, then line-comment markers, then string
/// openers; otherwise the byte is code unless it is whitespace.
pub open spec fn code_step(m: Markers, src: Seq<u8>, s: Scan) -> Scan {
    let b = src[s.i];
    match first_from(m.block_open, src, s.i, 0) {
        Some(k) => Scan {
            i: s.i + m.block_open[k].len(),
            mode: Mode::BlockComment(m.block_close[k]),
            saw_comment: true,
            ..s
        },
        None => match first_from(m.line, src, s.i, 0) {
            Some(k) => Scan {
                i: s.i + m.line[k].len(),
                mode: Mode::LineComment,
                saw_comment: true,
                ..s
            },
            None => match first_from(m.str_open, src, s.i, 0) {
                Some(k) => Scan {
                    i: s.i + m.str_open[k].len(),
                    mode: Mode::StringLit(m.str_close[k], true),
                    saw_code: true,
                    ..s
                },
                None => Scan {
                    i: s.i + 1,
                    mode: Mode::Code,
                    saw_code: s.saw_code || !is_ascii_ws(b),
                    ..s
                },
            },
        },
    }
}

/// One step of the tokenizer at byte `s.i < src.len()`.
pub open spec fn step(m: Markers, src: Seq<u8>, s: Scan) -> Scan {
    let b = src[s.i];
    if b == 0x0au8 {
        let c = close_line(s);
        Scan {
            i: s.i + 1,
            mode: if c.mode is LineComment { Mode::Code } else { c.mode },
            ..c
        }
    } else {
        match s.mode {
            Mode::Code => code_step(m, src, s),
            Mode::LineComment => Scan { i: s.i + 1, ..s },
            Mode::BlockComment(end) => {
                if starts_at(src, s.i, end) {
                    Scan { i: s.i + end.len(), mode: Mode::Code, saw_comment: true, ..s }
                } else {
                    Scan { i: s.i + 1, saw_comment: s.saw_comment || !is_ascii_ws(b), ..s }
                }
            },
            Mode::StringLit(end, esc) => {
                if esc && b == 0x5cu8 && s.i + 1 < src.len() && src[s.i + 1] != 0x0au8 {
                    Scan { i: s.i + 2, saw_code: true, ..s }
                } else if starts_at(src, s.i, end) {
                    Scan { i: s.i + end.len(), mode: Mode::Code, saw_code: true, ..s }
                } else {
                    Scan { i: s.i + 1, saw_code: true, ..s }
                }
            },
        }
    }
}

/// Rank of a mode in the termination measure of the scan.
pub open spec fn rank(mode: Mode) -> int {
    match mode {
        Mode::Code => 1,
        Mode::LineComment => 0,
        Mode::BlockComment(end) => if end.len() == 0 { 2 } else { 0 },
        Mode::StringLit(end, _) => if end.len() == 0 { 2 } else { 0 },
    }
}

pub open spec fn measure(src: Seq<u8>, s: Scan) -> int {
    2 * (src.len() - s.i) + rank(s.mode)
}

/// The scan state is one the tokenizer can reach.
pub open spec fn scan_ok(m: Markers, src: Seq<u8>, s: Scan) -> bool {
    &&& 0 <= s.i <= src.len()
    &&& m.terminates()
}

proof fn lemma_first_from(markers: Seq<Seq<u8>>, hay: Seq<u8>, pos: int, k: int)
    requires
        0 <= k,
    ensures
        first_from(markers, hay, pos, k) matches Some(j) ==> k <= j < markers.len() && starts_at(
            hay,
            pos,
            markers[j],
        ),
    decreases markers.len() - k,
{
    if k < markers.len() && !starts_at(hay, pos, markers[k]) {
        lemma_first_from(markers, hay, pos, k + 1);
    }
}

proof fn lemma_step_decreases(m: Markers, src: Seq<u8>, s: Scan)
    requires
        scan_ok(m, src, s),
        s.i < src.len(),
    ensures
        scan_ok(m, src, step(m, src, s)),
        measure(src, step(m, src, s)) < measure(src, s),
        s.i <= step(m, src, s).i,
        step(m, src, s).i <= src.len(),
{
    lemma_first_from(m.block_open, src, s.i, 0);
    lemma_first_from(m.line, src, s.i, 0);
    lemma_first_from(m.str_open, src, s.i, 0);
    let b = src[s.i];
    if b != 0x0au8 {
        match s.mode {
            Mode::Code => {
                match first_from(m.block_open, src, s.i, 0) {
                    Some(k) => {
                        assert(m.block_open[k].len() > 0 || m.block_close[k].len() > 0);
                    },
                    None => {
                        match first_from(m.line, src, s.i, 0) {
                            Some(k) => {},
                            None => {
                                match first_from(m.str_open, src, s.i, 0) {
                                    Some(k) => {
                                        assert(m.str_open[k].len() > 0 || m.str_close[k].len()
                                            > 0);
                                    },
                                    None => {},
                                }
                            },
                        }
                    },
                }
            },
            _ => {},
        }
    }
}

/// Run the tokenizer from `s` to the end of the source.
pub open spec fn run(m: Markers, src: Seq<u8>, s: Scan) -> Scan
    decreases measure(src, s),
    when scan_ok(m, src, s) && measure(src, s) >= 0
    via run_decreases
{
    if s.i >= src.len() {
        s
    } else {
        run(m, src, step(m, src, s))
    }
}

#[via_fn]
proof fn run_decreases(m: Markers, src: Seq<u8>, s: Scan) {
    if s.i < src.len() {
        lemma_step_decreases(m, src, s);
        let t = step(m, src, s);
        assert(measure(src, t) >= 0);
    }
}

/// The scan at the start of a file.
pub open spec fn start() -> Scan {
    Scan {
        i: 0,
        mode: Mode::Code,
        saw_code: false,
        saw_comment: false,
        lines: 0,
        code: 0,
        comments: 0,
        blanks: 0,
    }
}

/// The final classification: the scan to the end of the source, and one
/// more line when the file does not end with a newline.
pub open spec fn final_scan(m: Markers, src: Seq<u8>) -> Scan {
    let s = run(m, src, start());
    if src.len() > 0 && src[src.len() - 1] != 0x0au8 {
        close_line(s)
    } else {
        s
    }
}

/// Number of newline bytes in `src`.
pub open spec fn newlines(src: Seq<u8>) -> nat
    decreases src.len(),
{
    if src.len() == 0 {
        0
    } else {
        newlines(src.drop_last()) + if src.last() == 0x0au8 {
            1nat
        } else {
            0nat
        }
    }
}

/// Number of lines of a file: its newlines, plus one for a last line that
/// has no newline.
pub open spec fn line_count(src: Seq<u8>) -> nat {
    newlines(src) + if src.len() > 0 && src.last() != 0x0au8 {
        1nat
    } else {
        0nat
    }
}

impl Counts {
    pub open spec fn matches(&self, s: Scan) -> bool {
        &&& self.lines == s.lines
        &&& self.code == s.code
        &&& self.comments == s.comments
        &&& self.blanks == s.blanks
    }
}

proof fn lemma_newlines_prefix(src: Seq<u8>, i: int)
    requires
        0 <= i < src.len(),
    ensures
        newlines(src.take(i + 1)) == newlines(src.take(i)) + if src[i] == 0x0au8 {
            1nat
        } else {
            0nat
        },
{
    assert(src.take(i + 1).drop_last() =~= src.take(i));
}

proof fn lemma_newlines_monotone(src: Seq<u8>, i: int, j: int)
    requires
        0 <= i <= j <= src.len(),
    ensures
        newlines(src.take(i)) <= newlines(src.take(j)),
    decreases j - i,
{
    if i < j {
        lemma_newlines_prefix(src, j - 1);
        lemma_newlines_monotone(src, i, j - 1);
    }
}

/// One step keeps the counts partitioned into code, comment and blank
/// lines, and closes a line only at a newline byte.
proof fn lemma_step_counts(m: Markers, src: Seq<u8>, s: Scan)
    requires
        scan_ok(m, src, s),
        s.i < src.len(),
        s.lines == s.code + s.comments + s.blanks,
        s.lines <= newlines(src.take(s.i)),
    ensures
        ({
            let t = step(m, src, s);
            &&& t.lines == t.code + t.comments + t.blanks
            &&& t.lines <= newlines(src.take(t.i))
        }),
{
    lemma_step_decreases(m, src, s);
    lemma_first_from(m.block_open, src, s.i, 0);
    lemma_first_from(m.line, src, s.i, 0);
    lemma_first_from(m.str_open, src, s.i, 0);
    let t = step(m, src, s);
    lemma_newlines_prefix(src, s.i);
    if src[s.i] != 0x0au8 {
        lemma_newlines_monotone(src, s.i, t.i);
    }
}

proof fn lemma_run_counts(m: Markers, src: Seq<u8>, s: Scan)
    requires
        scan_ok(m, src, s),
        s.lines == s.code + s.comments + s.blanks,
        s.lines <= newlines(src.take(s.i)),
    ensures
        ({
            let t = run(m, src, s);
            &&& t.lines == t.code + t.comments + t.blanks
            &&& t.lines <= newlines(src)
            &&& t.i >= src.len()
        }),
    decreases measure(src, s),
{
    if s.i < src.len() {
        lemma_step_decreases(m, src, s);
        lemma_step_counts(m, src, s);
        lemma_run_counts(m, src, step(m, src, s));
    } else {
        assert(src.take(s.i) =~= src);
    }
}

/// Every counted line is exactly one of code, comment or blank, and the
/// tokenizer never counts more lines than the file has.
pub proof fn lemma_counts_partition(cfg: &LanguageConfig, src: Seq<u8>)
    requires
        cfg.terminates(),
    ensures
        ({
            let f = final_scan(cfg.markers(), src);
            &&& f.lines == f.code + f.comments + f.blanks
            &&& f.lines <= line_count(src)
            &&& line_count(src) <= src.len()
        }),
{
    let m = cfg.markers();
    assert(src.take(0) =~= Seq::<u8>::empty());
    lemma_run_counts(m, src, start());
    lemma_newlines_len(src);
}

/// `x` holds no newline byte.
pub open spec fn no_newline(x: Seq<u8>) -> bool {
    forall|j: int| 0 <= j < x.len() ==> #[trigger] x[j] != 0x0au8
}

impl Markers {
    /// No marker holds a newline byte.
    pub open spec fn newline_free(self) -> bool {
        &&& forall|k: int| 0 <= k < self.line.len() ==> no_newline(#[trigger] self.line[k])
        &&& forall|k: int| 0 <= k < self.block_open.len() ==> no_newline(#[trigger] self.block_open[k])
        &&& forall|k: int| 0 <= k < self.block_close.len() ==> no_newline(#[trigger] self.block_close[k])
        &&& forall|k: int| 0 <= k < self.str_open.len() ==> no_newline(#[trigger] self.str_open[k])
        &&& forall|k: int| 0 <= k < self.str_close.len() ==> no_newline(#[trigger] self.str_close[k])
    }
}

proof fn lemma_newlines_flat(src: Seq<u8>, a: int, b: int)
    requires
        0 <= a <= b <= src.len(),
        forall|j: int| a <= j < b ==> #[trigger] src[j] != 0x0au8,
    ensures
        newlines(src.take(b)) == newlines(src.take(a)),
    decreases b - a,
{
    if a < b {
        lemma_newlines_prefix(src, b - 1);
        lemma_newlines_flat(src, a, b - 1);
    }
}

proof fn lemma_marker_flat(src: Seq<u8>, pos: int, mk: Seq<u8>)
    requires
        starts_at(src, pos, mk),
        no_newline(mk),
    ensures
        newlines(src.take(pos + mk.len())) == newlines(src.take(pos)),
{
    assert forall|j: int| pos <= j < pos + mk.len() implies #[trigger] src[j] != 0x0au8 by {
        assert(src.subrange(pos, pos + mk.len())[j - pos] == src[j]);
        assert(mk[j - pos] != 0x0au8);
    }
    lemma_newlines_flat(src, pos, pos + mk.len());
}

/// The closing marker the scan waits for holds no newline byte.
pub open spec fn mode_newline_free(mode: Mode) -> bool {
    match mode {
        Mode::BlockComment(end) => no_newline(end),
        Mode::StringLit(end, _) => no_newline(end),
        _ => true,
    }
}

/// With newline-free markers, a step closes a line exactly at a newline.
proof fn lemma_step_lines(m: Markers, src: Seq<u8>, s: Scan)
    requires
        scan_ok(m, src, s),
        m.newline_free(),
        mode_newline_free(s.mode),
        s.i < src.len(),
        s.lines == newlines(src.take(s.i)),
    ensures
        step(m, src, s).lines == newlines(src.take(step(m, src, s).i)),
        mode_newline_free(step(m, src, s).mode),
{
    lemma_step_decreases(m, src, s);
    lemma_first_from(m.block_open, src, s.i, 0);
    lemma_first_from(m.line, src, s.i, 0);
    lemma_first_from(m.str_open, src, s.i, 0);
    lemma_newlines_prefix(src, s.i);
    let b = src[s.i];
    if b != 0x0au8 {
        match s.mode {
            Mode::Code => {
                match first_from(m.block_open, src, s.i, 0) {
                    Some(k) => {
                        lemma_marker_flat(src, s.i, m.block_open[k]);
                        assert(no_newline(m.block_close[k]));
                    },
                    None => {
                        match first_from(m.line, src, s.i, 0) {
                            Some(k) => {
                                lemma_marker_flat(src, s.i, m.line[k]);
                            },
                            None => {
                                match first_from(m.str_open, src, s.i, 0) {
                                    Some(k) => {
                                        lemma_marker_flat(src, s.i, m.str_open[k]);
                                        assert(no_newline(m.str_close[k]));
                                    },
                                    None => {},
                                }
                            },
                        }
                    },
                }
            },
            Mode::LineComment => {},
            Mode::BlockComment(end) => {
                if starts_at(src, s.i, end) {
                    lemma_marker_flat(src, s.i, end);
                }
            },
            Mode::StringLit(end, esc) => {
                if esc && b == 0x5cu8 && s.i + 1 < src.len() && src[s.i + 1] != 0x0au8 {
                    lemma_newlines_flat(src, s.i, s.i + 2);
                } else if starts_at(src, s.i, end) {
                    lemma_marker_flat(src, s.i, end);
                }
            },
        }
    }
}

proof fn lemma_run_lines(m: Markers, src: Seq<u8>, s: Scan)
    requires
        scan_ok(m, src, s),
        m.newline_free(),
        mode_newline_free(s.mode),
        s.lines == newlines(src.take(s.i)),
    ensures
        run(m, src, s).lines == newlines(src),
    decreases measure(src, s),
{
    if s.i < src.len() {
        lemma_step_decreases(m, src, s);
        lemma_step_lines(m, src, s);
        lemma_run_lines(m, src, step(m, src, s));
    } else {
        assert(src.take(s.i) =~= src);
    }
}

/// When no marker holds a newline byte, the tokenizer counts exactly the
/// lines of the file: every newline ends a line, whatever the scan is in
/// the middle of, and a last line without a newline counts too.
pub proof fn law_lines_are_file_lines(cfg: &LanguageConfig, src: Seq<u8>)
    requires
        cfg.terminates(),
        cfg.markers().newline_free(),
    ensures
        final_scan(cfg.markers(), src).lines == line_count(src),
{
    let m = cfg.markers();
    assert(src.take(0) =~= Seq::<u8>::empty());
    lemma_run_lines(m, src, start());
    if src.len() > 0 {
        assert(src.last() == src[src.len() - 1]);
    }
}

/// The scan after `n` steps from the start of the file (it stays put at the
/// end).
pub open spec fn scan_after(m: Markers, src: Seq<u8>, n: nat) -> Scan
    decreases n,
{
    if n == 0 {
        start()
    } else {
        let s = scan_after(m, src, (n - 1) as nat);
        if s.i < src.len() {
            step(m, src, s)
        } else {
            s
        }
    }
}

/// Every string the scan enters is one in which a backslash escapes the
/// byte after it.
pub proof fn law_strings_allow_escapes(m: Markers, src: Seq<u8>, n: nat)
    ensures
        scan_after(m, src, n).mode matches Mode::StringLit(_, esc) ==> esc,
    decreases n,
{
    if n > 0 {
        law_strings_allow_escapes(m, src, (n - 1) as nat);
    }
}

/// The scan that `count` finishes is the one every intermediate scan
/// leads to: running on from the scan after `n` steps ends where running
/// from the start does.
pub proof fn lemma_run_after(m: Markers, src: Seq<u8>, n: nat)
    requires
        m.terminates(),
    ensures
        scan_ok(m, src, scan_after(m, src, n)),
        run(m, src, scan_after(m, src, n)) == run(m, src, start()),
    decreases n,
{
    if n > 0 {
        lemma_run_after(m, src, (n - 1) as nat);
        let s = scan_after(m, src, (n - 1) as nat);
        if s.i < src.len() {
            lemma_step_decreases(m, src, s);
            assert(run(m, src, s) == run(m, src, step(m, src, s)));
        }
    }
}

/// Comments hold no code, and a line comment ends with its line: while
/// the scan is inside a comment, a byte other than a newline never marks
/// the line as code and keeps the scan inside a comment; a newline ends a
/// line comment and closes the line.
pub proof fn law_comments_hold_no_code(m: Markers, src: Seq<u8>, n: nat)
    ensures
        ({
            let s = scan_after(m, src, n);
            let t = scan_after(m, src, n + 1);
            &&& (0 <= s.i < src.len() && src[s.i] != 0x0au8 && (s.mode is LineComment || s.mode is BlockComment))
                ==> (t.saw_code == s.saw_code && t.lines == s.lines && (t.mode is LineComment || t.mode is BlockComment
                || (s.mode is BlockComment && t.mode is Code && t.saw_comment)))
            &&& (0 <= s.i < src.len() && src[s.i] == 0x0au8) ==> (t.lines == s.lines + 1 && !t.saw_code
                && !t.saw_comment && !(t.mode is LineComment))
        }),
{
}

/// A backslash never closes a string: whenever the tokenizer, on its way
/// through a file, stands inside a string on a backslash followed by a byte
/// other than a newline, its next step keeps it inside that same string and
/// skips both bytes, so an escaped closing quote does not end the literal.
pub proof fn law_backslash_never_closes_string(m: Markers, src: Seq<u8>, n: nat)
    ensures
        ({
            let s = scan_after(m, src, n);
            let t = scan_after(m, src, n + 1);
            (s.mode is StringLit && 0 <= s.i && s.i + 1 < src.len() && src[s.i] == 0x5cu8 && src[s.i + 1]
                != 0x0au8) ==> (t.mode == s.mode && t.i == s.i + 2 && t.lines == s.lines && t.saw_code)
        }),
{
    law_strings_allow_escapes(m, src, n);
}

proof fn lemma_run_plain(m: Markers, src: Seq<u8>, s: Scan)
    requires
        scan_ok(m, src, s),
        m.line.len() == 0,
        m.block_open.len() == 0,
        m.str_open.len() == 0,
        s.mode is Code,
        s.comments == 0,
        !s.saw_comment,
    ensures
        run(m, src, s).comments == 0,
        !run(m, src, s).saw_comment,
    decreases measure(src, s),
{
    if s.i < src.len() {
        lemma_step_decreases(m, src, s);
        lemma_run_plain(m, src, step(m, src, s));
    }
}

/// A language without comment or string markers has no comment lines:
/// every line the tokenizer counts is code or blank.
pub proof fn law_no_markers_no_comments(cfg: &LanguageConfig, src: Seq<u8>)
    requires
        cfg.line_comments@.len() == 0,
        cfg.block_comments@.len() == 0,
        cfg.strings@.len() == 0,
    ensures
        final_scan(cfg.markers(), src).comments == 0,
        final_scan(cfg.markers(), src).lines == final_scan(cfg.markers(), src).code + final_scan(
            cfg.markers(),
            src,
        ).blanks,
{
    let m = cfg.markers();
    assert(m.terminates());
    lemma_run_plain(m, src, start());
    lemma_counts_partition(cfg, src);
}

proof fn lemma_newlines_len(src: Seq<u8>)
    ensures
        newlines(src) <= src.len(),
        src.len() > 0 && src.last() != 0x0au8 ==> newlines(src) < src.len(),
    decreases src.len(),
{
    if src.len() > 0 {
        lemma_newlines_len(src.drop_last());
    }
}

proof fn lemma_run_monotone(m: Markers, src: Seq<u8>, s: Scan)
    requires
        scan_ok(m, src, s),
        s.lines == s.code + s.comments + s.blanks,
    ensures
        ({
            let t = run(m, src, s);
            &&& s.lines <= t.lines
            &&& s.code <= t.code
            &&& s.comments <= t.comments
            &&& s.blanks <= t.blanks
            &&& t.lines == t.code + t.comments + t.blanks
        }),
    decreases measure(src, s),
{
    if s.i < src.len() {
        lemma_step_decreases(m, src, s);
        lemma_run_monotone(m, src, step(m, src, s));
    }
}

/// Where the executable scan stands.
enum State {
    Code,
    LineComment,
    BlockComment(Vec<u8>),
    StringLit { end: Vec<u8>, allow_escape: bool },
}

impl State {
    spec fn mode(&self) -> Mode {
        match self {
            State::Code => Mode::Code,
            State::LineComment => Mode::LineComment,
            State::BlockComment(end) => Mode::BlockComment(end@),
            State::StringLit { end, allow_escape } => Mode::StringLit(end@, *allow_escape),
        }
    }
}

/// `needle` occurs in `haystack` at `pos`.
fn starts_with_at(haystack: &[u8], pos: usize, needle: &[u8]) -> (r: bool)
    ensures
        r == starts_at(haystack@, pos as int, needle@),
{
    if pos > haystack.len() || needle.len() > haystack.len() - pos {
        return false;
    }
    let mut k: usize = 0;
    while k < needle.len()
        invariant
            pos + needle.len() <= haystack.len(),
            k <= needle@.len(),
            forall|j: int| 0 <= j < k ==> haystack@[pos + j] == needle@[j],
        decreases needle@.len() - k,
    {
        if haystack[pos + k] != needle[k] {
            assert(haystack@.subrange(pos as int, pos + needle@.len())[k as int] != needle@[k as int]);
            return false;
        }
        k += 1;
    }
    assert(haystack@.subrange(pos as int, pos + needle@.len()) =~= needle@);
    true
}

/// One step in code mode: try the block-comment openers, then the line
/// comment markers, then the string openers, in configuration order.
fn step_code(
    src: &[u8],
    i: &mut usize,
    b: u8,
    cfg: &LanguageConfig,
    saw_code: &mut bool,
    saw_comment: &mut bool,
) -> (st: State)
    requires
        *old(i) < src@.len(),
        b == src@[*old(i) as int],
    ensures
        ({
            let s = Scan {
                i: *old(i) as int,
                mode: Mode::Code,
                saw_code: *old(saw_code),
                saw_comment: *old(saw_comment),
                lines: 0,
                code: 0,
                comments: 0,
                blanks: 0,
            };
            let t = code_step(cfg.markers(), src@, s);
            &&& *final(i) == t.i
            &&& st.mode() == t.mode
            &&& *final(saw_code) == t.saw_code
            &&& *final(saw_comment) == t.saw_comment
        }),
{
    let ghost m = cfg.markers();
    let ghost pos = *i as int;
    let mut k: usize = 0;
    while k < cfg.block_comments.len()
        invariant
            k <= cfg.block_comments@.len(),
            m == cfg.markers(),
            pos == *i,
            pos < src.len(),
            *i == *old(i),
            *saw_code == *old(saw_code),
            *saw_comment == *old(saw_comment),
            first_from(m.block_open, src@, pos, 0) == first_from(m.block_open, src@, pos, k as int),
        decreases cfg.block_comments@.len() - k,
    {
        let pair = &cfg.block_comments[k];
        let start = pair[0].as_str().as_bytes();
        assert(start@ == m.block_open[k as int]);
        if starts_with_at(src, *i, start) {
            *saw_comment = true;
            *i = *i + start.len();
            let end = slice_to_vec(pair[1].as_str().as_bytes());
            assert(end@ == m.block_close[k as int]);
            return State::BlockComment(end);
        }
        k += 1;
    }
    let mut k: usize = 0;
    while k < cfg.line_comments.len()
        invariant
            k <= cfg.line_comments@.len(),
            m == cfg.markers(),
            pos == *i,
            pos < src.len(),
            *i == *old(i),
            *saw_code == *old(saw_code),
            *saw_comment == *old(saw_comment),
            first_from(m.block_open, src@, pos, 0) is None,
            first_from(m.line, src@, pos, 0) == first_from(m.line, src@, pos, k as int),
        decreases cfg.line_comments@.len() - k,
    {
        let p = cfg.line_comments[k].as_str().as_bytes();
        assert(p@ == m.line[k as int]);
        if starts_with_at(src, *i, p) {
            *saw_comment = true;
            *i = *i + p.len();
            return State::LineComment;
        }
        k += 1;
    }
    let mut k: usize = 0;
    while k < cfg.strings.len()
        invariant
            k <= cfg.strings@.len(),
            m == cfg.markers(),
            pos == *i,
            pos < src.len(),
            *i == *old(i),
            *saw_code == *old(saw_code),
            *saw_comment == *old(saw_comment),
            first_from(m.block_open, src@, pos, 0) is None,
            first_from(m.line, src@, pos, 0) is None,
            first_from(m.str_open, src@, pos, 0) == first_from(m.str_open, src@, pos, k as int),
        decreases cfg.strings@.len() - k,
    {
        let pair = &cfg.strings[k];
        let start = pair[0].as_str().as_bytes();
        assert(start@ == m.str_open[k as int]);
        if starts_with_at(src, *i, start) {
            *saw_code = true;
            *i = *i + start.len();
            let end = slice_to_vec(pair[1].as_str().as_bytes());
            assert(end@ == m.str_close[k as int]);
            return State::StringLit { end, allow_escape: true };
        }
        k += 1;
    }
    if !(b == 0x20u8 || b == 0x09u8 || b == 0x0au8 || b == 0x0cu8 || b == 0x0du8) {
        *saw_code = true;
    }
    *i = *i + 1;
    State::Code
}

/// The scan that the executable variables stand for.
spec fn scan_of(
    i: usize,
    state: State,
    saw_code: bool,
    saw_comment: bool,
    counts: Counts,
) -> Scan {
    Scan {
        i: i as int,
        mode: state.mode(),
        saw_code,
        saw_comment,
        lines: counts.lines as nat,
        code: counts.code as nat,
        comments: counts.comments as nat,
        blanks: counts.blanks as nat,
    }
}

/// Classify every line of `source` as code, comment or blank.
///
/// A line is code if it holds a non-whitespace byte outside comments (a
/// string literal counts as code), else comment if it holds any part of a
/// comment, else blank. A newline ends the line whatever the scan is in: a
/// backslash in a string skips the byte after it, but never a newline. The
/// counts are those of `final_scan`; with markers free of newlines, the
/// line count is the file's.
pub fn count(cfg: &LanguageConfig, source: &[u8]) -> (c: Counts)
    requires
        cfg.terminates(),
        final_scan(cfg.markers(), source@).lines <= u32::MAX,
    ensures
        c.matches(final_scan(cfg.markers(), source@)),
        cfg.markers().newline_free() ==> c.lines == line_count(source@),
{
    let ghost m = cfg.markers();
    let ghost src = source@;
    let mut counts = Counts { lines: 0, code: 0, comments: 0, blanks: 0 };
    let mut state = State::Code;
    let mut saw_code = false;
    let mut saw_comment = false;
    let mut i: usize = 0;
    proof {
        assert(scan_of(i, state, saw_code, saw_comment, counts) == start());
        lemma_run_monotone(m, src, start());
    }
    while i < source.len()
        invariant
            m == cfg.markers(),
            src == source@,
            m.terminates(),
            i <= src.len(),
            run(m, src, scan_of(i, state, saw_code, saw_comment, counts)) == run(m, src, start()),
            counts.lines == counts.code + counts.comments + counts.blanks,
            run(m, src, start()).lines <= final_scan(m, src).lines,
            final_scan(m, src).lines <= u32::MAX,
        decreases measure(src, scan_of(i, state, saw_code, saw_comment, counts)),
    {
        let ghost s0 = scan_of(i, state, saw_code, saw_comment, counts);
        proof {
            lemma_step_decreases(m, src, s0);
            lemma_run_monotone(m, src, step(m, src, s0));
        }
        let b = source[i];
        if b == 0x0au8 {
            counts.lines = counts.lines + 1;
            if saw_code {
                counts.code = counts.code + 1;
            } else if saw_comment {
                counts.comments = counts.comments + 1;
            } else {
                counts.blanks = counts.blanks + 1;
            }
            saw_code = false;
            saw_comment = false;
            if matches!(state, State::LineComment) {
                state = State::Code;
            }
            i = i + 1;
            assert(scan_of(i, state, saw_code, saw_comment, counts) == step(m, src, s0));
            continue;
        }
        let cur = state;
        state = match cur {
            State::Code => step_code(source, &mut i, b, cfg, &mut saw_code, &mut saw_comment),
            State::LineComment => {
                i = i + 1;
                State::LineComment
            },
            State::BlockComment(end) => {
                if starts_with_at(source, i, end.as_slice()) {
                    saw_comment = true;
                    i = i + end.len();
                    State::Code
                } else {
                    if !(b == 0x20u8 || b == 0x09u8 || b == 0x0au8 || b == 0x0cu8 || b == 0x0du8) {
                        saw_comment = true;
                    }
                    i = i + 1;
                    State::BlockComment(end)
                }
            },
            State::StringLit { end, allow_escape } => {
                if allow_escape && b == 0x5cu8 && i + 1 < source.len() && source[i + 1] != 0x0au8 {
                    saw_code = true;
                    i = i + 2;
                    State::StringLit { end, allow_escape }
                } else if starts_with_at(source, i, end.as_slice()) {
                    saw_code = true;
                    i = i + end.len();
                    State::Code
                } else {
                    saw_code = true;
                    i = i + 1;
                    State::StringLit { end, allow_escape }
                }
            },
        };
        assert(scan_of(i, state, saw_code, saw_comment, counts) == step(m, src, s0));
    }
    let ghost s_end = scan_of(i, state, saw_code, saw_comment, counts);
    assert(run(m, src, s_end) == s_end);
    if !source.is_empty() && source[source.len() - 1] != 0x0au8 {
        counts.lines = counts.lines + 1;
        if saw_code {
            counts.code = counts.code + 1;
        } else if saw_comment {
            counts.comments = counts.comments + 1;
        } else {
            counts.blanks = counts.blanks + 1;
        }
    }
    proof {
        if cfg.markers().newline_free() {
            law_lines_are_file_lines(cfg, source@);
        }
    }
    counts
}

impl LanguageConfig {
    /// Whether no block-comment or string pair has both markers empty.
    pub fn markers_terminate(&self) -> (r: bool)
        ensures
            r == self.terminates(),
    {
        let ghost m = self.markers();
        let mut k: usize = 0;
        while k < self.block_comments.len()
            invariant
                m == self.markers(),
                k <= self.block_comments@.len(),
                forall|q: int| 0 <= q < k ==> m.block_open[q].len() > 0 || #[trigger] m.block_close[q].len() > 0,
            decreases self.block_comments@.len() - k,
        {
            let pair = &self.block_comments[k];
            let a = pair[0].as_str().as_bytes().len();
            let b = pair[1].as_str().as_bytes().len();
            assert(a == m.block_open[k as int].len() && b == m.block_close[k as int].len());
            if a == 0 && b == 0 {
                return false;
            }
            k += 1;
        }
        let mut k: usize = 0;
        while k < self.strings.len()
            invariant
                m == self.markers(),
                k <= self.strings@.len(),
                forall|q: int| 0 <= q < self.block_comments@.len() ==> m.block_open[q].len() > 0 || #[trigger] m.block_close[q].len() > 0,
                forall|q: int| 0 <= q < k ==> m.str_open[q].len() > 0 || #[trigger] m.str_close[q].len() > 0,
            decreases self.strings@.len() - k,
        {
            let pair = &self.strings[k];
            let a = pair[0].as_str().as_bytes().len();
            let b = pair[1].as_str().as_bytes().len();
            assert(a == m.str_open[k as int].len() && b == m.str_close[k as int].len());
            if a == 0 && b == 0 {
                return false;
            }
            k += 1;
        }
        true
    }
}

/// The regex-tier analyzer of one language.
pub struct RegexAnalyzer {
    cfg: LanguageConfig,
}

impl RegexAnalyzer {
    #[verifier::type_invariant]
    spec fn inv(self) -> bool {
        self.cfg.terminates()
    }

    /// The configuration the analyzer tokenizes with.
    pub closed spec fn config(&self) -> LanguageConfig {
        self.cfg
    }

    pub fn new(cfg: LanguageConfig) -> (r: Self)
        requires
            cfg.terminates(),
        ensures
            r.config() == cfg,
    {
        RegexAnalyzer { cfg }
    }
}

impl crate::registry::Analyzer for RegexAnalyzer {
    /// Line counts of the tokenizer; the language is the configuration's
    /// name, and no tree-sitter-only field is filled.
    fn analyze(&self, path: &str, source: &[u8]) -> (m: FileMetrics)
        ensures
            m.language@ == self.config().name@,
            m.matches_counts(final_scan(self.config().markers(), source@)),
            m.no_ast_fields(),
    {
        proof {
            use_type_invariant(self);
            lemma_counts_partition(&self.cfg, source@);
        }
        let counts = count(&self.cfg, source);
        let mut m = FileMetrics::new(path.to_owned(), self.cfg.name.clone(), source.len() as u64);
        m.lines = counts.lines;
        m.code = counts.code;
        m.comments = counts.comments;
        m.blanks = counts.blanks;
        m
    }

    /// The regex tier has no per-function data.
    fn explain(&self, path: &str, source: &[u8]) -> (r: Option<Vec<crate::ast::FunctionDetail>>)
        ensures
            r is None,
    {
        None
    }
}

impl FileMetrics {
    pub open spec fn matches_counts(&self, s: Scan) -> bool {
        &&& self.lines == s.lines
        &&& self.code == s.code
        &&& self.comments == s.comments
        &&& self.blanks == s.blanks
    }
}

/// A file has no more lines than bytes.
pub proof fn lemma_counts_partition_len(src: Seq<u8>)
    ensures
        line_count(src) <= src.len(),
{
    lemma_newlines_len(src);
}

} // verus!
