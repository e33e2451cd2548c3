//! JSR-45 `SourceDebugExtension` (SMAP) parsing.
//!
//! A Kotlin class that inlines a function carries line numbers past the end
//! of its own source file: positions in a composite file that exists only
//! inside the SMAP. The `KotlinDebug` stratum maps each of those output lines
//! back to the call site in the real file, which is the line the reader of
//! that file can act on:
//!
//! ```text
//! *S KotlinDebug
//! *F
//! + 1 Orders.kt
//! demo/Processor
//! *L
//! 56#1:82,4      <- output lines 82..85 are all line 56 of file 1
//! 79#1:86        <- output line 86 is line 79
//! *E
//! ```

use vstd::prelude::*;
use vstd::string::StringExecFns;

use crate::text::{
    after_prefix, before, chars_are, chars_of, comes_before, decimal, decimal_text, find_char,
    lemma_find_char, lemma_found_at, lines, parse_u32, parsed_u32, precedes, precedes_is_total,
    precedes_is_transitive, printed_number_reads_back, same, split_lines, split_once, starts_with,
    string_from_chars, trim, trim_end, trim_tail, trimmed, trimming_twice_is_trimming,
};

verus! {

/// One `*L` entry: a run of output lines standing for a run of input lines.
///
/// The grammar is
/// `InputStartLine#LineFileID,RepeatCount:OutputStartLine,OutputLineIncrement`,
/// with `RepeatCount` and `OutputLineIncrement` both defaulting to 1.
#[derive(Debug, Clone, Copy, PartialEq, Eq)]
pub struct LineMapping {
    pub input_start: u32,
    pub file_id: u32,
    pub repeat: u32,
    pub output_start: u32,
    pub output_increment: u32,
}

pub open spec fn at_least_one(n: u32) -> int {
    if n == 0 {
        1
    } else {
        n as int
    }
}

impl LineMapping {
    /// How many output lines the entry covers.
    pub open spec fn span(self) -> int {
        at_least_one(self.repeat) * at_least_one(self.output_increment)
    }

    /// Whether the entry covers an output line.
    pub open spec fn covers(self, output: int) -> bool {
        self.output_start <= output < self.output_start + self.span()
    }

    /// The input line that a covered output line stands for.
    pub open spec fn input_line(self, output: int) -> int {
        self.input_start + (output - self.output_start) / at_least_one(self.output_increment)
    }

    /// The last input line that the entry names.
    pub open spec fn last_input(self) -> int {
        self.input_start + at_least_one(self.repeat) - 1
    }

    /// The input line of an output line that the mapping covers.
    pub(crate) fn line_of(&self, output: u32) -> (r: Option<u64>)
        ensures
            match r {
                Some(line) => self.covers(output as int) && line == self.input_line(output as int),
                None => !self.covers(output as int),
            },
    {
        let repeat: u64 = if self.repeat == 0 {
            1
        } else {
            self.repeat as u64
        };
        let increment: u64 = if self.output_increment == 0 {
            1
        } else {
            self.output_increment as u64
        };
        proof {
            assert(repeat * increment <= 0xffff_ffff * 0xffff_ffff) by (nonlinear_arith)
                requires
                    0 <= repeat <= 0xffff_ffff,
                    0 <= increment <= 0xffff_ffff,
            ;
        }
        let span: u64 = repeat * increment;
        if output < self.output_start || output as u64 >= self.output_start as u64 + span {
            return None;
        }
        let offset: u64 = (output - self.output_start) as u64 / increment;
        proof {
            assert(offset <= output - self.output_start) by (nonlinear_arith)
                requires
                    increment >= 1,
                    output >= self.output_start,
                    offset == (output - self.output_start) as u64 / increment,
            ;
        }
        let input: u64 = self.input_start as u64 + offset;
        Some(input)
    }

    /// The input line an output line stands for and its file, if this
    /// mapping covers it.
    pub fn resolve(&self, output: u32) -> (r: Option<(u32, u32)>)
        requires
            self.covers(output as int) ==> self.input_line(output as int) <= u32::MAX,
        ensures
            r == (if self.covers(output as int) {
                Some((self.input_line(output as int) as u32, self.file_id))
            } else {
                None
            }),
    {
        match self.line_of(output) {
            Some(line) => Some((line as u32, self.file_id)),
            None => None,
        }
    }
}

/// What an output line turned out to mean.
#[derive(Debug, Clone, PartialEq, Eq)]
pub enum Resolution {
    /// A real line in the class's own source file.
    Resolved(u32),
    /// A line belonging to some other file, inlined into this class.
    Foreign {
        /// The declared name of that file.
        file: String,
    },
}

/// A resolution as plain text.
pub enum ResolutionView {
    Resolved(u32),
    Foreign(Seq<char>),
}

impl View for Resolution {
    type V = ResolutionView;

    open spec fn view(&self) -> ResolutionView {
        match *self {
            Resolution::Resolved(line) => ResolutionView::Resolved(line),
            Resolution::Foreign { file } => ResolutionView::Foreign(file@),
        }
    }
}

/// Which `*` section the parser is inside.
#[derive(Debug, Clone, Copy, PartialEq, Eq)]
pub enum Section {
    Other,
    Files,
    Lines,
}

/// The entry that `s` writes: every part but the two start lines is optional.
pub open spec fn mapping_of(s: Seq<char>) -> Option<LineMapping> {
    let colon = find_char(s, ':', 0);
    if colon >= s.len() {
        None
    } else {
        let lhs = s.take(colon);
        let rhs = s.skip(colon + 1);
        let (input_part, repeat) = optional_tail(lhs, ',');
        let (input_text, file_id) = optional_tail(input_part, '#');
        let (output_text, increment) = optional_tail(rhs, ',');
        match (
            repeat,
            parsed_u32(trimmed(input_text)),
            file_id,
            parsed_u32(trimmed(output_text)),
            increment,
        ) {
            (
                Some(repeat),
                Some(input_start),
                Some(file_id),
                Some(output_start),
                Some(output_increment),
            ) => Some(
                LineMapping { input_start, file_id, repeat, output_start, output_increment },
            ),
            _ => None,
        }
    }
}

/// What stands before the first `c`, and the number that stands behind it:
/// one when there is no `c`, none when what follows is no number.
pub open spec fn optional_tail(s: Seq<char>, c: char) -> (Seq<char>, Option<u32>) {
    let k = find_char(s, c, 0);
    if k >= s.len() {
        (s, Some(1))
    } else {
        (s.take(k), parsed_u32(trimmed(s.skip(k + 1))))
    }
}

/// What the parser has read: the stratum and section it is in, every mapping
/// and every file name with the stratum it belongs to.
#[verifier::ext_equal]
pub struct ScanView {
    pub current: Seq<char>,
    pub section: Section,
    pub mappings: Seq<(Seq<char>, LineMapping)>,
    pub files: Seq<(Seq<char>, u32, Seq<char>)>,
}

/// The file that a line of a file section declares: `<id> <name>`.
pub open spec fn file_of(s: Seq<char>) -> Option<(u32, Seq<char>)> {
    let t = trimmed(s);
    let k = find_char(t, ' ', 0);
    if k >= t.len() {
        None
    } else {
        match parsed_u32(trimmed(t.take(k))) {
            Some(id) => Some((id, trimmed(t.skip(k + 1)))),
            None => None,
        }
    }
}

/// The state after one line, and how many lines were read: a `+` entry of a
/// file section is followed by a path line.
pub open spec fn scan_line(st: ScanView, line: Seq<char>) -> (ScanView, int) {
    if starts_with(line, "*S "@) {
        (ScanView { current: trimmed(line.skip(3)), section: Section::Other, ..st }, 1)
    } else if line == "*F"@ {
        (ScanView { section: Section::Files, ..st }, 1)
    } else if line == "*L"@ {
        (ScanView { section: Section::Lines, ..st }, 1)
    } else if line.len() > 0 && line[0] == '*' {
        (ScanView { section: Section::Other, ..st }, 1)
    } else {
        match st.section {
            Section::Files => {
                let has_path = starts_with(line, "+ "@);
                let entry = if has_path {
                    line.skip(2)
                } else {
                    line
                };
                let next = match file_of(entry) {
                    Some((id, name)) => ScanView {
                        files: st.files.push((st.current, id, name)),
                        ..st
                    },
                    None => st,
                };
                (next, if has_path {
                    2
                } else {
                    1
                })
            },
            Section::Lines => (
                match mapping_of(trimmed(line)) {
                    Some(m) => ScanView { mappings: st.mappings.push((st.current, m)), ..st },
                    None => st,
                },
                1,
            ),
            Section::Other => (st, 1),
        }
    }
}

/// The state after the lines from `i` up to `*E` or the end.
pub open spec fn scan(text: Seq<Seq<char>>, i: int, st: ScanView) -> ScanView
    decreases text.len() + 1 - i,
{
    if i < 0 || i >= text.len() || trim_end(text[i]) == "*E"@ {
        st
    } else {
        let (next, n) = scan_line(st, trim_end(text[i]));
        if n <= 0 {
            st
        } else {
            scan(text, i + n, next)
        }
    }
}

/// The mappings that belong to a stratum, in order.
pub open spec fn mappings_of(
    all: Seq<(Seq<char>, LineMapping)>,
    stratum: Seq<char>,
) -> Seq<LineMapping>
    decreases all.len(),
{
    if all.len() == 0 {
        Seq::empty()
    } else {
        let rest = mappings_of(all.drop_last(), stratum);
        if all.last().0 == stratum {
            rest.push(all.last().1)
        } else {
            rest
        }
    }
}

/// The file names that a stratum declares, in order.
pub open spec fn files_of(
    all: Seq<(Seq<char>, u32, Seq<char>)>,
    stratum: Seq<char>,
) -> Seq<(u32, Seq<char>)>
    decreases all.len(),
{
    if all.len() == 0 {
        Seq::empty()
    } else {
        let rest = files_of(all.drop_last(), stratum);
        if all.last().0 == stratum {
            rest.push((all.last().1, all.last().2))
        } else {
            rest
        }
    }
}

/// Whether a stratum has a mapping.
pub open spec fn has_mappings(all: Seq<(Seq<char>, LineMapping)>, stratum: Seq<char>) -> bool {
    exists|k: int| 0 <= k < all.len() && (#[trigger] all[k]).0 == stratum
}

/// The first name, in the order of texts, of a stratum that has a mapping.
pub open spec fn least_stratum(all: Seq<(Seq<char>, LineMapping)>) -> Seq<char>
    recommends
        all.len() > 0,
    decreases all.len(),
{
    if all.len() <= 1 {
        all[0].0
    } else {
        let rest = least_stratum(all.drop_last());
        if precedes(all.last().0, rest) {
            all.last().0
        } else {
            rest
        }
    }
}

/// Which stratum is used: `KotlinDebug`, then the declared default, then the
/// first by name, of those that have a mapping.
pub open spec fn chosen_stratum(
    all: Seq<(Seq<char>, LineMapping)>,
    default: Seq<char>,
) -> Option<Seq<char>> {
    if has_mappings(all, "KotlinDebug"@) {
        Some("KotlinDebug"@)
    } else if has_mappings(all, default) {
        Some(default)
    } else if all.len() > 0 {
        Some(least_stratum(all))
    } else {
        None
    }
}

/// A source map as plain values.
#[verifier::ext_equal]
pub struct SourceMapView {
    pub mappings: Seq<LineMapping>,
    pub files: Seq<(u32, Seq<char>)>,
    pub stratum: Seq<char>,
}

/// The state before anything is read: in the default stratum, in no section.
pub open spec fn scan_start(default: Seq<char>) -> ScanView {
    ScanView {
        current: default,
        section: Section::Other,
        mappings: Seq::empty(),
        files: Seq::empty(),
    }
}

/// The map that an SMAP payload holds.
pub open spec fn source_map(text: Seq<char>) -> Option<SourceMapView> {
    let all = lines(text);
    if all.len() < 3 || trimmed(all[0]) != "SMAP"@ {
        None
    } else {
        let default = trimmed(all[2]);
        let end = scan(all, 3, scan_start(default));
        match chosen_stratum(end.mappings, default) {
            Some(stratum) => Some(
                SourceMapView {
                    mappings: mappings_of(end.mappings, stratum),
                    files: files_of(end.files, stratum),
                    stratum,
                },
            ),
            None => None,
        }
    }
}

/// The name declared last for a file id.
pub open spec fn file_name(files: Seq<(u32, Seq<char>)>, id: u32) -> Option<Seq<char>>
    decreases files.len(),
{
    if files.len() == 0 {
        None
    } else if files.last().0 == id {
        Some(files.last().1)
    } else {
        file_name(files.drop_last(), id)
    }
}

/// The first mapping that covers an output line, from the `k`-th on.
pub open spec fn covering(
    mappings: Seq<LineMapping>,
    output: int,
    k: int,
) -> Option<LineMapping>
    decreases mappings.len() - k,
{
    if k < 0 || k >= mappings.len() {
        None
    } else if mappings[k].covers(output) {
        Some(mappings[k])
    } else {
        covering(mappings, output, k + 1)
    }
}

impl SourceMapView {
    /// Whether every input line that the map names is a line number.
    pub open spec fn fits(self) -> bool {
        forall|k: int|
            0 <= k < self.mappings.len() ==> (#[trigger] self.mappings[k]).last_input()
                <= u32::MAX
    }

    /// What an output line means: the input line of the first mapping that
    /// covers it when that names the class's own file, the other file's name
    /// when it does not, and the line itself when no mapping covers it.
    pub open spec fn meaning(self, output: u32) -> ResolutionView {
        match covering(self.mappings, output as int, 0) {
            Some(m) => if m.file_id == 1 {
                ResolutionView::Resolved(m.input_line(output as int) as u32)
            } else {
                ResolutionView::Foreign(
                    match file_name(self.files, m.file_id) {
                        Some(name) => name,
                        None => "file #"@ + decimal(m.file_id as nat),
                    },
                )
            },
            None => ResolutionView::Resolved(output),
        }
    }
}

/// The largest line that one of the first `k` mappings covers, or zero.
pub open spec fn max_output(mappings: Seq<LineMapping>, k: int) -> int
    decreases k,
{
    if k <= 0 || k > mappings.len() {
        0
    } else {
        let rest = max_output(mappings, k - 1);
        let here = mappings[k - 1].output_start + mappings[k - 1].span() - 1;
        if here > rest {
            here
        } else {
            rest
        }
    }
}

/// A parsed `SourceDebugExtension`.
#[derive(Debug, Clone)]
pub struct SourceMap {
    /// The mappings of the chosen stratum.
    mappings: Vec<LineMapping>,
    /// File ids with their declared names, for reporting; a later entry
    /// stands for an earlier one of the same id.
    files: Vec<(u32, String)>,
    /// Which stratum the mappings came from.
    stratum: String,
}

impl View for SourceMap {
    type V = SourceMapView;

    closed spec fn view(&self) -> SourceMapView {
        SourceMapView {
            mappings: self.mappings@,
            files: self.files@.map_values(|f: (u32, String)| (f.0, f.1@)),
            stratum: self.stratum@,
        }
    }
}

impl Default for SourceMap {
    fn default() -> (r: Self)
        ensures
            r@ == (SourceMapView {
                mappings: Seq::empty(),
                files: Seq::empty(),
                stratum: Seq::empty(),
            }),
    {
        let r = SourceMap { mappings: Vec::new(), files: Vec::new(), stratum: String::new() };
        assert(r@.files =~= Seq::empty());
        r
    }
}

fn number_after(s: &[char], c: char) -> (r: (&[char], Option<u32>))
    ensures
        r.0@ == optional_tail(s@, c).0,
        r.1 == optional_tail(s@, c).1,
{
    broadcast use lemma_find_char;

    match split_once(s, c) {
        Some((a, b)) => {
            assert(a@ =~= s@.take(find_char(s@, c, 0)));
            (a, parse_u32(trim(b)))
        },
        None => (s, Some(1)),
    }
}

/// Parses `InputStartLine#LineFileID,RepeatCount:OutputStartLine,OutputLineIncrement`.
///
/// Every part except `InputStartLine` and `OutputStartLine` is optional.
pub fn parse_line_mapping(s: &str) -> (r: Option<LineMapping>)
    ensures
        r == mapping_of(s@),
{
    let chars = chars_of(s);
    mapping_in(chars.as_slice())
}

fn mapping_in(s: &[char]) -> (r: Option<LineMapping>)
    ensures
        r == mapping_of(s@),
{
    broadcast use lemma_find_char;

    match split_once(s, ':') {
        Some((lhs, rhs)) => {
            assert(lhs@ =~= s@.take(find_char(s@, ':', 0)));
            let (input_part, repeat) = number_after(lhs, ',');
            let (input_text, file_id) = number_after(input_part, '#');
            let (output_text, increment) = number_after(rhs, ',');
            let input_start = parse_u32(trim(input_text));
            let output_start = parse_u32(trim(output_text));
            match (repeat, input_start, file_id, output_start, increment) {
                (
                    Some(repeat),
                    Some(input_start),
                    Some(file_id),
                    Some(output_start),
                    Some(output_increment),
                ) => Some(
                    LineMapping { input_start, file_id, repeat, output_start, output_increment },
                ),
                _ => None,
            }
        },
        None => None,
    }
}

/// What the parser has read so far.
struct Scan {
    current: String,
    section: Section,
    mappings: Vec<(String, LineMapping)>,
    files: Vec<(String, u32, String)>,
}

spec fn mapping_views(v: Seq<(String, LineMapping)>) -> Seq<(Seq<char>, LineMapping)> {
    v.map_values(|m: (String, LineMapping)| (m.0@, m.1))
}

spec fn file_views(v: Seq<(String, u32, String)>) -> Seq<(Seq<char>, u32, Seq<char>)> {
    v.map_values(|f: (String, u32, String)| (f.0@, f.1, f.2@))
}

impl View for Scan {
    type V = ScanView;

    closed spec fn view(&self) -> ScanView {
        ScanView {
            current: self.current@,
            section: self.section,
            mappings: mapping_views(self.mappings@),
            files: file_views(self.files@),
        }
    }
}

fn file_in(s: &[char]) -> (r: Option<(u32, String)>)
    ensures
        match r {
            Some((id, name)) => file_of(s@) == Some((id, name@)),
            None => file_of(s@) is None,
        },
{
    broadcast use lemma_find_char;

    let t = trim(s);
    match split_once(t, ' ') {
        Some((id, name)) => {
            assert(id@ =~= t@.take(find_char(t@, ' ', 0)));
            match parse_u32(trim(id)) {
                Some(id) => Some((id, string_from_chars(trim(name)))),
                None => None,
            }
        },
        None => None,
    }
}

impl Scan {
    /// Reads one line; returns how many lines it takes up.
    fn line(&mut self, line: &[char]) -> (r: usize)
        ensures
            (final(self)@, r as int) == scan_line(old(self)@, line@),
            1 <= r <= 2,
    {
        proof {
            reveal_strlit("*S ");
            reveal_strlit("+ ");
        }
        if let Some(name) = after_prefix(line, "*S ") {
            self.current = string_from_chars(trim(name));
            self.section = Section::Other;
            return 1;
        }
        if chars_are(line, "*F") {
            self.section = Section::Files;
            return 1;
        }
        if chars_are(line, "*L") {
            self.section = Section::Lines;
            return 1;
        }
        if line.len() > 0 && line[0] == '*' {
            self.section = Section::Other;
            return 1;
        }
        match self.section {
            Section::Files => {
                let stripped = after_prefix(line, "+ ");
                let entry = match stripped {
                    Some(s) => s,
                    None => line,
                };
                if let Some((id, name)) = file_in(entry) {
                    let ghost before = self.files@;
                    self.files.push((self.current.clone(), id, name));
                    assert(file_views(self.files@) =~= file_views(before).push(
                        (self.current@, id, name@),
                    ));
                }
                if stripped.is_some() {
                    2
                } else {
                    1
                }
            },
            Section::Lines => {
                if let Some(m) = mapping_in(trim(line)) {
                    let ghost before = self.mappings@;
                    self.mappings.push((self.current.clone(), m));
                    assert(mapping_views(self.mappings@) =~= mapping_views(before).push(
                        (self.current@, m),
                    ));
                }
                1
            },
            Section::Other => 1,
        }
    }

    fn has(&self, stratum: &str) -> (r: bool)
        ensures
            r == has_mappings(self@.mappings, stratum@),
    {
        let mut k: usize = 0;
        while k < self.mappings.len()
            invariant
                k <= self.mappings.len(),
                forall|j: int| 0 <= j < k ==> (#[trigger] self@.mappings[j]).0 != stratum@,
            decreases self.mappings.len() - k,
        {
            assert(self@.mappings[k as int].0 == self.mappings@[k as int].0@);
            if same(self.mappings[k].0.as_str(), stratum) {
                return true;
            }
            k += 1;
        }
        false
    }

    fn least(&self) -> (r: String)
        requires
            self@.mappings.len() > 0,
        ensures
            r@ == least_stratum(self@.mappings),
    {
        let ghost all = self@.mappings;
        let mut best: usize = 0;
        let mut k: usize = 1;
        proof {
            assert(all.take(1)[0] == all[0]);
        }
        while k < self.mappings.len()
            invariant
                all == self@.mappings,
                all.len() == self.mappings.len(),
                1 <= k <= self.mappings.len(),
                best < k,
                self.mappings@[best as int].0@ == least_stratum(all.take(k as int)),
            decreases self.mappings.len() - k,
        {
            let a = chars_of(self.mappings[k].0.as_str());
            let b = chars_of(self.mappings[best].0.as_str());
            proof {
                assert(all.take(k + 1).drop_last() =~= all.take(k as int));
                assert(all.take(k + 1).last() == all[k as int]);
                assert(all[k as int].0 == self.mappings@[k as int].0@);
            }
            if comes_before(&a, &b) {
                best = k;
            }
            k += 1;
        }
        assert(all.take(k as int) =~= all);
        self.mappings[best].0.clone()
    }

    fn mappings_in(&self, stratum: &str) -> (r: Vec<LineMapping>)
        ensures
            r@ == mappings_of(self@.mappings, stratum@),
    {
        let ghost all = self@.mappings;
        let mut out: Vec<LineMapping> = Vec::new();
        let mut k: usize = 0;
        proof {
            assert(all.take(0) =~= Seq::empty());
        }
        while k < self.mappings.len()
            invariant
                all == self@.mappings,
                k <= self.mappings.len(),
                out@ == mappings_of(all.take(k as int), stratum@),
            decreases self.mappings.len() - k,
        {
            proof {
                assert(all.take(k + 1).drop_last() =~= all.take(k as int));
                assert(all.take(k + 1).last() == all[k as int]);
            }
            if same(self.mappings[k].0.as_str(), stratum) {
                out.push(self.mappings[k].1);
            }
            k += 1;
        }
        assert(all.take(k as int) =~= all);
        out
    }

    fn files_in(&self, stratum: &str) -> (r: Vec<(u32, String)>)
        ensures
            r@.map_values(|f: (u32, String)| (f.0, f.1@)) == files_of(self@.files, stratum@),
    {
        let ghost all = self@.files;
        let mut out: Vec<(u32, String)> = Vec::new();
        let mut k: usize = 0;
        proof {
            assert(all.take(0) =~= Seq::empty());
            assert(out@.map_values(|f: (u32, String)| (f.0, f.1@)) =~= Seq::empty());
        }
        while k < self.files.len()
            invariant
                all == self@.files,
                k <= self.files.len(),
                out@.map_values(|f: (u32, String)| (f.0, f.1@)) == files_of(
                    all.take(k as int),
                    stratum@,
                ),
            decreases self.files.len() - k,
        {
            proof {
                assert(all.take(k + 1).drop_last() =~= all.take(k as int));
                assert(all.take(k + 1).last() == all[k as int]);
            }
            if same(self.files[k].0.as_str(), stratum) {
                let ghost before = out@;
                out.push((self.files[k].1, self.files[k].2.clone()));
                assert(out@.map_values(|f: (u32, String)| (f.0, f.1@)) =~= before.map_values(
                    |f: (u32, String)| (f.0, f.1@),
                ).push((all[k as int].1, all[k as int].2)));
            }
            k += 1;
        }
        assert(all.take(k as int) =~= all);
        out
    }
}

proof fn lemma_chosen_has_mappings(all: Seq<(Seq<char>, LineMapping)>, default: Seq<char>)
    ensures
        chosen_stratum(all, default) matches Some(s) ==> has_mappings(all, s),
{
    if all.len() > 0 {
        lemma_least_has_mappings(all);
    }
}

proof fn lemma_least_has_mappings(all: Seq<(Seq<char>, LineMapping)>)
    requires
        all.len() > 0,
    ensures
        has_mappings(all, least_stratum(all)),
    decreases all.len(),
{
    if all.len() > 1 {
        lemma_least_has_mappings(all.drop_last());
        let rest = all.drop_last();
        let s = least_stratum(rest);
        let k = choose|k: int| 0 <= k < rest.len() && (#[trigger] rest[k]).0 == s;
        assert(all[k].0 == s);
        assert(all[all.len() - 1] == all.last());
    } else {
        assert(all[0].0 == least_stratum(all));
    }
}

proof fn lemma_mappings_of_nonempty(all: Seq<(Seq<char>, LineMapping)>, stratum: Seq<char>)
    ensures
        has_mappings(all, stratum) == (mappings_of(all, stratum).len() > 0),
    decreases all.len(),
{
    if all.len() > 0 {
        let rest = all.drop_last();
        lemma_mappings_of_nonempty(rest, stratum);
        if has_mappings(all, stratum) && all.last().0 != stratum {
            let k = choose|k: int| 0 <= k < all.len() && (#[trigger] all[k]).0 == stratum;
            assert(rest[k].0 == stratum);
        }
        if has_mappings(rest, stratum) {
            let k = choose|k: int| 0 <= k < rest.len() && (#[trigger] rest[k]).0 == stratum;
            assert(all[k].0 == stratum);
        }
        if all.last().0 == stratum {
            assert(all[all.len() - 1].0 == stratum);
        }
    }
}

/// A parsed map has at least one mapping.
pub proof fn parsed_map_has_mappings(text: Seq<char>)
    ensures
        source_map(text) matches Some(m) ==> m.mappings.len() > 0,
{
    let all = lines(text);
    if source_map(text) is Some {
        let default = trimmed(all[2]);
        let start = scan_start(default);
        let end = scan(all, 3, start);
        lemma_chosen_has_mappings(end.mappings, default);
        lemma_mappings_of_nonempty(end.mappings, chosen_stratum(end.mappings, default)->0);
    }
}

/// No stratum with a mapping has a name before the least one.
pub proof fn least_stratum_is_first(all: Seq<(Seq<char>, LineMapping)>, k: int)
    requires
        0 <= k < all.len(),
    ensures
        !precedes(all[k].0, least_stratum(all)),
    decreases all.len(),
{
    if all.len() > 1 {
        let rest = all.drop_last();
        let best = least_stratum(rest);
        let last = all.last().0;
        if k < rest.len() {
            assert(rest[k] == all[k]);
            least_stratum_is_first(rest, k);
            if precedes(last, best) && precedes(all[k].0, last) {
                precedes_is_transitive(all[k].0, last, best);
            }
        } else {
            precedes_is_total(last, last);
        }
    } else {
        precedes_is_total(all[k].0, all[k].0);
    }
}

proof fn lemma_covering(mappings: Seq<LineMapping>, output: int, k: int)
    requires
        0 <= k <= mappings.len(),
    ensures
        match covering(mappings, output, k) {
            Some(m) => m.covers(output) && exists|j: int|
                k <= j < mappings.len() && #[trigger] mappings[j] == m,
            None => forall|j: int|
                k <= j < mappings.len() ==> !(#[trigger] mappings[j]).covers(output),
        },
    decreases mappings.len() - k,
{
    if k < mappings.len() && !mappings[k].covers(output) {
        lemma_covering(mappings, output, k + 1);
    }
}

proof fn lemma_input_line_bound(m: LineMapping, output: int)
    requires
        m.covers(output),
    ensures
        m.input_start <= m.input_line(output) <= m.last_input(),
{
    let inc = at_least_one(m.output_increment);
    let rep = at_least_one(m.repeat);
    let d = output - m.output_start;
    assert(0 <= d / inc <= rep - 1) by (nonlinear_arith)
        requires
            inc >= 1,
            0 <= d < rep * inc,
    ;
}

/// In a map whose input lines are all line numbers, every output line has a
/// meaning that names a line number.
pub proof fn fitting_map_resolves_every_line(map: SourceMapView, output: u32)
    requires
        map.fits(),
    ensures
        covering(map.mappings, output as int, 0) matches Some(m) ==> m.input_line(output as int)
            <= u32::MAX,
{
    lemma_covering(map.mappings, output as int, 0);
    if let Some(m) = covering(map.mappings, output as int, 0) {
        lemma_input_line_bound(m, output as int);
    }
}

/// A line that no mapping covers means itself.
pub proof fn uncovered_line_means_itself(map: SourceMapView, output: u32)
    requires
        forall|k: int|
            0 <= k < map.mappings.len() ==> !(#[trigger] map.mappings[k]).covers(output as int),
    ensures
        map.meaning(output) == ResolutionView::Resolved(output),
{
    lemma_covering(map.mappings, output as int, 0);
}

/// The state in which the line `p` is read, if it is one that is read for
/// itself, or the state at the end of the lines.
pub open spec fn state_at(text: Seq<Seq<char>>, i: int, st: ScanView, p: int) -> Option<ScanView>
    decreases text.len() + 1 - i,
{
    if i == p {
        Some(st)
    } else if i < 0 || i > p || i >= text.len() || trim_end(text[i]) == "*E"@ {
        None
    } else {
        let (next, n) = scan_line(st, trim_end(text[i]));
        if n <= 0 {
            None
        } else {
            state_at(text, i + n, next, p)
        }
    }
}

/// Whether a line put before the line `p` of an SMAP payload stands in a line
/// section.
pub open spec fn in_line_section(text: Seq<char>, p: int) -> bool {
    let all = lines(text);
    &&& 3 <= p <= all.len()
    &&& state_at(all, 3, scan_start(trimmed(all[2])), p) matches Some(st)
    &&& st.section is Lines
}

proof fn lemma_scan_from(text: Seq<Seq<char>>, i: int, st: ScanView, p: int)
    requires
        state_at(text, i, st, p) is Some,
        0 <= i,
    ensures
        scan(text, i, st) == scan(text, p, state_at(text, i, st, p)->0),
    decreases text.len() + 1 - i,
{
    if i != p {
        let (next, n) = scan_line(st, trim_end(text[i]));
        lemma_scan_from(text, i + n, next, p);
    }
}

proof fn lemma_state_same(a: Seq<Seq<char>>, b: Seq<Seq<char>>, i: int, st: ScanView, p: int)
    requires
        0 <= i,
        p <= a.len(),
        p <= b.len(),
        forall|j: int| 0 <= j < p ==> a[j] == b[j],
        state_at(a, i, st, p) is Some,
    ensures
        state_at(b, i, st, p) == state_at(a, i, st, p),
    decreases a.len() + 1 - i,
{
    if i != p {
        let (next, n) = scan_line(st, trim_end(a[i]));
        lemma_state_same(a, b, i + n, next, p);
    }
}

proof fn lemma_scan_shifted(
    a: Seq<Seq<char>>,
    b: Seq<Seq<char>>,
    i: int,
    st: ScanView,
    p: int,
)
    requires
        0 <= p <= i,
        b.len() == a.len() + 1,
        forall|j: int| p <= j < a.len() ==> #[trigger] a[j] == b[j + 1],
    ensures
        scan(b, i + 1, st) == scan(a, i, st),
    decreases a.len() + 1 - i,
{
    if i < a.len() && trim_end(a[i]) != "*E"@ {
        assert(a[i] == b[i + 1]);
        let (next, n) = scan_line(st, trim_end(a[i]));
        if n > 0 {
            lemma_scan_shifted(a, b, i + n, next, p);
        }
    }
}

/// A malformed line of a line section is skipped: it never fails the parse, and
/// no other entry is lost for it.
pub proof fn a_malformed_line_changes_nothing(
    text: Seq<char>,
    other: Seq<char>,
    p: int,
    line: Seq<char>,
)
    requires
        in_line_section(text, p),
        lines(other) == lines(text).insert(p, line),
        line.len() == 0 || line[0] != '*',
        mapping_of(trimmed(line)) is None,
    ensures
        source_map(other) == source_map(text),
{
    let a = lines(text);
    let b = lines(other);
    let start = scan_start(trimmed(a[2]));
    assert(b[0] == a[0] && b[2] == a[2]);
    let st = state_at(a, 3, start, p)->0;
    lemma_scan_from(a, 3, start, p);
    assert forall|j: int| 0 <= j < p implies a[j] == b[j] by {}
    lemma_state_same(a, b, 3, start, p);
    lemma_scan_from(b, 3, start, p);
    let t = trim_end(line);
    trimming_twice_is_trimming(line);
    assert(b[p] == line);
    reveal_strlit("*E");
    reveal_strlit("*F");
    reveal_strlit("*L");
    reveal_strlit("*S ");
    if starts_with(t, "*S "@) {
        assert(t.take(3)[0] == '*');
    }
    assert(scan_line(st, t) == (st, 1int));
    assert forall|j: int| p <= j < a.len() implies #[trigger] a[j] == b[j + 1] by {}
    lemma_scan_shifted(a, b, p, st, p);
}

/// A number behind a mark, if there is one.
pub open spec fn marked(mark: char, n: Option<u32>) -> Seq<char> {
    match n {
        Some(n) => seq![mark] + decimal(n as nat),
        None => Seq::empty(),
    }
}

/// The text of an entry, with or without its optional parts.
pub open spec fn printed_mapping(
    input_start: u32,
    file_id: Option<u32>,
    repeat: Option<u32>,
    output_start: u32,
    output_increment: Option<u32>,
) -> Seq<char> {
    decimal(input_start as nat) + marked('#', file_id) + marked(',', repeat) + seq![':'] + (decimal(
        output_start as nat,
    ) + marked(',', output_increment))
}

pub open spec fn or_one(n: Option<u32>) -> u32 {
    match n {
        Some(n) => n,
        None => 1,
    }
}

proof fn lemma_optional_tail(head: Seq<char>, mark: char, n: Option<u32>)
    requires
        forall|k: int| 0 <= k < head.len() ==> #[trigger] head[k] != mark,
    ensures
        optional_tail(head + marked(mark, n), mark) == (head, Some(or_one(n))),
{
    let s = head + marked(mark, n);
    lemma_found_at(s, mark, head.len() as int);
    match n {
        Some(n) => {
            printed_number_reads_back(n);
            assert(s.take(head.len() as int) =~= head);
            assert(s.skip(head.len() as int + 1) =~= decimal(n as nat));
        },
        None => {
            assert(s =~= head);
        },
    }
}

/// An entry that is printed parses back, each of its optional parts there or
/// not; a part that is left out is one.
pub proof fn a_printed_mapping_parses_back(
    input_start: u32,
    file_id: Option<u32>,
    repeat: Option<u32>,
    output_start: u32,
    output_increment: Option<u32>,
)
    ensures
        mapping_of(
            printed_mapping(input_start, file_id, repeat, output_start, output_increment),
        ) == Some(
            LineMapping {
                input_start,
                file_id: or_one(file_id),
                repeat: or_one(repeat),
                output_start,
                output_increment: or_one(output_increment),
            },
        ),
{
    let s = printed_mapping(input_start, file_id, repeat, output_start, output_increment);
    let a = decimal(input_start as nat);
    let o = decimal(output_start as nat);
    printed_number_reads_back(input_start);
    printed_number_reads_back(output_start);
    if let Some(n) = file_id {
        printed_number_reads_back(n);
    }
    if let Some(n) = repeat {
        printed_number_reads_back(n);
    }
    let input = a + marked('#', file_id);
    let left = input + marked(',', repeat);
    let right = o + marked(',', output_increment);
    lemma_found_at(s, ':', left.len() as int);
    assert(s.take(left.len() as int) =~= left);
    assert(s.skip(left.len() as int + 1) =~= right);
    lemma_optional_tail(input, ',', repeat);
    lemma_optional_tail(a, '#', file_id);
    lemma_optional_tail(o, ',', output_increment);
}

impl SourceMap {
    /// Parses an SMAP payload. Returns `None` when the text is not an SMAP or
    /// carries no usable line mappings.
    ///
    /// Malformed entries are skipped rather than failing the parse.
    #[must_use]
    pub fn parse(text: &str) -> (r: Option<Self>)
        ensures
            match r {
                Some(m) => source_map(text@) == Some(m@),
                None => source_map(text@) is None,
            },
    {
        let chars = chars_of(text);
        let all = split_lines(chars.as_slice());
        let ghost lv = lines(text@);
        assert(all@.len() == lv.len());
        assert(forall|k: int| 0 <= k < lv.len() ==> lv[k] == (#[trigger] all@[k])@);
        if all.len() < 3 || !chars_are(trim(all[0]), "SMAP") {
            return None;
        }
        let default_stratum = string_from_chars(trim(all[2]));
        let mut state = Scan {
            current: default_stratum.clone(),
            section: Section::Other,
            mappings: Vec::new(),
            files: Vec::new(),
        };
        let ghost start = scan_start(default_stratum@);
        assert(state@ =~= start);
        let mut i: usize = 3;
        let mut done: bool = false;
        while i < all.len() && !done
            invariant
                all@.len() == lv.len(),
                forall|k: int| 0 <= k < lv.len() ==> lv[k] == (#[trigger] all@[k])@,
                3 <= i,
                if done {
                    state@ == scan(lv, 3, start)
                } else {
                    scan(lv, i as int, state@) == scan(lv, 3, start)
                },
                done ==> i < all.len(),
            decreases all.len() - i + if done { 0int } else { 2int },
        {
            let line = trim_tail(all[i]);
            assert(line@ == trim_end(lv[i as int]));
            if chars_are(line, "*E") {
                done = true;
            } else {
                let n: usize = state.line(line);
                if n == 2 && i + 1 == all.len() {
                    i = all.len();
                    assert(scan(lv, i + 1, state@) == scan(lv, i as int, state@));
                } else {
                    i += n;
                }
            }
        }
        let ghost end = scan(lv, 3, start);
        assert(state@ == end);
        let chosen: String = if state.has("KotlinDebug") {
            "KotlinDebug".to_owned()
        } else if state.has(default_stratum.as_str()) {
            default_stratum
        } else if state.mappings.len() > 0 {
            state.least()
        } else {
            return None;
        };
        let mappings = state.mappings_in(chosen.as_str());
        let files = state.files_in(chosen.as_str());
        let map = SourceMap { mappings, files, stratum: chosen };
        Some(map)
    }

    /// Which stratum the mappings came from.
    #[must_use]
    pub fn stratum(&self) -> (r: &str)
        ensures
            r@ == self@.stratum,
    {
        self.stratum.as_str()
    }

    /// Whether every input line that the map names is a line number.
    pub fn fits(&self) -> (r: bool)
        ensures
            r == self@.fits(),
    {
        let mut k: usize = 0;
        while k < self.mappings.len()
            invariant
                k <= self.mappings.len(),
                forall|j: int|
                    0 <= j < k ==> (#[trigger] self@.mappings[j]).last_input() <= u32::MAX,
            decreases self.mappings.len() - k,
        {
            let m = self.mappings[k];
            let repeat: u64 = if m.repeat == 0 {
                1
            } else {
                m.repeat as u64
            };
            assert(self@.mappings[k as int] == m);
            if m.input_start as u64 + (repeat - 1) > 0xffff_ffff {
                return false;
            }
            k += 1;
        }
        true
    }

    /// Whether the input line that the map gives an output line is a line
    /// number.
    pub fn fits_line(&self, output_line: u32) -> (r: bool)
        ensures
            r == (covering(self@.mappings, output_line as int, 0) matches Some(m)
                ==> m.input_line(output_line as int) <= u32::MAX),
    {
        let mut k: usize = 0;
        while k < self.mappings.len()
            invariant
                k <= self.mappings.len(),
                covering(self@.mappings, output_line as int, 0) == covering(
                    self@.mappings,
                    output_line as int,
                    k as int,
                ),
            decreases self.mappings.len() - k,
        {
            assert(self@.mappings[k as int] == self.mappings@[k as int]);
            if let Some(line) = self.mappings[k].line_of(output_line) {
                return line <= 0xffff_ffff;
            }
            k += 1;
        }
        true
    }

    /// Resolves a `LineNumberTable` entry to a real line in the class's own
    /// source file.
    ///
    /// - `Resolved(line)`: the output line stands for `line` in this file.
    ///   Identity for ordinary code; the call-site line for an inlined body.
    /// - `Foreign { file }`: it belongs to a different source file. Callers
    ///   should drop it rather than claim a line in this one.
    #[must_use]
    pub fn resolve(&self, output_line: u32) -> (r: Resolution)
        requires
            covering(self@.mappings, output_line as int, 0) matches Some(m) ==> m.input_line(
                output_line as int,
            ) <= u32::MAX,
        ensures
            r@ == self@.meaning(output_line),
    {
        let mut k: usize = 0;
        while k < self.mappings.len()
            invariant
                k <= self.mappings.len(),
                covering(self@.mappings, output_line as int, 0) == covering(
                    self@.mappings,
                    output_line as int,
                    k as int,
                ),
                covering(self@.mappings, output_line as int, 0) matches Some(m) ==> m.input_line(
                    output_line as int,
                ) <= u32::MAX,
            decreases self.mappings.len() - k,
        {
            assert(self@.mappings[k as int] == self.mappings@[k as int]);
            if let Some((input, file_id)) = self.mappings[k].resolve(output_line) {
                // File 1 is the class's own source by JSR-45 convention.
                if file_id == 1 {
                    return Resolution::Resolved(input);
                }
                let file = match self.declared(file_id) {
                    Some(name) => name,
                    None => {
                        let mut text = "file #".to_owned();
                        text.append(decimal_text(file_id as u128).as_str());
                        text
                    },
                };
                return Resolution::Foreign { file };
            }
            k += 1;
        }
        // Not covered by any mapping: an ordinary line, which the strata
        // leave implicit because it maps to itself.
        Resolution::Resolved(output_line)
    }

    fn declared(&self, id: u32) -> (r: Option<String>)
        ensures
            match r {
                Some(name) => file_name(self@.files, id) == Some(name@),
                None => file_name(self@.files, id) is None,
            },
    {
        let ghost all = self@.files;
        let mut k: usize = self.files.len();
        assert(all.take(k as int) =~= all);
        while k > 0
            invariant
                all == self@.files,
                k <= self.files.len(),
                file_name(all, id) == file_name(all.take(k as int), id),
            decreases k,
        {
            proof {
                assert(all.take(k as int).last() == all[k - 1]);
                assert(all.take(k as int).drop_last() =~= all.take(k - 1));
            }
            if self.files[k - 1].0 == id {
                return Some(self.files[k - 1].1.clone());
            }
            k -= 1;
        }
        None
    }

    /// The highest output line any mapping covers, or zero.
    ///
    /// Any line number above this and above the file's real length is
    /// unattributable.
    #[must_use]
    pub fn max_output_line(&self) -> (r: u32)
        requires
            forall|k: int|
                0 <= k < self@.mappings.len() ==> (#[trigger] self@.mappings[k]).output_start
                    + self@.mappings[k].span() - 1 <= u32::MAX,
        ensures
            r == max_output(self@.mappings, self@.mappings.len() as int),
    {
        let mut best: u32 = 0;
        let mut k: usize = 0;
        while k < self.mappings.len()
            invariant
                k <= self.mappings.len(),
                best == max_output(self@.mappings, k as int),
                forall|k: int|
                    0 <= k < self@.mappings.len() ==> (#[trigger] self@.mappings[k]).output_start
                        + self@.mappings[k].span() - 1 <= u32::MAX,
            decreases self.mappings.len() - k,
        {
            let m = self.mappings[k];
            assert(self@.mappings[k as int] == m);
            let repeat: u32 = if m.repeat == 0 {
                1
            } else {
                m.repeat
            };
            let increment: u32 = if m.output_increment == 0 {
                1
            } else {
                m.output_increment
            };
            assert(repeat * increment >= 1) by (nonlinear_arith)
                requires
                    repeat >= 1,
                    increment >= 1,
            ;
            let span: u64 = repeat as u64 * increment as u64;
            let here: u32 = (m.output_start as u64 + (span - 1)) as u32;
            if here > best {
                best = here;
            }
            k += 1;
        }
        best
    }
}

} // verus!
