//! Errors reported while reading a scene description, and where in the
//! text they occurred.
use vstd::prelude::*;
use vstd::string::*;
use crate::parse::data_tree::Event;
use crate::parse::parse_utils::{
    counts_in_range, decimal, decimal_string, ensure_subsections, first_bad_count,
    first_subsection, lemma_first_subsection_exists, lemma_ws_unsigned_in_bounds, names_subsection, no_subsection, too_few_message,
    too_many_message, ws_u32, ws_unsigned, Range, SubsectionAction,
};
use crate::text::str_eq;

verus! {

/// An error reported by the data tree reader.  Each carries the byte offset
/// in the text at which it occurred, where there is one.
#[derive(Debug, Clone, PartialEq, Eq)]
pub enum ReaderError {
    ExpectedTypeNameOrClose(usize),
    ExpectedOpenOrIdent(usize),
    ExpectedOpen(usize),
    UnexpectedClose(usize),
    UnexpectedIdent(usize),
    UnexpectedEOF,
    /// An I/O failure, with its description.
    IO(String),
}

/// An error found while reading a scene description.  The first field of
/// each is the byte offset in the text at which it occurred; the second,
/// where there is one, describes it.
#[derive(Debug)]
pub enum PsyError {
    UnknownError(usize),
    UnknownVariant(usize, String),
    ExpectedInternalNode(usize, String),
    ExpectedLeafNode(usize, String),
    ExpectedIdent(usize, String),
    MissingNode(usize, String),
    IncorrectLeafData(usize, String),
    WrongNodeCount(usize, String),
    ExpectedInternalNodeClose(usize, String),
    ReaderError(ReaderError),
}

/// The error for a transform leaf whose contents are not sixteen numbers.
pub fn make_transform_format_error(byte_offset: usize) -> (e: PsyError)
    ensures
        e matches PsyError::IncorrectLeafData(offset, message) && offset == byte_offset
            && message@
            == "Transform should be sixteen integers specified in the form '[# # # # # # # # # # # # # # # #]'."@,
{
    PsyError::IncorrectLeafData(
        byte_offset,
        String::from_str(
            "Transform should be sixteen integers specified in the form '[# # # # # # # # # # # # # # # #]'.",
        ),
    )
}

/// The number of line breaks (`\n` bytes) in `b`.
pub open spec fn count_newlines(b: Seq<u8>) -> nat
    decreases b.len(),
{
    if b.len() == 0 {
        0
    } else {
        count_newlines(b.drop_last()) + if b.last() == 10u8 {
            1nat
        } else {
            0nat
        }
    }
}

proof fn lemma_count_newlines_le(b: Seq<u8>)
    ensures
        count_newlines(b) <= b.len(),
    decreases b.len(),
{
    if b.len() > 0 {
        lemma_count_newlines_le(b.drop_last());
    }
}

/// The number of lines of `b`: its line breaks, plus one for a last line
/// that does not end in a line break.
pub open spec fn count_lines(b: Seq<u8>) -> nat {
    count_newlines(b) + if b.len() > 0 && b.last() != 10u8 {
        1nat
    } else {
        0nat
    }
}

/// The line (counting from one) of the byte at `offset` of `b`; for an
/// offset past the end, the line after the last one.
pub open spec fn line_of_offset(b: Seq<u8>, offset: int) -> int {
    if offset < b.len() {
        1 + count_newlines(b.take(offset)) as int
    } else {
        1 + count_lines(b) as int
    }
}

/// The line, counting from one, on which byte `byte_offset` of `psy_content`
/// lies; for an offset past the end, the line after the last one.
pub fn byte_offset_to_line_char(psy_content: &str, byte_offset: usize) -> (line: usize)
    requires
        psy_content.spec_bytes().len() < usize::MAX,
    ensures
        line == line_of_offset(psy_content.spec_bytes(), byte_offset as int),
{
    let bytes = psy_content.as_bytes();
    let ghost b = bytes@;
    let n = bytes.len();
    let end = if byte_offset < n {
        byte_offset
    } else {
        n
    };
    let mut count: usize = 0;
    let mut i: usize = 0;
    while i < end
        invariant
            b == bytes@,
            b == psy_content.spec_bytes(),
            n == b.len(),
            end <= n,
            n < usize::MAX,
            i <= end,
            count == count_newlines(b.take(i as int)),
            count <= i,
        decreases end - i,
    {
        proof {
            assert(b.take(i + 1).drop_last() =~= b.take(i as int));
        }
        if bytes[i] == 10u8 {
            count += 1;
        }
        i += 1;
    }
    if byte_offset < n {
        count + 1
    } else {
        proof {
            assert(b.take(n as int) =~= b);
        }
        if n > 0 && bytes[n - 1] != 10u8 {
            proof {
                lemma_count_newlines_le(b.drop_last());
            }
            count + 2
        } else {
            count + 1
        }
    }
}

} // verus!

verus! {

/// The start of a message about the text at `offset`: its line number.
pub open spec fn line_prefix(content: Seq<u8>, offset: int) -> Seq<char> {
    "Line "@ + decimal(line_of_offset(content, offset) as nat) + ": "@
}

/// The text shown when a reader error is reported.
pub open spec fn reader_error_message(e: ReaderError, content: Seq<u8>) -> Seq<char> {
    match e {
        ReaderError::ExpectedTypeNameOrClose(o) => line_prefix(content, o as int)
            + "Expected either a type name or a closing brace."@,
        ReaderError::ExpectedOpenOrIdent(o) => line_prefix(content, o as int)
            + "Expected either an opening brace/bracket or an ident."@,
        ReaderError::ExpectedOpen(o) => line_prefix(content, o as int)
            + "Expected an opening brace."@,
        ReaderError::UnexpectedClose(o) => line_prefix(content, o as int)
            + "Encountered an unexpected closing brace."@,
        ReaderError::UnexpectedIdent(o) => line_prefix(content, o as int)
            + "Encountered and unexpected ident."@,
        ReaderError::UnexpectedEOF => line_prefix(content, usize::MAX as int)
            + "Unexpected end-of-stream, data tree incomplete."@,
        ReaderError::IO(d) => "IO error while parsing scene: "@ + d@,
    }
}

/// The text shown when an error is reported: the line of `content` at
/// which it occurred and what went wrong.
pub open spec fn error_message(e: PsyError, content: Seq<u8>) -> Seq<char> {
    match e {
        PsyError::UnknownError(o) => line_prefix(content, o as int)
            + "Unknown parse error.  If you get this message, please report it to the developers so they can improve the error messages."@,
        PsyError::UnknownVariant(o, m) => line_prefix(content, o as int) + m@,
        PsyError::ExpectedInternalNode(o, m) => line_prefix(content, o as int) + m@,
        PsyError::ExpectedLeafNode(o, m) => line_prefix(content, o as int) + m@,
        PsyError::ExpectedIdent(o, m) => line_prefix(content, o as int) + m@,
        PsyError::MissingNode(o, m) => line_prefix(content, o as int) + m@,
        PsyError::IncorrectLeafData(o, m) => line_prefix(content, o as int) + m@,
        PsyError::WrongNodeCount(o, m) => line_prefix(content, o as int) + m@,
        PsyError::ExpectedInternalNodeClose(o, m) => line_prefix(content, o as int) + m@,
        PsyError::ReaderError(r) => reader_error_message(r, content),
    }
}

fn line_text(psy_content: &str, offset: usize) -> (s: String)
    requires
        psy_content.spec_bytes().len() < usize::MAX,
    ensures
        s@ == line_prefix(psy_content.spec_bytes(), offset as int),
{
    let line = byte_offset_to_line_char(psy_content, offset);
    let mut s = String::from_str("Line ");
    let number = decimal_string(line);
    s.append(number.as_str());
    s.append(": ");
    s
}

fn with_line(psy_content: &str, offset: usize, text: &str) -> (s: String)
    requires
        psy_content.spec_bytes().len() < usize::MAX,
    ensures
        s@ == line_prefix(psy_content.spec_bytes(), offset as int) + text@,
{
    let mut s = line_text(psy_content, offset);
    s.append(text);
    s
}

impl PsyError {
    /// The text shown when the error is reported: the line of
    /// `psy_content` at which it occurred and what went wrong.
    pub fn message(&self, psy_content: &str) -> (m: String)
        requires
            psy_content.spec_bytes().len() < usize::MAX,
        ensures
            m@ == error_message(*self, psy_content.spec_bytes()),
    {
        match self {
            PsyError::UnknownError(o) => with_line(
                psy_content,
                *o,
                "Unknown parse error.  If you get this message, please report it to the developers so they can improve the error messages.",
            ),
            PsyError::UnknownVariant(o, e) => with_line(psy_content, *o, e.as_str()),
            PsyError::ExpectedInternalNode(o, e) => with_line(psy_content, *o, e.as_str()),
            PsyError::ExpectedLeafNode(o, e) => with_line(psy_content, *o, e.as_str()),
            PsyError::ExpectedIdent(o, e) => with_line(psy_content, *o, e.as_str()),
            PsyError::MissingNode(o, e) => with_line(psy_content, *o, e.as_str()),
            PsyError::IncorrectLeafData(o, e) => with_line(psy_content, *o, e.as_str()),
            PsyError::WrongNodeCount(o, e) => with_line(psy_content, *o, e.as_str()),
            PsyError::ExpectedInternalNodeClose(o, e) => with_line(psy_content, *o, e.as_str()),
            PsyError::ReaderError(r) => match r {
                ReaderError::ExpectedTypeNameOrClose(o) => with_line(
                    psy_content,
                    *o,
                    "Expected either a type name or a closing brace.",
                ),
                ReaderError::ExpectedOpenOrIdent(o) => with_line(
                    psy_content,
                    *o,
                    "Expected either an opening brace/bracket or an ident.",
                ),
                ReaderError::ExpectedOpen(o) => with_line(
                    psy_content,
                    *o,
                    "Expected an opening brace.",
                ),
                ReaderError::UnexpectedClose(o) => with_line(
                    psy_content,
                    *o,
                    "Encountered an unexpected closing brace.",
                ),
                ReaderError::UnexpectedIdent(o) => with_line(
                    psy_content,
                    *o,
                    "Encountered and unexpected ident.",
                ),
                ReaderError::UnexpectedEOF => with_line(
                    psy_content,
                    usize::MAX,
                    "Unexpected end-of-stream, data tree incomplete.",
                ),
                ReaderError::IO(d) => {
                    let mut s = String::from_str("IO error while parsing scene: ");
                    s.append(d.as_str());
                    s
                },
            },
        }
    }
}

impl From<ReaderError> for PsyError {
    fn from(e: ReaderError) -> (r: PsyError) {
        PsyError::ReaderError(e)
    }
}

impl vstd::std_specs::convert::FromSpecImpl<ReaderError> for PsyError {
    open spec fn obeys_from_spec() -> bool {
        true
    }

    open spec fn from_spec(e: ReaderError) -> PsyError {
        PsyError::ReaderError(e)
    }
}

} // verus!

verus! {

// ----------------------------------------------------------------------
// Leaf contents of the output and render settings sections

/// A character with the Unicode `White_Space` property.
pub open spec fn is_white_space(c: char) -> bool {
    ('\u{9}' <= c && c <= '\u{d}') || c == ' ' || c == '\u{85}' || c == '\u{a0}' || c
        == '\u{1680}' || ('\u{2000}' <= c && c <= '\u{200a}') || c == '\u{2028}' || c
        == '\u{2029}' || c == '\u{202f}' || c == '\u{205f}' || c == '\u{3000}'
}

fn white_space(c: char) -> (r: bool)
    ensures
        r == is_white_space(c),
{
    ('\u{9}' <= c && c <= '\u{d}') || c == ' ' || c == '\u{85}' || c == '\u{a0}' || c == '\u{1680}'
        || ('\u{2000}' <= c && c <= '\u{200a}') || c == '\u{2028}' || c == '\u{2029}' || c
        == '\u{202f}' || c == '\u{205f}' || c == '\u{3000}'
}

/// The length of the run of white space that `s` starts with.
pub open spec fn lead_ws(s: Seq<char>) -> nat
    decreases s.len(),
{
    if s.len() > 0 && is_white_space(s[0]) {
        1 + lead_ws(s.drop_first())
    } else {
        0
    }
}

/// The length of the run of white space that `s` ends with.
pub open spec fn trail_ws(s: Seq<char>) -> nat
    decreases s.len(),
{
    if s.len() > 0 && is_white_space(s.last()) {
        1 + trail_ws(s.drop_last())
    } else {
        0
    }
}

/// `s` without its leading and trailing white space.
pub open spec fn trim_spec(s: Seq<char>) -> Seq<char> {
    let r = s.skip(lead_ws(s) as int);
    r.take(r.len() - trail_ws(r))
}

/// `s` without its leading and trailing white space.
pub fn trim_white_space(s: &str) -> (t: &str)
    ensures
        t@ == trim_spec(s@),
{
    let c = crate::text::chars_of(s);
    let n = c.len();
    let mut a: usize = 0;
    proof {
        assert(s@.skip(0) =~= s@);
    }
    while a < n && white_space(c[a])
        invariant
            c@ == s@,
            n == c@.len(),
            a <= n,
            lead_ws(s@) == a + lead_ws(s@.skip(a as int)),
        decreases n - a,
    {
        proof {
            assert(s@.skip(a as int).drop_first() =~= s@.skip(a + 1));
        }
        a += 1;
    }
    let mut b: usize = n;
    while b > a && white_space(c[b - 1])
        invariant
            c@ == s@,
            n == c@.len(),
            a <= b <= n,
            trail_ws(s@.subrange(a as int, n as int)) == (n - b) + trail_ws(
                s@.subrange(a as int, b as int),
            ),
        decreases b - a,
    {
        proof {
            assert(s@.subrange(a as int, b as int).drop_last() =~= s@.subrange(a as int, b - 1));
        }
        b -= 1;
    }
    proof {
        assert(s@.subrange(a as int, n as int) =~= s@.skip(a as int));
        assert(s@.skip(a as int).take(b - a) =~= s@.subrange(a as int, b as int));
    }
    s.substring_char(a, b)
}

/// The message for an output path of fewer than two characters.
pub open spec fn path_format_message() -> Seq<char> {
    "File path format is incorrect."@
}

/// The message for an output path that is not quoted.
pub open spec fn path_quotes_message() -> Seq<char> {
    "File paths must be surrounded by quotes."@
}

/// Reads the path of an output leaf: its contents, trimmed of white space,
/// must be at least two characters long and be surrounded by double
/// quotes, which are dropped.  Errors are reported at `byte_offset`.
pub fn parse_output_path(contents: &str, byte_offset: usize) -> (r: Result<String, PsyError>)
    ensures
        ({
            let t = trim_spec(contents@);
            if t.len() < 2 {
                r matches Err(PsyError::IncorrectLeafData(o, m)) && o == byte_offset && m@
                    == path_format_message()
            } else if t[0] != '"' || t.last() != '"' {
                r matches Err(PsyError::IncorrectLeafData(o, m)) && o == byte_offset && m@
                    == path_quotes_message()
            } else {
                r matches Ok(p) && p@ == t.subrange(1, t.len() - 1)
            }
        }),
{
    let tc = trim_white_space(contents);
    let n = tc.unicode_len();
    if n < 2 {
        return Err(
            PsyError::IncorrectLeafData(
                byte_offset,
                String::from_str("File path format is incorrect."),
            ),
        );
    }
    if tc.get_char(0) != '"' || tc.get_char(n - 1) != '"' {
        return Err(
            PsyError::IncorrectLeafData(
                byte_offset,
                String::from_str("File paths must be surrounded by quotes."),
            ),
        );
    }
    Ok(String::from_str(tc.substring_char(1, n - 1)))
}

/// The single unsigned 32-bit number that `s` holds between optional
/// whitespace, if it holds exactly that.
pub open spec fn whole_u32(s: Seq<char>) -> Option<int> {
    match ws_unsigned(s, u32::MAX as int) {
        Some((k, v)) => if k == s.len() {
            Some(v)
        } else {
            None
        },
        None => None,
    }
}

/// The two unsigned 32-bit numbers that `s` holds between optional
/// whitespace, if it holds exactly that.
pub open spec fn whole_u32_pair(s: Seq<char>) -> Option<(int, int)> {
    match ws_unsigned(s, u32::MAX as int) {
        Some((k1, v1)) => match ws_unsigned(s.skip(k1), u32::MAX as int) {
            Some((k2, v2)) => if k1 + k2 == s.len() {
                Some((v1, v2))
            } else {
                None
            },
            None => None,
        },
        None => None,
    }
}

fn whole_number(contents: &str) -> (r: Option<u32>)
    ensures
        match whole_u32(contents@) {
            Some(v) => r matches Some(n) && n == v,
            None => r is None,
        },
{
    proof {
        lemma_ws_unsigned_in_bounds(contents@, u32::MAX as int);
    }
    match ws_u32(contents) {
        Ok((rest, n)) => if rest.is_empty() {
            Some(n)
        } else {
            None
        },
        Err(()) => None,
    }
}

/// The message for resolution contents that are not two numbers.
pub open spec fn resolution_message() -> Seq<char> {
    "Resolution should be specified with two integers in the form '[width height]'."@
}

/// The message for samples-per-pixel contents that are not a number.
pub open spec fn samples_message() -> Seq<char> {
    "SamplesPerPixel should be an integer specified in the form '[samples]'."@
}

/// The message for seed contents that are not a number.
pub open spec fn seed_message() -> Seq<char> {
    "Seed should be an integer specified in the form '[samples]'."@
}

/// Reads the width and height of a resolution leaf.  Errors are reported
/// at `byte_offset`.
pub fn parse_resolution(contents: &str, byte_offset: usize) -> (r: Result<(u32, u32), PsyError>)
    ensures
        match whole_u32_pair(contents@) {
            Some((w, h)) => r matches Ok((rw, rh)) && rw == w && rh == h,
            None => r matches Err(PsyError::IncorrectLeafData(o, m)) && o == byte_offset && m@
                == resolution_message(),
        },
{
    if let Ok((rest, w)) = ws_u32(contents) {
        proof {
            lemma_ws_unsigned_in_bounds(contents@, u32::MAX as int);
            lemma_ws_unsigned_in_bounds(rest@, u32::MAX as int);
        }
        if let Ok((rest2, h)) = ws_u32(rest) {
            if rest2.is_empty() {
                return Ok((w, h));
            }
        }
    }
    Err(
        PsyError::IncorrectLeafData(
            byte_offset,
            String::from_str(
                "Resolution should be specified with two integers in the form '[width height]'.",
            ),
        ),
    )
}

/// Reads the number of a samples-per-pixel leaf.  Errors are reported at
/// `byte_offset`.
pub fn parse_samples_per_pixel(contents: &str, byte_offset: usize) -> (r: Result<u32, PsyError>)
    ensures
        match whole_u32(contents@) {
            Some(v) => r matches Ok(n) && n == v,
            None => r matches Err(PsyError::IncorrectLeafData(o, m)) && o == byte_offset && m@
                == samples_message(),
        },
{
    match whole_number(contents) {
        Some(n) => Ok(n),
        None => Err(
            PsyError::IncorrectLeafData(
                byte_offset,
                String::from_str(
                    "SamplesPerPixel should be an integer specified in the form '[samples]'.",
                ),
            ),
        ),
    }
}

/// Reads the number of a seed leaf.  Errors are reported at `byte_offset`.
pub fn parse_seed(contents: &str, byte_offset: usize) -> (r: Result<u32, PsyError>)
    ensures
        match whole_u32(contents@) {
            Some(v) => r matches Ok(n) && n == v,
            None => r matches Err(PsyError::IncorrectLeafData(o, m)) && o == byte_offset && m@
                == seed_message(),
        },
{
    match whole_number(contents) {
        Some(n) => Ok(n),
        None => Err(
            PsyError::IncorrectLeafData(
                byte_offset,
                String::from_str("Seed should be an integer specified in the form '[samples]'."),
            ),
        ),
    }
}

} // verus!

verus! {

// ----------------------------------------------------------------------
// Reading the output and render settings sections

/// What to do after a step of reading a section.
#[derive(Debug)]
pub enum SectionStep {
    /// The event was consumed: read the next one.
    Continue,
    /// The section's children are all read: the next event must close it.
    Close,
    /// Reading failed.
    Failed(PsyError),
}

/// `r` is the step that ends counting with outcome `check`.
pub open spec fn finish_step(r: SectionStep, subs: Seq<(&str, bool, Range)>, counts: Seq<usize>, reader_offset: usize) -> bool {
    match r {
        SectionStep::Close => counts_in_range(subs, counts),
        SectionStep::Failed(e) => !counts_in_range(subs, counts) && forall|i: int|
            first_bad_count(subs, counts, i) ==> (e matches PsyError::WrongNodeCount(o, m) && o
                == reader_offset && m@ == too_few_message(
                subs[i].2.lower_bound() as nat,
                subs[i].0@,
                counts[i] as nat,
                subs[i].1,
            )),
        SectionStep::Continue => false,
    }
}

/// The subsections of a render settings section.
pub open spec fn render_settings_subs() -> Seq<(&'static str, bool, Range)> {
    seq![
        ("Resolution", true, Range::Range(1, 2)),
        ("SamplesPerPixel", true, Range::Range(1, 2)),
        ("Seed", true, Range::Full),
    ]
}

/// The settings read from a render settings section: the resolution, the
/// samples per pixel and the seed.
#[derive(Debug, Copy, Clone, PartialEq, Eq)]
pub struct RenderSettings {
    pub resolution: (u32, u32),
    pub spp: u32,
    pub seed: u32,
}

/// Handling leaf `name` with `contents` at `offset` turns the settings
/// `before` into `after` with step `r`.
pub open spec fn settings_leaf(
    r: SectionStep,
    before: RenderSettings,
    after: RenderSettings,
    name: Seq<char>,
    contents: Seq<char>,
    offset: usize,
) -> bool {
    if name == "Resolution"@ {
        match whole_u32_pair(contents) {
            Some((w, h)) => r is Continue && after == (RenderSettings {
                resolution: (w as u32, h as u32),
                ..before
            }),
            None => after == before && (r matches SectionStep::Failed(
                PsyError::IncorrectLeafData(o, m),
            ) && o == offset && m@ == resolution_message()),
        }
    } else if name == "SamplesPerPixel"@ {
        match whole_u32(contents) {
            Some(n) => r is Continue && after == (RenderSettings { spp: n as u32, ..before }),
            None => after == before && (r matches SectionStep::Failed(
                PsyError::IncorrectLeafData(o, m),
            ) && o == offset && m@ == samples_message()),
        }
    } else {
        match whole_u32(contents) {
            Some(n) => r is Continue && after == (RenderSettings { seed: n as u32, ..before }),
            None => after == before && (r matches SectionStep::Failed(
                PsyError::IncorrectLeafData(o, m),
            ) && o == offset && m@ == seed_message()),
        }
    }
}

/// One step of reading a render settings section, on the next event
/// (peeked, then consumed where it is a counted leaf).
///
/// A `Resolution`, `SamplesPerPixel` or `Seed` leaf is counted (at most one
/// of each of the first two) and its contents read into `settings`; any
/// other event ends the children, and then a resolution and a
/// samples-per-pixel count must have been read.
pub fn render_settings_step(
    counts: &mut Vec<usize>,
    settings: &mut RenderSettings,
    event: &Event,
    reader_offset: usize,
) -> (r: SectionStep)
    requires
        old(counts)@.len() == 3,
        forall|i: int| 0 <= i < 3 ==> #[trigger] old(counts)@[i] < usize::MAX,
    ensures
        final(counts)@.len() == 3,
        ({
            let subs = render_settings_subs();
            match *event {
                Event::Leaf { node_type, contents, byte_offset } => {
                    &&& no_subsection(subs, node_type@, true) ==> final(counts)@ == old(counts)@
                        && *final(settings) == *old(settings) && finish_step(
                        r,
                        subs,
                        old(counts)@,
                        reader_offset,
                    )
                    &&& forall|idx: int|
                        first_subsection(subs, node_type@, true, idx) ==> {
                            let n = old(counts)@[idx] + 1;
                            &&& final(counts)@ == old(counts)@.update(idx, n as usize)
                            &&& if subs[idx].2.below_upper(n) {
                                settings_leaf(
                                    r,
                                    *old(settings),
                                    *final(settings),
                                    node_type@,
                                    contents@,
                                    byte_offset,
                                )
                            } else {
                                *final(settings) == *old(settings) && (r matches SectionStep::Failed(
                                    PsyError::WrongNodeCount(o, m),
                                ) && o == byte_offset && m@ == too_many_message(
                                    (subs[idx].2.upper_bound() - 1) as nat,
                                    node_type@,
                                    n as nat,
                                    true,
                                ))
                            }
                        }
                },
                _ => final(counts)@ == old(counts)@ && *final(settings) == *old(settings)
                    && finish_step(r, subs, old(counts)@, reader_offset),
            }
        }),
{
    let subs = vec![
        ("Resolution", true, Range::Range(1, 2)),
        ("SamplesPerPixel", true, Range::Range(1, 2)),
        ("Seed", true, Range::Full),
    ];
    proof {
        assert(subs@ =~= render_settings_subs());
        reveal_strlit("Resolution");
        reveal_strlit("SamplesPerPixel");
        reveal_strlit("Seed");
    }
    match ensure_subsections(subs.as_slice(), counts, event, reader_offset) {
        SubsectionAction::Handle => match event {
            Event::Leaf { node_type, contents, byte_offset } => {
                if str_eq(node_type.as_str(), "Resolution") {
                    match parse_resolution(contents.as_str(), *byte_offset) {
                        Ok(r) => {
                            settings.resolution = r;
                            SectionStep::Continue
                        },
                        Err(e) => SectionStep::Failed(e),
                    }
                } else if str_eq(node_type.as_str(), "SamplesPerPixel") {
                    match parse_samples_per_pixel(contents.as_str(), *byte_offset) {
                        Ok(n) => {
                            settings.spp = n;
                            SectionStep::Continue
                        },
                        Err(e) => SectionStep::Failed(e),
                    }
                } else {
                    match parse_seed(contents.as_str(), *byte_offset) {
                        Ok(n) => {
                            settings.seed = n;
                            SectionStep::Continue
                        },
                        Err(e) => SectionStep::Failed(e),
                    }
                }
            },
            _ => vstd::pervasive::unreached(),
        },
        SubsectionAction::Finish(Ok(())) => SectionStep::Close,
        SubsectionAction::Finish(Err(e)) => SectionStep::Failed(e),
    }
}

} // verus!

verus! {

/// The subsections of an output section.
pub open spec fn output_info_subs() -> Seq<(&'static str, bool, Range)> {
    seq![("Path", true, Range::Range(1, 2))]
}

/// Handling a path leaf with `contents` at `offset` turns the path `before`
/// into `after` with step `r`.
pub open spec fn path_leaf(
    r: SectionStep,
    before: Seq<char>,
    after: Seq<char>,
    contents: Seq<char>,
    offset: usize,
) -> bool {
    let t = trim_spec(contents);
    if t.len() < 2 {
        after == before && (r matches SectionStep::Failed(PsyError::IncorrectLeafData(o, m)) && o
            == offset && m@ == path_format_message())
    } else if t[0] != '"' || t.last() != '"' {
        after == before && (r matches SectionStep::Failed(PsyError::IncorrectLeafData(o, m)) && o
            == offset && m@ == path_quotes_message())
    } else {
        r is Continue && after == t.subrange(1, t.len() - 1)
    }
}

/// One step of reading an output section, on the next event (peeked, then
/// consumed where it is the path leaf).
///
/// The one `Path` leaf is counted and its contents, a quoted path, read
/// into `path`; any other event ends the children, and then the path must
/// have been read.
pub fn output_info_step(
    counts: &mut Vec<usize>,
    path: &mut String,
    event: &Event,
    reader_offset: usize,
) -> (r: SectionStep)
    requires
        old(counts)@.len() == 1,
        old(counts)@[0] < usize::MAX,
    ensures
        final(counts)@.len() == 1,
        ({
            let subs = output_info_subs();
            match *event {
                Event::Leaf { node_type, contents, byte_offset } => {
                    &&& no_subsection(subs, node_type@, true) ==> final(counts)@ == old(counts)@
                        && final(path)@ == old(path)@ && finish_step(
                        r,
                        subs,
                        old(counts)@,
                        reader_offset,
                    )
                    &&& forall|idx: int|
                        first_subsection(subs, node_type@, true, idx) ==> {
                            let n = old(counts)@[idx] + 1;
                            &&& final(counts)@ == old(counts)@.update(idx, n as usize)
                            &&& if subs[idx].2.below_upper(n) {
                                path_leaf(r, old(path)@, final(path)@, contents@, byte_offset)
                            } else {
                                final(path)@ == old(path)@ && (r matches SectionStep::Failed(
                                    PsyError::WrongNodeCount(o, m),
                                ) && o == byte_offset && m@ == too_many_message(
                                    (subs[idx].2.upper_bound() - 1) as nat,
                                    node_type@,
                                    n as nat,
                                    true,
                                ))
                            }
                        }
                },
                _ => final(counts)@ == old(counts)@ && final(path)@ == old(path)@ && finish_step(
                    r,
                    subs,
                    old(counts)@,
                    reader_offset,
                ),
            }
        }),
{
    let subs = vec![("Path", true, Range::Range(1, 2))];
    proof {
        assert(subs@ =~= output_info_subs());
    }
    match ensure_subsections(subs.as_slice(), counts, event, reader_offset) {
        SubsectionAction::Handle => match event {
            Event::Leaf { contents, byte_offset, .. } => {
                match parse_output_path(contents.as_str(), *byte_offset) {
                    Ok(p) => {
                        *path = p;
                        SectionStep::Continue
                    },
                    Err(e) => SectionStep::Failed(e),
                }
            },
            _ => vstd::pervasive::unreached(),
        },
        SubsectionAction::Finish(Ok(())) => SectionStep::Close,
        SubsectionAction::Finish(Err(e)) => SectionStep::Failed(e),
    }
}

} // verus!

verus! {

// ----------------------------------------------------------------------
// Reading a scene

/// A section of a scene, read by its own reader.
#[derive(Debug, Copy, Clone, PartialEq, Eq)]
pub enum SceneSection {
    Output,
    RenderSettings,
    Shaders,
    World,
    Camera,
    Assembly,
}

/// What to do after looking at the next event of a scene.
#[derive(Debug)]
pub enum SceneStep {
    /// The event opens this section: read it with its reader, then look at
    /// the next event.
    Parse(SceneSection),
    /// The scene's children are all read: the next event must close it.
    Close,
    /// Reading failed.
    Failed(PsyError),
}

/// The sections before the root assembly, one of each.
pub open spec fn scene_subs() -> Seq<(&'static str, bool, Range)> {
    seq![
        ("Output", false, Range::Range(1, 2)),
        ("RenderSettings", false, Range::Range(1, 2)),
        ("Shaders", false, Range::Range(1, 2)),
        ("World", false, Range::Range(1, 2)),
        ("Camera", false, Range::Range(1, 2)),
    ]
}

/// The root assembly, exactly one.
pub open spec fn assembly_subs() -> Seq<(&'static str, bool, Range)> {
    seq![("Assembly", false, Range::Range(1, 2))]
}

/// The section of the first phase at index `idx` of its list.
pub open spec fn first_phase_section(idx: int) -> SceneSection {
    if idx == 0 {
        SceneSection::Output
    } else if idx == 1 {
        SceneSection::RenderSettings
    } else if idx == 2 {
        SceneSection::Shaders
    } else if idx == 3 {
        SceneSection::World
    } else {
        SceneSection::Camera
    }
}

/// The type name and kind of the node that `e` opens, if it opens one.
pub open spec fn opened(e: Event) -> Option<(Seq<char>, bool, usize)> {
    match e {
        Event::Leaf { node_type, byte_offset, .. } => Some((node_type@, true, byte_offset)),
        Event::InnerOpen { node_type, byte_offset, .. } => Some((node_type@, false, byte_offset)),
        _ => None,
    }
}

/// A step over `subs` on event `e`, counting from `before` to `after`,
/// gives `r`, where `found` is the step for a counted node of the list at
/// index `idx` and `done` the step once every count is in range.
pub open spec fn counted_step(
    r: SceneStep,
    subs: Seq<(&str, bool, Range)>,
    before: Seq<usize>,
    after: Seq<usize>,
    e: Event,
    reader_offset: usize,
    found: spec_fn(int) -> SceneStep,
    done: SceneStep,
) -> bool {
    match opened(e) {
        Some((name, leaf, offset)) if !no_subsection(subs, name, leaf) => forall|idx: int|
            first_subsection(subs, name, leaf, idx) ==> {
                let n = before[idx] + 1;
                &&& after == before.update(idx, n as usize)
                &&& if subs[idx].2.below_upper(n) {
                    r == found(idx)
                } else {
                    r matches SceneStep::Failed(PsyError::WrongNodeCount(o, m)) && o == offset
                        && m@ == too_many_message(
                        (subs[idx].2.upper_bound() - 1) as nat,
                        name,
                        n as nat,
                        leaf,
                    )
                }
            },
        _ => after == before && if counts_in_range(subs, before) {
            r == done
        } else {
            forall|i: int|
                first_bad_count(subs, before, i) ==> (r matches SceneStep::Failed(
                    PsyError::WrongNodeCount(o, m),
                ) && o == reader_offset && m@ == too_few_message(
                    subs[i].2.lower_bound() as nat,
                    subs[i].0@,
                    before[i] as nat,
                    subs[i].1,
                ))
        },
    }
}

/// The progress of reading a scene: which phase it is in (the sections
/// before the root assembly, then the root assembly) and the counts of the
/// current phase's sections.
pub struct SceneReading {
    assembly_phase: bool,
    counts: Vec<usize>,
}

impl SceneReading {
    /// Whether the root assembly is being read.
    pub closed spec fn in_assembly_phase(&self) -> bool {
        self.assembly_phase
    }

    /// The counts of the current phase's sections.
    pub closed spec fn counts(&self) -> Seq<usize> {
        self.counts@
    }

    /// The reading is consistent, with room for one more of each section.
    pub open spec fn wf(&self) -> bool {
        &&& self.counts().len() == if self.in_assembly_phase() {
            1nat
        } else {
            5nat
        }
        &&& forall|i: int| 0 <= i < self.counts().len() ==> #[trigger] self.counts()[i] < usize::MAX
    }

    /// Nothing read yet.
    pub fn new() -> (s: SceneReading)
        ensures
            s.wf(),
            !s.in_assembly_phase(),
            s.counts() == seq![0usize, 0, 0, 0, 0],
    {
        let s = SceneReading { assembly_phase: false, counts: vec![0, 0, 0, 0, 0] };
        proof {
            assert(s.counts() =~= seq![0usize, 0, 0, 0, 0]);
        }
        s
    }

    fn assembly_step(&mut self, event: &Event, reader_offset: usize) -> (r: SceneStep)
        requires
            old(self).wf(),
            old(self).in_assembly_phase(),
        ensures
            final(self).in_assembly_phase(),
            final(self).counts().len() == 1,
            r is Parse ==> final(self).wf(),
            counted_step(
                r,
                assembly_subs(),
                old(self).counts(),
                final(self).counts(),
                *event,
                reader_offset,
                |idx: int| SceneStep::Parse(SceneSection::Assembly),
                SceneStep::Close,
            ),
    {
        let subs = vec![("Assembly", false, Range::Range(1, 2))];
        proof {
            assert(subs@ =~= assembly_subs());
        }
        match ensure_subsections(subs.as_slice(), &mut self.counts, event, reader_offset) {
            SubsectionAction::Handle => SceneStep::Parse(SceneSection::Assembly),
            SubsectionAction::Finish(Ok(())) => SceneStep::Close,
            SubsectionAction::Finish(Err(e)) => SceneStep::Failed(e),
        }
    }

    /// One step of reading a scene, on the next event (peeked, and left for
    /// the section's reader where it opens a section).
    ///
    /// First each of `Output`, `RenderSettings`, `Shaders`, `World` and
    /// `Camera` must be met exactly once, in any order; then, from the
    /// first event that opens none of them, exactly one `Assembly`; then
    /// the scene must close.
    pub fn step(&mut self, event: &Event, reader_offset: usize) -> (r: SceneStep)
        requires
            old(self).wf(),
        ensures
            r is Parse ==> final(self).wf(),
            if old(self).in_assembly_phase() {
                &&& final(self).in_assembly_phase()
                &&& counted_step(
                    r,
                    assembly_subs(),
                    old(self).counts(),
                    final(self).counts(),
                    *event,
                    reader_offset,
                    |idx: int| SceneStep::Parse(SceneSection::Assembly),
                    SceneStep::Close,
                )
            } else {
                let fresh = seq![0usize];
                match opened(*event) {
                    Some((name, leaf, _)) if !no_subsection(scene_subs(), name, leaf) => {
                        &&& !final(self).in_assembly_phase()
                        &&& counted_step(
                            r,
                            scene_subs(),
                            old(self).counts(),
                            final(self).counts(),
                            *event,
                            reader_offset,
                            |idx: int| SceneStep::Parse(first_phase_section(idx)),
                            SceneStep::Close,
                        )
                    },
                    _ => if counts_in_range(scene_subs(), old(self).counts()) {
                        &&& final(self).in_assembly_phase()
                        &&& counted_step(
                            r,
                            assembly_subs(),
                            fresh,
                            final(self).counts(),
                            *event,
                            reader_offset,
                            |idx: int| SceneStep::Parse(SceneSection::Assembly),
                            SceneStep::Close,
                        )
                    } else {
                        &&& !final(self).in_assembly_phase()
                        &&& counted_step(
                            r,
                            scene_subs(),
                            old(self).counts(),
                            final(self).counts(),
                            *event,
                            reader_offset,
                            |idx: int| SceneStep::Parse(first_phase_section(idx)),
                            SceneStep::Close,
                        )
                    },
                }
            },
    {
        if self.assembly_phase {
            return self.assembly_step(event, reader_offset);
        }
        let subs = vec![
            ("Output", false, Range::Range(1, 2)),
            ("RenderSettings", false, Range::Range(1, 2)),
            ("Shaders", false, Range::Range(1, 2)),
            ("World", false, Range::Range(1, 2)),
            ("Camera", false, Range::Range(1, 2)),
        ];
        proof {
            assert(subs@ =~= scene_subs());
        }
        let ghost before = self.counts@;
        match ensure_subsections(subs.as_slice(), &mut self.counts, event, reader_offset) {
            SubsectionAction::Handle => {
                let (name, leaf) = match event {
                    Event::Leaf { node_type, .. } => (node_type.as_str(), true),
                    Event::InnerOpen { node_type, .. } => (node_type.as_str(), false),
                    _ => ("", false),
                };
                let idx = find_section(name);
                proof {
                    let subs = scene_subs();
                    assert(opened(*event) matches Some((n, l, _)) && n == name@ && l == leaf);
                    assert(!no_subsection(subs, name@, leaf));
                    let j = choose|j: int|
                        0 <= j < subs.len() && names_subsection(#[trigger] subs[j], name@, leaf);
                    assert(subs[j].0@ == name@ && subs[j].1 == leaf);
                    assert(!leaf);
                    assert(idx < 5);
                    assert(first_subsection(subs, name@, leaf, idx as int));
                    assert forall|k: int| first_subsection(subs, name@, leaf, k) implies k
                        == idx by {
                        if k < idx {
                            assert(subs[k].0@ != name@);
                        }
                        if k > idx {
                            assert(names_subsection(subs[idx as int], name@, leaf));
                        }
                    }
                }
                let section = if idx == 0 {
                    SceneSection::Output
                } else if idx == 1 {
                    SceneSection::RenderSettings
                } else if idx == 2 {
                    SceneSection::Shaders
                } else if idx == 3 {
                    SceneSection::World
                } else {
                    SceneSection::Camera
                };
                SceneStep::Parse(section)
            },
            SubsectionAction::Finish(Ok(())) => {
                proof {
                    if let Some((name, leaf, _)) = opened(*event) {
                        if !no_subsection(scene_subs(), name, leaf) {
                            lemma_first_subsection_exists(scene_subs(), name, leaf);
                        }
                    }
                }
                self.assembly_phase = true;
                self.counts = vec![0];
                proof {
                    assert(self.counts@ =~= seq![0usize]);
                }
                self.assembly_step(event, reader_offset)
            },
            SubsectionAction::Finish(Err(e)) => SceneStep::Failed(e),
        }
    }
}

/// The index of the first-phase section named `name`, or 5 for none.
fn find_section(name: &str) -> (r: usize)
    ensures
        r <= 5,
        r < 5 ==> scene_subs()[r as int].0@ == name@ && forall|j: int|
            0 <= j < r ==> scene_subs()[j].0@ != name@,
        r == 5 ==> forall|j: int| 0 <= j < 5 ==> scene_subs()[j].0@ != name@,
{
    if str_eq(name, "Output") {
        0
    } else if str_eq(name, "RenderSettings") {
        1
    } else if str_eq(name, "Shaders") {
        2
    } else if str_eq(name, "World") {
        3
    } else if str_eq(name, "Camera") {
        4
    } else {
        5
    }
}

} // verus!
