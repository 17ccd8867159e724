//! Checks made while reading data tree events, and small number parsers.
use vstd::prelude::*;
use vstd::string::*;
use crate::parse::data_tree::Event;
use crate::parse::psy::{PsyError, ReaderError};
use crate::text::{chars_of, str_eq};

verus! {

// ----------------------------------------------------------------------
// Decimal text

/// The decimal digit character for `d` (0 to 9).
pub open spec fn digit_char(d: nat) -> char {
    (48 + d) as char
}

/// The decimal representation of `n`, without leading zeros.
pub open spec fn decimal(n: nat) -> Seq<char>
    decreases n,
{
    if n < 10 {
        seq![digit_char(n)]
    } else {
        decimal(n / 10) + seq![digit_char(n % 10)]
    }
}

/// The decimal representation of `n` as a string.
pub fn decimal_string(n: usize) -> (s: String)
    ensures
        s@ == decimal(n as nat),
{
    let digits_text = "0123456789";
    proof {
        reveal_strlit("0123456789");
    }
    // Collect the digits, least significant first.
    let mut digits: Vec<usize> = Vec::new();
    let mut m = n;
    let ghost mut tail: Seq<char> = Seq::empty();
    loop
        invariant_except_break
            decimal(n as nat) == decimal(m as nat) + tail,
        invariant
            m <= n,
            digits@.len() == tail.len(),
            forall|k: int|
                0 <= k < digits@.len() ==> digits@[k] < 10 && tail[tail.len() - 1 - k]
                    == digit_char(#[trigger] digits@[k] as nat),
        ensures
            decimal(n as nat) == tail,
        decreases m,
    {
        if m < 10 {
            digits.push(m);
            proof {
                assert(decimal(m as nat) == seq![digit_char(m as nat)]);
                tail = seq![digit_char(m as nat)] + tail;
                assert(decimal(n as nat) =~= Seq::<char>::empty() + tail);
            }
            break;
        }
        digits.push(m % 10);
        proof {
            assert(decimal(m as nat) == decimal((m / 10) as nat) + seq![digit_char((m % 10) as nat)]);
            assert(decimal(n as nat) =~= decimal((m / 10) as nat) + (seq![digit_char((m % 10) as nat)] + tail));
            tail = seq![digit_char((m % 10) as nat)] + tail;
        }
        m = m / 10;
    }
    let mut s = String::new();
    let mut i = digits.len();
    while i > 0
        invariant
            i <= digits@.len(),
            digits@.len() == tail.len(),
            decimal(n as nat) == tail,
            digits_text@ == seq!['0', '1', '2', '3', '4', '5', '6', '7', '8', '9'],
            forall|k: int|
                0 <= k < digits@.len() ==> digits@[k] < 10 && tail[tail.len() - 1 - k]
                    == digit_char(#[trigger] digits@[k] as nat),
            s@ == tail.take(tail.len() - i),
        decreases i,
    {
        i -= 1;
        let d = digits[i];
        let one = digits_text.substring_char(d, d + 1);
        proof {
            assert(one@ =~= seq![digit_char(d as nat)]);
            assert(tail.take(tail.len() - i) =~= tail.take(tail.len() - i - 1) + seq![
                tail[tail.len() - 1 - i],
            ]);
        }
        s.append(one);
    }
    proof {
        assert(tail.take(tail.len() as int) =~= tail);
    }
    s
}

// ----------------------------------------------------------------------
// Ranges of counts

/// A range of allowed counts.
#[derive(Debug, Copy, Clone, Eq, PartialEq)]
pub enum Range {
    Full,
    From(usize),
    To(usize),
    Range(usize, usize),
}

impl Range {
    /// Whether `n` lies in the range (`To` and `Range` exclude their end).
    pub open spec fn holds(self, n: int) -> bool {
        match self {
            Range::Full => true,
            Range::From(start) => n >= start,
            Range::To(end) => n < end,
            Range::Range(start, end) => n >= start && n < end,
        }
    }

    /// Whether `n` lies below the range's upper bound, if it has one.
    pub open spec fn below_upper(self, n: int) -> bool {
        match self {
            Range::Full | Range::From(_) => true,
            Range::To(end) => n < end,
            Range::Range(_, end) => n < end,
        }
    }

    /// The lower bound, zero where there is none.
    pub open spec fn lower_bound(self) -> usize {
        match self {
            Range::Full => 0,
            Range::From(start) => start,
            Range::To(_) => 0,
            Range::Range(start, _) => start,
        }
    }

    /// The (exclusive) upper bound, `usize::MAX` where there is none.
    pub open spec fn upper_bound(self) -> usize {
        match self {
            Range::Full => usize::MAX,
            Range::From(_) => usize::MAX,
            Range::To(end) => end,
            Range::Range(_, end) => end,
        }
    }

    /// Whether `n` lies in the range.
    pub fn contains(self, n: usize) -> (r: bool)
        ensures
            r == self.holds(n as int),
    {
        match self {
            Range::Full => true,
            Range::From(start) => n >= start,
            Range::To(end) => n < end,
            Range::Range(start, end) => n >= start && n < end,
        }
    }

    /// Checks whether the value is within the upper bound of the range,
    /// ignoring any lower bound.
    pub fn contains_upper(self, n: usize) -> (r: bool)
        ensures
            r == self.below_upper(n as int),
    {
        match self {
            Range::Full | Range::From(_) => true,
            Range::To(end) => n < end,
            Range::Range(_, end) => n < end,
        }
    }

    /// The lower bound, zero where there is none.
    pub fn lower(self) -> (r: usize)
        ensures
            r == self.lower_bound(),
    {
        match self {
            Range::Full => 0,
            Range::From(start) => start,
            Range::To(_) => 0,
            Range::Range(start, _) => start,
        }
    }

    /// The (exclusive) upper bound, `usize::MAX` where there is none.
    pub fn upper(self) -> (r: usize)
        ensures
            r == self.upper_bound(),
    {
        match self {
            Range::Full => usize::MAX,
            Range::From(_) => usize::MAX,
            Range::To(end) => end,
            Range::Range(_, end) => end,
        }
    }
}

/// A count lies in a range exactly when it lies between the range's lower
/// bound and its (exclusive) upper bound; this fails only for the count
/// `usize::MAX`, which the unbounded ranges hold.
pub proof fn law_range_bounds(r: Range, n: usize)
    requires
        n < usize::MAX,
    ensures
        r.holds(n as int) <==> r.lower_bound() <= n < r.upper_bound(),
{
}

/// A count in a range lies below its upper bound.
pub proof fn law_range_below_upper(r: Range, n: int)
    ensures
        r.holds(n) ==> r.below_upper(n),
{
}

/// std's `..`, which holds nothing.
#[verifier::external_type_specification]
#[verifier::external_body]
pub struct ExRangeFull(core::ops::RangeFull);

impl From<core::ops::RangeFull> for Range {
    /// Any count.
    fn from(_r: core::ops::RangeFull) -> (out: Range) {
        Range::Full
    }
}

impl vstd::std_specs::convert::FromSpecImpl<core::ops::RangeFull> for Range {
    open spec fn obeys_from_spec() -> bool {
        true
    }

    open spec fn from_spec(_r: core::ops::RangeFull) -> Range {
        Range::Full
    }
}

impl From<core::ops::Range<usize>> for Range {
    /// The range of counts `r.start <= n < r.end`.
    fn from(r: core::ops::Range<usize>) -> (out: Range) {
        Range::Range(r.start, r.end)
    }
}

impl vstd::std_specs::convert::FromSpecImpl<core::ops::Range<usize>> for Range {
    open spec fn obeys_from_spec() -> bool {
        true
    }

    open spec fn from_spec(r: core::ops::Range<usize>) -> Range {
        Range::Range(r.start, r.end)
    }
}

impl From<usize> for Range {
    /// The range holding exactly the count `r` (the bound past it wraps to
    /// zero for `usize::MAX`).
    fn from(r: usize) -> (out: Range) {
        Range::Range(r, r.wrapping_add(1))
    }
}

impl vstd::std_specs::convert::FromSpecImpl<usize> for Range {
    open spec fn obeys_from_spec() -> bool {
        true
    }

    open spec fn from_spec(r: usize) -> Range {
        Range::Range(r, vstd::wrapping::usize_specs::wrapping_add(r, 1))
    }
}

// ----------------------------------------------------------------------
// Closing a node

/// The text of the error for finding a node of type `found` where a node
/// should have closed.
pub open spec fn close_message(found: Seq<char>) -> Seq<char> {
    "Expected the node to be closed, but instead found a '"@ + found + "'."@
}

/// Checks that the event read where a node should close does close it.
///
/// A reader error is passed on; an opening or leaf event is reported at its
/// offset; the end of the events is reported at `reader_offset`, the
/// reader's current offset.
pub fn ensure_close(event: Result<Event, ReaderError>, reader_offset: usize) -> (r: Result<
    (),
    PsyError,
>)
    ensures
        match event {
            Err(e) => r matches Err(PsyError::ReaderError(e2)) && e2 == e,
            Ok(Event::InnerClose { .. }) => r is Ok,
            Ok(Event::InnerOpen { node_type, byte_offset, .. }) => r matches Err(
                PsyError::ExpectedInternalNodeClose(o, m),
            ) && o == byte_offset && m@ == close_message(node_type@),
            Ok(Event::Leaf { node_type, byte_offset, .. }) => r matches Err(
                PsyError::ExpectedInternalNodeClose(o, m),
            ) && o == byte_offset && m@ == close_message(node_type@),
            Ok(Event::Done) => r matches Err(PsyError::UnknownError(o)) && o == reader_offset,
        },
{
    match event {
        Err(e) => Err(PsyError::ReaderError(e)),
        Ok(Event::InnerClose { .. }) => Ok(()),
        Ok(Event::InnerOpen { node_type, byte_offset, .. }) => Err(
            PsyError::ExpectedInternalNodeClose(byte_offset, close_text(&node_type)),
        ),
        Ok(Event::Leaf { node_type, byte_offset, .. }) => Err(
            PsyError::ExpectedInternalNodeClose(byte_offset, close_text(&node_type)),
        ),
        Ok(Event::Done) => Err(PsyError::UnknownError(reader_offset)),
    }
}

fn close_text(found: &String) -> (s: String)
    ensures
        s@ == close_message(found@),
{
    let mut s = String::from_str("Expected the node to be closed, but instead found a '");
    s.append(found.as_str());
    s.append("'.");
    s
}

} // verus!

verus! {

// ----------------------------------------------------------------------
// Counting subsections

/// A subsection description: its node type, whether it is a leaf, and the
/// range of counts allowed for it.
pub open spec fn names_subsection(sub: (&str, bool, Range), name: Seq<char>, leaf: bool) -> bool {
    sub.1 == leaf && sub.0@ == name
}

/// `idx` is the first subsection that names a node of type `name` of the
/// given kind.
pub open spec fn first_subsection(
    subs: Seq<(&str, bool, Range)>,
    name: Seq<char>,
    leaf: bool,
    idx: int,
) -> bool {
    &&& 0 <= idx < subs.len()
    &&& names_subsection(subs[idx], name, leaf)
    &&& forall|j: int| 0 <= j < idx ==> !names_subsection(#[trigger] subs[j], name, leaf)
}

/// No subsection names a node of type `name` of the given kind.
pub open spec fn no_subsection(subs: Seq<(&str, bool, Range)>, name: Seq<char>, leaf: bool) -> bool {
    forall|j: int| 0 <= j < subs.len() ==> !names_subsection(#[trigger] subs[j], name, leaf)
}

/// The message for finding more nodes of a subsection than it allows.
pub open spec fn too_many_message(most: nat, name: Seq<char>, found: nat, leaf: bool) -> Seq<char> {
    if leaf {
        "Expected at most "@ + decimal(most) + " '"@ + name + "' leaf nodes but found at least "@
            + decimal(found) + "."@
    } else {
        "Expected at most "@ + decimal(most) + " internal '"@ + name
            + "' node(s) but found at least "@ + decimal(found) + "."@
    }
}

/// The message for finding fewer nodes of a subsection than it needs.
pub open spec fn too_few_message(least: nat, name: Seq<char>, found: nat, leaf: bool) -> Seq<char> {
    if leaf {
        "Expected at least "@ + decimal(least) + " '"@ + name + "' leaf node(s) but only found "@
            + decimal(found) + "."@
    } else {
        "Expected at least "@ + decimal(least) + " internal '"@ + name
            + "' node(s) but only found "@ + decimal(found) + "."@
    }
}

/// Every count lies in the range of its subsection.
pub open spec fn counts_in_range(subs: Seq<(&str, bool, Range)>, counts: Seq<usize>) -> bool {
    forall|i: int| 0 <= i < subs.len() ==> (#[trigger] subs[i]).2.holds(counts[i] as int)
}

/// `i` is the first subsection whose count lies outside its range.
pub open spec fn first_bad_count(subs: Seq<(&str, bool, Range)>, counts: Seq<usize>, i: int) -> bool {
    &&& 0 <= i < subs.len()
    &&& !subs[i].2.holds(counts[i] as int)
    &&& forall|j: int| 0 <= j < i ==> (#[trigger] subs[j]).2.holds(counts[j] as int)
}

/// `r` is the outcome of checking the final counts: success where every
/// count is in range, else the error for the first count that is not,
/// reported at `offset`.
pub open spec fn count_check_result(
    r: Result<(), PsyError>,
    subs: Seq<(&str, bool, Range)>,
    counts: Seq<usize>,
    offset: usize,
) -> bool {
    &&& (r is Ok <==> counts_in_range(subs, counts))
    &&& forall|i: int|
        first_bad_count(subs, counts, i) ==> (r matches Err(PsyError::WrongNodeCount(o, m)) && o
            == offset && m@ == too_few_message(
            subs[i].2.lower_bound() as nat,
            subs[i].0@,
            counts[i] as nat,
            subs[i].1,
        ))
}

/// Checks that every count lies in the range of its subsection.
pub fn check_subsection_counts(subs: &[(&str, bool, Range)], counts: &Vec<usize>, offset: usize) -> (r:
    Result<(), PsyError>)
    requires
        counts@.len() == subs@.len(),
    ensures
        count_check_result(r, subs@, counts@, offset),
{
    let mut i: usize = 0;
    while i < subs.len()
        invariant
            counts@.len() == subs@.len(),
            i <= subs@.len(),
            forall|j: int| 0 <= j < i ==> (#[trigger] subs@[j]).2.holds(counts@[j] as int),
        decreases subs@.len() - i,
    {
        let (name, leaf, range) = subs[i];
        if !range.contains(counts[i]) {
            let mut m = String::from_str("Expected at least ");
            let least = decimal_string(range.lower());
            m.append(least.as_str());
            if leaf {
                m.append(" '");
            } else {
                m.append(" internal '");
            }
            m.append(name);
            if leaf {
                m.append("' leaf node(s) but only found ");
            } else {
                m.append("' node(s) but only found ");
            }
            let found = decimal_string(counts[i]);
            m.append(found.as_str());
            m.append(".");
            proof {
                assert forall|k: int| first_bad_count(subs@, counts@, k) implies k == i by {
                    if k < i {
                        assert(subs@[k].2.holds(counts@[k] as int));
                    }
                    if k > i {
                        assert(subs@[i as int].2.holds(counts@[i as int] as int));
                    }
                }
                assert(first_bad_count(subs@, counts@, i as int));
                if leaf {
                    assert(m@ =~= too_few_message(
                        range.lower_bound() as nat,
                        name@,
                        counts@[i as int] as nat,
                        leaf,
                    ));
                } else {
                    assert(m@ =~= too_few_message(
                        range.lower_bound() as nat,
                        name@,
                        counts@[i as int] as nat,
                        leaf,
                    ));
                }
            }
            return Err(PsyError::WrongNodeCount(offset, m));
        }
        i += 1;
    }
    Ok(())
}

} // verus!

verus! {

/// What to do after looking at the next event while counting subsections.
#[derive(Debug)]
pub enum SubsectionAction {
    /// The event opens a counted subsection: hand the reader to the
    /// subsection's handler, then look at the next event.
    Handle,
    /// Counting is over, with this outcome.
    Finish(Result<(), PsyError>),
}

/// The first subsection that names a node of type `name` of the given kind,
/// if any.
fn find_subsection(subs: &[(&str, bool, Range)], name: &str, leaf: bool) -> (r: Option<usize>)
    ensures
        match r {
            Some(idx) => first_subsection(subs@, name@, leaf, idx as int),
            None => no_subsection(subs@, name@, leaf),
        },
{
    let mut i: usize = 0;
    while i < subs.len()
        invariant
            i <= subs@.len(),
            forall|j: int| 0 <= j < i ==> !names_subsection(#[trigger] subs@[j], name@, leaf),
        decreases subs@.len() - i,
    {
        if subs[i].1 == leaf && str_eq(subs[i].0, name) {
            return Some(i);
        }
        i += 1;
    }
    None
}

/// The message for finding `found` nodes of a subsection that allows at
/// most `most`.
fn too_many_text(most: usize, name: &str, found: usize, leaf: bool) -> (m: String)
    ensures
        m@ == too_many_message(most as nat, name@, found as nat, leaf),
{
    let mut m = String::from_str("Expected at most ");
    let most_text = decimal_string(most);
    m.append(most_text.as_str());
    if leaf {
        m.append(" '");
    } else {
        m.append(" internal '");
    }
    m.append(name);
    if leaf {
        m.append("' leaf nodes but found at least ");
    } else {
        m.append("' node(s) but found at least ");
    }
    let found_text = decimal_string(found);
    m.append(found_text.as_str());
    m.append(".");
    m
}

/// Ensures that the right number of the right subsections are met while
/// reading the children of a node.
///
/// Called with each event as it is peeked, before it is consumed.  A leaf
/// or an internal node that opens one of `subsections` (matched by type
/// name and kind, the first match counting) adds one to that subsection's
/// count in `counts`; going over the subsection's upper bound is an error
/// at the event's offset, else the subsection's handler is to run.  Any
/// other event ends the counting: then every count must lie in its range,
/// and the first that does not is an error at `reader_offset`.
///
/// At most 64 subsections are tracked.
pub fn ensure_subsections(
    subsections: &[(&str, bool, Range)],
    counts: &mut Vec<usize>,
    event: &Event,
    reader_offset: usize,
) -> (a: SubsectionAction)
    requires
        subsections@.len() <= 64,
        old(counts)@.len() == subsections@.len(),
        forall|i: int| 0 <= i < old(counts)@.len() ==> #[trigger] old(counts)@[i] < usize::MAX,
        counted_has_upper(subsections@, *event),
    ensures
        final(counts)@.len() == old(counts)@.len(),
        match *event {
            Event::Leaf { node_type, byte_offset, .. } => event_step(
                a,
                subsections@,
                old(counts)@,
                final(counts)@,
                node_type@,
                true,
                byte_offset,
                reader_offset,
            ),
            Event::InnerOpen { node_type, byte_offset, .. } => event_step(
                a,
                subsections@,
                old(counts)@,
                final(counts)@,
                node_type@,
                false,
                byte_offset,
                reader_offset,
            ),
            _ => final(counts)@ == old(counts)@ && (a matches SubsectionAction::Finish(r)
                && count_check_result(r, subsections@, old(counts)@, reader_offset)),
        },
        forall|i: int|
            0 <= i < old(counts)@.len() ==> #[trigger] final(counts)@[i] == old(counts)@[i] || (
            final(counts)@[i] == old(counts)@[i] + 1 && (a is Handle
                ==> subsections@[i].2.below_upper(final(counts)@[i] as int))),
{
    let (node_type, leaf, byte_offset) = match event {
        Event::Leaf { node_type, byte_offset, .. } => (node_type, true, *byte_offset),
        Event::InnerOpen { node_type, byte_offset, .. } => (node_type, false, *byte_offset),
        _ => {
            return SubsectionAction::Finish(check_subsection_counts(subsections, counts, reader_offset));
        },
    };
    match find_subsection(subsections, node_type.as_str(), leaf) {
        None => SubsectionAction::Finish(check_subsection_counts(subsections, counts, reader_offset)),
        Some(idx) => {
            let n = counts[idx] + 1;
            counts.set(idx, n);
            let (name, _, range) = subsections[idx];
            if !range.contains_upper(n) {
                let m = too_many_text(range.upper() - 1, name, n, leaf);
                SubsectionAction::Finish(Err(PsyError::WrongNodeCount(byte_offset, m)))
            } else {
                SubsectionAction::Handle
            }
        },
    }
}

/// The subsection that `e` would be counted under, if any, allows some
/// nodes: its upper bound is above zero.
pub open spec fn counted_has_upper(subs: Seq<(&str, bool, Range)>, e: Event) -> bool {
    match e {
        Event::Leaf { node_type, .. } => forall|idx: int|
            first_subsection(subs, node_type@, true, idx) ==> #[trigger] subs[idx].2.upper_bound() > 0,
        Event::InnerOpen { node_type, .. } => forall|idx: int|
            first_subsection(subs, node_type@, false, idx) ==> #[trigger] subs[idx].2.upper_bound()
                > 0,
        _ => true,
    }
}

/// One step of [`ensure_subsections`] on an event that opens a node of type
/// `name` of the given kind at `offset`.
pub open spec fn event_step(
    a: SubsectionAction,
    subs: Seq<(&str, bool, Range)>,
    before: Seq<usize>,
    after: Seq<usize>,
    name: Seq<char>,
    leaf: bool,
    offset: usize,
    reader_offset: usize,
) -> bool {
    &&& no_subsection(subs, name, leaf) ==> after == before && (a matches SubsectionAction::Finish(r)
        && count_check_result(r, subs, before, reader_offset))
    &&& forall|idx: int|
        first_subsection(subs, name, leaf, idx) ==> {
            let n = before[idx] + 1;
            &&& after == before.update(idx, n as usize)
            &&& if subs[idx].2.below_upper(n) {
                a is Handle
            } else {
                a matches SubsectionAction::Finish(Err(PsyError::WrongNodeCount(o, m))) && o == offset
                    && m@ == too_many_message(
                    (subs[idx].2.upper_bound() - 1) as nat,
                    name,
                    n as nat,
                    leaf,
                )
            }
        }
}

} // verus!

verus! {

// ----------------------------------------------------------------------
// Numbers between whitespace

/// Space, tab, carriage return or line feed.
pub open spec fn is_multispace(c: char) -> bool {
    c == ' ' || c == '\t' || c == '\r' || c == '\n'
}

/// An ASCII decimal digit.
pub open spec fn is_digit(c: char) -> bool {
    '0' <= c && c <= '9'
}

/// The length of the run of whitespace that `s` starts with.
pub open spec fn space_run(s: Seq<char>) -> nat
    decreases s.len(),
{
    if s.len() > 0 && is_multispace(s[0]) {
        1 + space_run(s.drop_first())
    } else {
        0
    }
}

/// The length of the run of digits that `s` starts with.
pub open spec fn digit_run(s: Seq<char>) -> nat
    decreases s.len(),
{
    if s.len() > 0 && is_digit(s[0]) {
        1 + digit_run(s.drop_first())
    } else {
        0
    }
}

/// The number written in decimal by the digits `s`.
pub open spec fn digits_value(s: Seq<char>) -> int
    decreases s.len(),
{
    if s.len() == 0 {
        0
    } else {
        digits_value(s.drop_last()) * 10 + (s.last() as int - 48)
    }
}

/// Reading optional whitespace, a run of digits and optional whitespace
/// from the start of `s`: the number of characters read and the number,
/// or `None` where there is no digit or the number exceeds `max`.
pub open spec fn ws_unsigned(s: Seq<char>, max: int) -> Option<(int, int)> {
    let a = space_run(s) as int;
    let d = digit_run(s.skip(a)) as int;
    let v = digits_value(s.subrange(a, a + d));
    if d == 0 || v > max {
        None
    } else {
        Some((a + d + space_run(s.skip(a + d)) as int, v))
    }
}

/// Reading optional whitespace, an optional minus sign, a run of digits and
/// optional whitespace from the start of `s`: the number of characters read
/// and the number, or `None` where there is no digit or the number does not
/// fit in an `i32`.
pub open spec fn ws_signed(s: Seq<char>) -> Option<(int, int)> {
    let a = space_run(s) as int;
    let neg = a < s.len() && s[a] == '-';
    let b = if neg {
        a + 1
    } else {
        a
    };
    let d = digit_run(s.skip(b)) as int;
    let m = digits_value(s.subrange(b, b + d));
    let v = if neg {
        -m
    } else {
        m
    };
    if d == 0 || v < i32::MIN || v > i32::MAX {
        None
    } else {
        Some((b + d + space_run(s.skip(b + d)) as int, v))
    }
}

/// The index of the first character at or after `start` that is not
/// whitespace.
fn skip_spaces(c: &Vec<char>, start: usize) -> (end: usize)
    requires
        start <= c@.len(),
    ensures
        end == start + space_run(c@.skip(start as int)),
        end <= c@.len(),
{
    let mut i = start;
    while i < c.len() && (c[i] == ' ' || c[i] == '\t' || c[i] == '\r' || c[i] == '\n')
        invariant
            start <= i <= c@.len(),
            space_run(c@.skip(start as int)) == (i - start) + space_run(c@.skip(i as int)),
        decreases c@.len() - i,
    {
        proof {
            assert(c@.skip(i as int).drop_first() =~= c@.skip(i + 1));
        }
        i += 1;
    }
    i
}

proof fn lemma_digits_value_step(s: Seq<char>, start: int, i: int)
    requires
        0 <= start <= i < s.len(),
    ensures
        digits_value(s.subrange(start, i + 1)) == digits_value(s.subrange(start, i)) * 10 + (
        s[i] as int - 48),
{
    assert(s.subrange(start, i + 1).drop_last() =~= s.subrange(start, i));
}

/// Reads the run of digits at `start`: where it ends, and its value unless
/// that exceeds `max`.
fn scan_digits(c: &Vec<char>, start: usize, max: u64) -> (r: (usize, Option<u64>))
    requires
        start <= c@.len(),
    ensures
        r.0 == start + digit_run(c@.skip(start as int)),
        r.0 <= c@.len(),
        match r.1 {
            Some(v) => v == digits_value(c@.subrange(start as int, r.0 as int)) && v <= max,
            None => digits_value(c@.subrange(start as int, r.0 as int)) > max,
        },
{
    let mut i = start;
    let mut value: u64 = 0;
    let mut fits = true;
    while i < c.len() && '0' <= c[i] && c[i] <= '9'
        invariant
            start <= i <= c@.len(),
            digit_run(c@.skip(start as int)) == (i - start) + digit_run(c@.skip(i as int)),
            digits_value(c@.subrange(start as int, i as int)) >= 0,
            fits ==> value == digits_value(c@.subrange(start as int, i as int)) && value <= max,
            !fits ==> digits_value(c@.subrange(start as int, i as int)) > max,
        decreases c@.len() - i,
    {
        proof {
            assert(c@.skip(i as int).drop_first() =~= c@.skip(i + 1));
            lemma_digits_value_step(c@, start as int, i as int);
        }
        let d = c[i] as u64 - 48;
        if fits {
            let v = value as u128 * 10 + d as u128;
            if v <= max as u128 {
                value = v as u64;
            } else {
                fits = false;
            }
        }
        i += 1;
    }
    (i, if fits {
        Some(value)
    } else {
        None
    })
}

/// Reads an unsigned number between optional whitespace from the start of
/// `input`: the rest of the text and the number.
fn ws_unsigned_exec(input: &str, max: u64) -> (r: Result<(&str, u64), ()>)
    ensures
        match ws_unsigned(input@, max as int) {
            Some((k, v)) => r matches Ok((rest, n)) && n == v && rest@ == input@.skip(k),
            None => r is Err,
        },
{
    let c = chars_of(input);
    let a = skip_spaces(&c, 0);
    let (e, v) = scan_digits(&c, a, max);
    proof {
        assert(c@.skip(0) =~= c@);
    }
    if e == a {
        return Err(());
    }
    match v {
        None => Err(()),
        Some(v) => {
            let b = skip_spaces(&c, e);
            let rest = input.substring_char(b, c.len());
            proof {
                assert(rest@ =~= input@.skip(b as int));
            }
            Ok((rest, v))
        },
    }
}

/// Reads an unsigned 32-bit number between optional whitespace from the
/// start of `input`: the rest of the text and the number.  Fails where
/// there is no digit or the number does not fit.
pub fn ws_u32(input: &str) -> (r: Result<(&str, u32), ()>)
    ensures
        match ws_unsigned(input@, u32::MAX as int) {
            Some((k, v)) => r matches Ok((rest, n)) && n == v && rest@ == input@.skip(k),
            None => r is Err,
        },
{
    match ws_unsigned_exec(input, 0xffff_ffffu64) {
        Ok((rest, n)) => Ok((rest, n as u32)),
        Err(()) => Err(()),
    }
}

/// Reads an unsigned `usize` number between optional whitespace from the
/// start of `input`: the rest of the text and the number.  Fails where
/// there is no digit or the number does not fit.
pub fn ws_usize(input: &str) -> (r: Result<(&str, usize), ()>)
    ensures
        match ws_unsigned(input@, usize::MAX as int) {
            Some((k, v)) => r matches Ok((rest, n)) && n == v && rest@ == input@.skip(k),
            None => r is Err,
        },
{
    match ws_unsigned_exec(input, usize::MAX as u64) {
        Ok((rest, n)) => Ok((rest, n as usize)),
        Err(()) => Err(()),
    }
}

/// Reads a signed 32-bit number, with an optional minus sign, between
/// optional whitespace from the start of `input`: the rest of the text and
/// the number.  Fails where there is no digit or the number does not fit.
pub fn ws_i32(input: &str) -> (r: Result<(&str, i32), ()>)
    ensures
        match ws_signed(input@) {
            Some((k, v)) => r matches Ok((rest, n)) && n == v && rest@ == input@.skip(k),
            None => r is Err,
        },
{
    let c = chars_of(input);
    let a = skip_spaces(&c, 0);
    proof {
        assert(c@.skip(0) =~= c@);
    }
    let neg = a < c.len() && c[a] == '-';
    let b = if neg {
        a + 1
    } else {
        a
    };
    let limit: u64 = if neg {
        0x8000_0000
    } else {
        0x7fff_ffff
    };
    let (e, v) = scan_digits(&c, b, limit);
    if e == b {
        return Err(());
    }
    match v {
        None => Err(()),
        Some(m) => {
            let n: i64 = if neg {
                -(m as i64)
            } else {
                m as i64
            };
            let f = skip_spaces(&c, e);
            let rest = input.substring_char(f, c.len());
            proof {
                assert(rest@ =~= input@.skip(f as int));
            }
            Ok((rest, n as i32))
        },
    }
}

} // verus!

verus! {

proof fn lemma_space_run_le(s: Seq<char>)
    ensures
        space_run(s) <= s.len(),
    decreases s.len(),
{
    if s.len() > 0 && is_multispace(s[0]) {
        lemma_space_run_le(s.drop_first());
    }
}

proof fn lemma_digit_run_le(s: Seq<char>)
    ensures
        digit_run(s) <= s.len(),
    decreases s.len(),
{
    if s.len() > 0 && is_digit(s[0]) {
        lemma_digit_run_le(s.drop_first());
    }
}

/// Reading a number never reads past the end of the text.
pub proof fn lemma_ws_unsigned_in_bounds(s: Seq<char>, max: int)
    ensures
        ws_unsigned(s, max) matches Some((k, _)) ==> 0 <= k <= s.len(),
{
    let a = space_run(s) as int;
    lemma_space_run_le(s);
    lemma_digit_run_le(s.skip(a));
    let d = digit_run(s.skip(a)) as int;
    lemma_space_run_le(s.skip(a + d));
}

} // verus!

verus! {

proof fn lemma_first_below(subs: Seq<(&str, bool, Range)>, name: Seq<char>, leaf: bool, j: int)
    requires
        0 <= j < subs.len(),
        names_subsection(subs[j], name, leaf),
    ensures
        exists|idx: int| first_subsection(subs, name, leaf, idx),
    decreases j,
{
    if forall|k: int| 0 <= k < j ==> !names_subsection(#[trigger] subs[k], name, leaf) {
        assert(first_subsection(subs, name, leaf, j));
    } else {
        let k = choose|k: int| 0 <= k < j && names_subsection(#[trigger] subs[k], name, leaf);
        lemma_first_below(subs, name, leaf, k);
    }
}

/// Where some subsection names a node, a first one does.
pub proof fn lemma_first_subsection_exists(subs: Seq<(&str, bool, Range)>, name: Seq<char>, leaf: bool)
    requires
        !no_subsection(subs, name, leaf),
    ensures
        exists|idx: int| first_subsection(subs, name, leaf, idx),
{
    let j = choose|j: int| 0 <= j < subs.len() && names_subsection(#[trigger] subs[j], name, leaf);
    lemma_first_below(subs, name, leaf, j);
}

} // verus!
