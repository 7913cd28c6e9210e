//! Reading the memory areas of a process out of its `smaps` summary.
//!
//! The summary is a text.  A line that begins with two hexadecimal numbers,
//! a `-` between them and a space after them opens a memory area; the lines
//! that follow it, up to the next such line, describe the area.  Of those
//! only `Anonymous:`, `Shared_Hugetlb:` and `Private_Hugetlb:` are read.

use crate::error::ErrorKind;
use crate::task::TaskInfo;
use crate::text::{
    has_prefix, number, parse_number, run, scan, starts_with, ByteClass, CARRIAGE_RETURN,
};
use vstd::prelude::*;
use vstd::slice::slice_subrange;

verus! {

/// A half-open interval `[start, end)` of virtual addresses.
#[derive(Debug, Clone, Copy, PartialEq, Eq, Structural)]
pub struct MapRange {
    pub start: u64,
    pub end: u64,
}

impl MapRange {
    /// The interval is not empty and both of its bounds are multiples of
    /// the page size.
    pub open spec fn wf(self, page_size: u64) -> bool {
        &&& self.start < self.end
        &&& page_size > 0
        &&& self.start % page_size == 0
        &&& self.end % page_size == 0
    }

    /// Whether `addr` lies in the interval.
    pub open spec fn contains(self, addr: u64) -> bool {
        self.start <= addr < self.end
    }
}

/// The memory area that the parser is currently collecting.
#[derive(Debug, Clone, Copy, PartialEq, Eq, Structural)]
pub struct ParseSmapsRec {
    pub start: u64,
    pub end: u64,
    pub anon_size: u64,
}

impl ParseSmapsRec {
    /// A record that describes no area.
    pub fn new() -> (rec: Self)
        ensures
            rec == Self::empty(),
    {
        Self { start: 0, end: 0, anon_size: 0 }
    }

    /// The record that describes no area.
    pub open spec fn empty() -> Self {
        ParseSmapsRec { start: 0, end: 0, anon_size: 0 }
    }

    /// Forgets the area.
    pub fn invalid(&mut self)
        ensures
            *final(self) == Self::empty(),
    {
        self.start = 0;
        self.end = 0;
        self.anon_size = 0;
    }

    /// Whether the record describes an area that holds anonymous memory.
    pub fn is_valid(&self) -> (valid: bool)
        ensures
            valid == (self.anon_size != 0 && self.start != self.end),
    {
        self.anon_size != 0 && self.start != self.end
    }

    /// Whether the record describes an area at all.
    pub fn addr_ok(&self) -> (ok: bool)
        ensures
            ok == (self.start != self.end),
    {
        self.start != self.end
    }

    /// The address interval of the area.
    pub fn to_map_range(&self) -> (range: MapRange)
        ensures
            range == (MapRange { start: self.start, end: self.end }),
    {
        MapRange { start: self.start, end: self.end }
    }
}

/// The two numbers of a line that opens a memory area, as they are written:
/// the line begins with hexadecimal digits, then `-`, then hexadecimal
/// digits, then a space.  `None` for every other line.
pub open spec fn header_fields(line: Seq<u8>) -> Option<(Seq<u8>, Seq<u8>)> {
    let n1 = run(line, ByteClass::Hex);
    if 0 < n1 < line.len() && line[n1 as int] == '-' as u8 {
        let rest = line.skip(n1 as int + 1);
        let n2 = run(rest, ByteClass::Hex);
        if 0 < n2 < rest.len() && rest[n2 as int] == ' ' as u8 {
            Some((line.take(n1 as int), rest.take(n2 as int)))
        } else {
            None
        }
    } else {
        None
    }
}

/// Where the first word of `line` at or after the index `from` begins and
/// where it ends.  Words are what white space separates; where no word
/// follows, the two indices are equal.
pub open spec fn word_at(line: Seq<u8>, from: int) -> (int, int) {
    let begin = from + run(line.skip(from), ByteClass::Space);
    (begin, begin + run(line.skip(begin), ByteClass::Word))
}

/// The second of the words of `line`, if the line has three words or more.
pub open spec fn field_value(line: Seq<u8>) -> Option<Seq<u8>> {
    let first = word_at(line, 0);
    let second = word_at(line, first.1);
    let third = word_at(line, second.1);
    if first.0 < first.1 && second.0 < second.1 && third.0 < third.1 {
        Some(line.subrange(second.0, second.1))
    } else {
        None
    }
}

/// The number that a word writes in decimal, with or without a `+` before
/// it, if it writes one that fits in 64 bits.
pub open spec fn decimal(word: Seq<u8>) -> Option<u64> {
    if word.len() > 1 && word[0] == '+' as u8 {
        number(word.skip(1), 10)
    } else {
        number(word, 10)
    }
}

/// The amount that a line such as `Anonymous:  132 kB` states: its second
/// word as a number, zero where that word is no number.  `None` where the
/// line has fewer than three words.
pub open spec fn amount(line: Seq<u8>) -> Option<u64> {
    match field_value(line) {
        Some(word) => Some(
            match decimal(word) {
                Some(n) => n,
                None => 0,
            },
        ),
        None => None,
    }
}

/// The record that a header with the bounds `start` and `end` leaves: the
/// part of `[start, end)` that lies in the window, or no area where that
/// part is empty.
pub open spec fn clipped(start: u64, end: u64, window: Option<(u64, u64)>) -> ParseSmapsRec {
    let (low, high) = match window {
        Some((from, to)) => (
            if start < from {
                from
            } else {
                start
            },
            if end > to {
                to
            } else {
                end
            },
        ),
        None => (start, end),
    };
    if start < end && low < high {
        ParseSmapsRec { start: low, end: high, anon_size: 0 }
    } else {
        ParseSmapsRec::empty()
    }
}

/// Where the parser stands between two lines: the area it is collecting and
/// the areas it has emitted.
pub struct Scan {
    pub rec: ParseSmapsRec,
    pub out: Seq<MapRange>,
}

/// The emitted areas, with the collected one added if it holds anonymous
/// memory.
pub open spec fn flushed(scan: Scan) -> Seq<MapRange> {
    if scan.rec.anon_size != 0 && scan.rec.start != scan.rec.end {
        scan.out.push(MapRange { start: scan.rec.start, end: scan.rec.end })
    } else {
        scan.out
    }
}

/// What one line does to the parser.  `None` where the line opens an area
/// with a bound that does not fit in 64 bits.
pub open spec fn feed(scan: Scan, line: Seq<u8>, window: Option<(u64, u64)>) -> Option<Scan> {
    match header_fields(line) {
        Some((first, second)) => match (number(first, 16), number(second, 16)) {
            (Some(start), Some(end)) => Some(
                Scan { rec: clipped(start, end, window), out: flushed(scan) },
            ),
            _ => None,
        },
        None => if scan.rec.start != scan.rec.end && has_prefix(line, "Anonymous:"@) {
            match amount(line) {
                Some(size) => Some(Scan { rec: ParseSmapsRec { anon_size: size, ..scan.rec }, ..scan }),
                None => Some(scan),
            }
        } else if scan.rec.start != scan.rec.end && (has_prefix(line, "Shared_Hugetlb:"@)
            || has_prefix(line, "Private_Hugetlb:"@)) {
            match amount(line) {
                Some(size) => if size > 0 {
                    Some(Scan { rec: ParseSmapsRec::empty(), ..scan })
                } else {
                    Some(scan)
                },
                None => Some(scan),
            }
        } else {
            Some(scan)
        },
    }
}

/// The first line of a text that is not empty: the bytes before the first
/// line feed, without a carriage return that stands right before it.
pub open spec fn first_line(text: Seq<u8>) -> Seq<u8> {
    let n = run(text, ByteClass::Line);
    if n < text.len() && n > 0 && text[n - 1] == CARRIAGE_RETURN {
        text.take(n - 1)
    } else {
        text.take(n as int)
    }
}

/// What follows the first line of a text and its line feed.
pub open spec fn after_first_line(text: Seq<u8>) -> Seq<u8> {
    let n = run(text, ByteClass::Line);
    if n < text.len() {
        text.skip(n as int + 1)
    } else {
        Seq::empty()
    }
}

/// What the lines of `text`, one after the other, do to the parser.
pub open spec fn feed_text(scan: Scan, text: Seq<u8>, window: Option<(u64, u64)>) -> Option<Scan>
    decreases text.len(),
{
    if text.len() == 0 {
        Some(scan)
    } else {
        match feed(scan, first_line(text), window) {
            Some(next) => feed_text(next, after_first_line(text), window),
            None => None,
        }
    }
}

/// The areas of a `smaps` text that hold anonymous memory and no huge
/// pages, each clipped to the window, in the order of the text.  `None`
/// where the text states a bound that does not fit in 64 bits.
pub open spec fn smaps_ranges(text: Seq<u8>, window: Option<(u64, u64)>) -> Option<Seq<MapRange>> {
    match feed_text(Scan { rec: ParseSmapsRec::empty(), out: Seq::empty() }, text, window) {
        Some(scan) => Some(flushed(scan)),
        None => None,
    }
}

/// Whether an interval is not empty and lies in the window.
pub open spec fn framed(start: u64, end: u64, window: Option<(u64, u64)>) -> bool {
    &&& start < end
    &&& window matches Some((from, to)) ==> from <= start && end <= to
}

/// Whether the area that the parser is collecting, if it is collecting
/// one, and the areas that it has emitted are not empty and lie in the
/// window.
pub open spec fn scan_framed(scan: Scan, window: Option<(u64, u64)>) -> bool {
    &&& scan.rec.start != scan.rec.end ==> framed(scan.rec.start, scan.rec.end, window)
    &&& forall|i: int|
        0 <= i < scan.out.len() ==> framed(
            (#[trigger] scan.out[i]).start,
            scan.out[i].end,
            window,
        )
}

/// A line keeps the areas of the parser in the window.
pub proof fn lemma_feed_framed(scan: Scan, line: Seq<u8>, window: Option<(u64, u64)>)
    requires
        scan_framed(scan, window),
    ensures
        feed(scan, line, window) matches Some(next) ==> scan_framed(next, window),
{
    match feed(scan, line, window) {
        Some(next) => {
            assert forall|i: int| 0 <= i < next.out.len() implies framed(
                (#[trigger] next.out[i]).start,
                next.out[i].end,
                window,
            ) by {
                if i < scan.out.len() {
                    assert(next.out[i] == scan.out[i]);
                }
            }
        },
        None => {},
    }
}

/// The lines of a text keep the areas of the parser in the window.
pub proof fn lemma_feed_text_framed(scan: Scan, text: Seq<u8>, window: Option<(u64, u64)>)
    requires
        scan_framed(scan, window),
    ensures
        feed_text(scan, text, window) matches Some(last) ==> scan_framed(last, window),
    decreases text.len(),
{
    if text.len() > 0 {
        lemma_feed_framed(scan, first_line(text), window);
        match feed(scan, first_line(text), window) {
            Some(next) => {
                lemma_run_bound(text);
                lemma_feed_text_framed(next, after_first_line(text), window);
            },
            None => {},
        }
    }
}

/// What follows the first line of a text is shorter than the text.
pub proof fn lemma_run_bound(text: Seq<u8>)
    requires
        text.len() > 0,
    ensures
        after_first_line(text).len() < text.len(),
{
    crate::text::lemma_run_length(text, ByteClass::Line);
}

/// Every area that is read out of a `smaps` text is not empty and lies in
/// the window.
pub proof fn lemma_smaps_ranges_framed(text: Seq<u8>, window: Option<(u64, u64)>)
    ensures
        smaps_ranges(text, window) matches Some(ranges) ==> forall|i: int|
            0 <= i < ranges.len() ==> framed((#[trigger] ranges[i]).start, ranges[i].end, window),
{
    let start = Scan { rec: ParseSmapsRec::empty(), out: Seq::empty() };
    lemma_feed_text_framed(start, text, window);
    match feed_text(start, text, window) {
        Some(scan) => {
            let ranges = flushed(scan);
            assert forall|i: int| 0 <= i < ranges.len() implies framed(
                (#[trigger] ranges[i]).start,
                ranges[i].end,
                window,
            ) by {
                if i < scan.out.len() {
                    assert(ranges[i] == scan.out[i]);
                }
            }
        },
        None => {},
    }
}

/// Splits a line that opens a memory area into its two numbers.
pub fn parse_header(line: &[u8]) -> (r: Option<(&[u8], &[u8])>)
    ensures
        match r {
            Some((first, second)) => header_fields(line@) == Some((first@, second@)),
            None => header_fields(line@) is None,
        },
{
    let dash = scan(line, 0, ByteClass::Hex);
    assert(line@.skip(0) =~= line@);
    if dash == 0 || dash >= line.len() || line[dash] != '-' as u8 {
        return None;
    }
    let space = scan(line, dash + 1, ByteClass::Hex);
    proof {
        let rest = line@.skip(dash + 1);
        assert(space < line@.len() ==> rest[space - dash - 1] == line@[space as int]);
        assert(line@.subrange(0, dash as int) =~= line@.take(dash as int));
        assert(line@.subrange(dash + 1, space as int) =~= rest.take(space - dash - 1));
    }
    if space == dash + 1 || space >= line.len() || line[space] != ' ' as u8 {
        return None;
    }
    Some((slice_subrange(line, 0, dash), slice_subrange(line, dash + 1, space)))
}

/// Finds the first word of `line` at or after the index `from`.
pub fn find_word(line: &[u8], from: usize) -> (r: (usize, usize))
    requires
        from <= line@.len(),
    ensures
        (r.0 as int, r.1 as int) == word_at(line@, from as int),
        from <= r.0 <= r.1 <= line@.len(),
{
    let begin = scan(line, from, ByteClass::Space);
    let end = scan(line, begin, ByteClass::Word);
    (begin, end)
}

/// Reads the amount that a line states.
pub fn read_amount(line: &[u8]) -> (r: Option<u64>)
    ensures
        r == amount(line@),
{
    let first = find_word(line, 0);
    let second = find_word(line, first.1);
    let third = find_word(line, second.1);
    if first.0 == first.1 || second.0 == second.1 || third.0 == third.1 {
        return None;
    }
    let word = slice_subrange(line, second.0, second.1);
    let value = if word.len() > 1 && word[0] == '+' as u8 {
        let digits = slice_subrange(word, 1, word.len());
        assert(digits@ =~= word@.skip(1));
        parse_number(digits, 10)
    } else {
        parse_number(word, 10)
    };
    match value {
        Some(n) => Some(n),
        None => Some(0),
    }
}

/// The record that a header with the bounds `start` and `end` leaves.
pub fn clip(start: u64, end: u64, window: Option<(u64, u64)>) -> (rec: ParseSmapsRec)
    ensures
        rec == clipped(start, end, window),
{
    let mut low = start;
    let mut high = end;
    if let Some((from, to)) = window {
        if low < from {
            low = from;
        }
        if high > to {
            high = to;
        }
    }
    if start < end && low < high {
        ParseSmapsRec { start: low, end: high, anon_size: 0 }
    } else {
        ParseSmapsRec::new()
    }
}

/// Lets the parser read one line.
pub fn feed_line(
    rec: &mut ParseSmapsRec,
    out: &mut Vec<MapRange>,
    line: &[u8],
    window: Option<(u64, u64)>,
) -> (r: Result<(), ErrorKind>)
    ensures
        match r {
            Ok(()) => feed(Scan { rec: *old(rec), out: old(out)@ }, line@, window) == Some(
                Scan { rec: *final(rec), out: final(out)@ },
            ),
            Err(e) => e == ErrorKind::PagemapMalformed && feed(
                Scan { rec: *old(rec), out: old(out)@ },
                line@,
                window,
            ) is None,
        },
{
    proof {
        reveal_strlit("Anonymous:");
        reveal_strlit("Shared_Hugetlb:");
        reveal_strlit("Private_Hugetlb:");
    }
    match parse_header(line) {
        Some((first, second)) => {
            if rec.is_valid() {
                out.push(rec.to_map_range());
            }
            rec.invalid();
            let start = match parse_number(first, 16) {
                Some(n) => n,
                None => {
                    return Err(ErrorKind::PagemapMalformed);
                },
            };
            let end = match parse_number(second, 16) {
                Some(n) => n,
                None => {
                    return Err(ErrorKind::PagemapMalformed);
                },
            };
            *rec = clip(start, end, window);
        },
        None => {
            if rec.addr_ok() && starts_with(line, "Anonymous:") {
                if let Some(size) = read_amount(line) {
                    rec.anon_size = size;
                }
            } else if rec.addr_ok() && (starts_with(line, "Shared_Hugetlb:") || starts_with(
                line,
                "Private_Hugetlb:",
            )) {
                if let Some(size) = read_amount(line) {
                    if size > 0 {
                        rec.invalid();
                    }
                }
            }
        },
    }
    Ok(())
}

/// Finds the first line of the text that begins at the index `pos`: returns
/// the index where the line ends and the index where the next line begins.
pub fn find_line(text: &[u8], pos: usize) -> (r: (usize, usize))
    requires
        pos < text@.len(),
    ensures
        pos <= r.0 <= r.1 <= text@.len(),
        pos < r.1,
        text@.subrange(pos as int, r.0 as int) == first_line(text@.skip(pos as int)),
        text@.skip(r.1 as int) == after_first_line(text@.skip(pos as int)),
{
    let ghost rest = text@.skip(pos as int);
    let eol = scan(text, pos, ByteClass::Line);
    let mut end = eol;
    let mut next = eol;
    if eol < text.len() {
        next = eol + 1;
        if eol > pos && text[eol - 1] == CARRIAGE_RETURN {
            end = eol - 1;
        }
    }
    proof {
        let n = run(rest, ByteClass::Line);
        assert(n == eol - pos);
        assert(n > 0 ==> rest[n - 1] == text@[eol - 1]);
        assert(text@.subrange(pos as int, end as int) =~= first_line(rest));
        assert(text@.skip(next as int) =~= after_first_line(rest));
    }
    (end, next)
}

/// Reads the memory areas of a process out of the text of its `smaps`
/// summary: the areas that hold anonymous memory and no huge pages, each
/// clipped to the window of `task`, in the order of the text.
///
/// Fails where the text states a bound that does not fit in 64 bits.
pub fn parse_task_smaps(text: &[u8], task: &TaskInfo) -> (r: Result<Vec<MapRange>, ErrorKind>)
    ensures
        match r {
            Ok(ranges) => {
                &&& smaps_ranges(text@, task.addr) == Some(ranges@)
                &&& forall|i: int|
                    0 <= i < ranges@.len() ==> framed(
                        (#[trigger] ranges@[i]).start,
                        ranges@[i].end,
                        task.addr,
                    )
            },
            Err(e) => e == ErrorKind::PagemapMalformed && smaps_ranges(text@, task.addr) is None,
        },
{
    let mut out: Vec<MapRange> = Vec::new();
    let mut rec = ParseSmapsRec::new();
    let mut pos: usize = 0;
    let ghost start = Scan { rec: ParseSmapsRec::empty(), out: Seq::empty() };
    assert(text@.skip(0) =~= text@);
    while pos < text.len()
        invariant
            pos <= text@.len(),
            start == (Scan { rec: ParseSmapsRec::empty(), out: Seq::empty() }),
            feed_text(Scan { rec, out: out@ }, text@.skip(pos as int), task.addr) == feed_text(
                start,
                text@,
                task.addr,
            ),
        decreases text@.len() - pos,
    {
        let (end, next) = find_line(text, pos);
        let line = slice_subrange(text, pos, end);
        let ghost before = Scan { rec, out: out@ };
        let fed = feed_line(&mut rec, &mut out, line, task.addr);
        assert(feed_text(before, text@.skip(pos as int), task.addr) == match feed(
            before,
            line@,
            task.addr,
        ) {
            Some(after) => feed_text(after, text@.skip(next as int), task.addr),
            None => None,
        });
        if let Err(e) = fed {
            return Err(e);
        }
        pos = next;
    }
    assert(text@.skip(pos as int).len() == 0);
    if rec.is_valid() {
        out.push(rec.to_map_range());
    }
    proof {
        lemma_smaps_ranges_framed(text@, task.addr);
        assert(smaps_ranges(text@, task.addr) == Some(out@));
        let ranges = smaps_ranges(text@, task.addr)->0;
        assert forall|i: int| 0 <= i < out@.len() implies framed(
            (#[trigger] out@[i]).start,
            out@[i].end,
            task.addr,
        ) by {
            assert(framed(ranges[i].start, ranges[i].end, task.addr));
        }
    }
    Ok(out)
}

} // verus!
