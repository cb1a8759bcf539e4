use vstd::prelude::*;
use vstd::slice::slice_subrange;

use crate::record::MAX_COUNT;
use crate::store::{aggregate, update_map, values_in_range, FinalInfo};
use crate::temperature::{is_valid_text, text_value, valid_text, Temperature, MAX_TENTHS, MIN_TENTHS};

verus! {

/// Ends every record.
pub const NEWLINE: u8 = 10;

/// Parts a record's key from its value.
pub const NAME_SEP: u8 = 59;

/// First position in `[p, end)` that holds `b`, or `end` where none does.
pub open spec fn find_from(data: Seq<u8>, b: u8, p: int, end: int) -> int
    decreases end - p,
{
    if p >= end {
        end
    } else if data[p] == b {
        p
    } else {
        find_from(data, b, p + 1, end)
    }
}

/// What a found position means.
pub proof fn lemma_find_from(data: Seq<u8>, b: u8, p: int, end: int)
    requires
        0 <= p <= end <= data.len(),
    ensures
        p <= find_from(data, b, p, end) <= end,
        find_from(data, b, p, end) < end ==> data[find_from(data, b, p, end)] == b,
        forall|q: int| p <= q < find_from(data, b, p, end) ==> data[q] != b,
    decreases end - p,
{
    if p < end && data[p] != b {
        lemma_find_from(data, b, p + 1, end);
    }
}

/// Position of the line feed that ends the line at `p`, or the length where none does.
pub open spec fn line_end(data: Seq<u8>, p: int) -> int {
    find_from(data, NEWLINE, p, data.len() as int)
}

/// Why a line is not a record.
#[derive(Debug, Clone, Copy, PartialEq, Eq, Structural)]
pub enum FormatError {
    /// No line feed follows the value.
    MissingNewline,
    /// The line holds no separator.
    MissingSeparator,
    /// The value is not of the form `-?\d{1,2}\.\d`.
    BadValue,
}

/// A line that is not a record, and where it starts.
#[derive(Debug, Clone, Copy, PartialEq, Eq, Structural)]
pub struct ScanError {
    pub offset: usize,
    pub kind: FormatError,
}

/// The record of the line that starts at `p`: its key (the bytes before the
/// first separator) and its value in tenths (the bytes after it).
pub open spec fn parse_line(data: Seq<u8>, p: int) -> Result<(Seq<u8>, int), FormatError> {
    let e = line_end(data, p);
    let k = find_from(data, NAME_SEP, p, e);
    if e == data.len() {
        Err(FormatError::MissingNewline)
    } else if k == e {
        Err(FormatError::MissingSeparator)
    } else if !valid_text(data.subrange(k + 1, e)) {
        Err(FormatError::BadValue)
    } else {
        Ok((data.subrange(p, k), text_value(data.subrange(k + 1, e))))
    }
}

/// Whether a line starts at `p`: the first byte, or one after a line feed.
pub open spec fn is_line_start(data: Seq<u8>, p: int) -> bool {
    0 <= p < data.len() && (p == 0 || data[p - 1] == NEWLINE)
}

/// The records of the lines that start in `[lo, hi)`, in order of position.
pub open spec fn records_in(data: Seq<u8>, lo: int, hi: int) -> Seq<(Seq<u8>, int)>
    decreases hi - lo,
{
    if hi <= lo {
        Seq::empty()
    } else {
        let rest = records_in(data, lo, hi - 1);
        if is_line_start(data, hi - 1) && parse_line(data, hi - 1) is Ok {
            rest.push(parse_line(data, hi - 1)->Ok_0)
        } else {
            rest
        }
    }
}

/// Whether every line that starts in `[lo, hi)` is a record.
pub open spec fn lines_ok(data: Seq<u8>, lo: int, hi: int) -> bool {
    forall|q: int| lo <= q < hi && #[trigger] is_line_start(data, q) ==> parse_line(data, q) is Ok
}

/// The records of a range are those of its two halves, one after the other.
pub proof fn lemma_records_concat(data: Seq<u8>, a: int, b: int, c: int)
    requires
        a <= b <= c,
    ensures
        records_in(data, a, c) == records_in(data, a, b) + records_in(data, b, c),
    decreases c - b,
{
    if b == c {
        assert(records_in(data, a, b) + records_in(data, b, c) =~= records_in(data, a, b));
    } else {
        lemma_records_concat(data, a, b, c - 1);
        let q = c - 1;
        if is_line_start(data, q) && parse_line(data, q) is Ok {
            assert(records_in(data, a, c) =~= records_in(data, a, b) + records_in(data, b, c));
        }
    }
}

/// A range in which no line starts holds no records.
pub proof fn lemma_records_none(data: Seq<u8>, a: int, b: int)
    requires
        forall|q: int| a <= q < b ==> !is_line_start(data, q),
    ensures
        records_in(data, a, b) == Seq::<(Seq<u8>, int)>::empty(),
    decreases b - a,
{
    if b > a {
        lemma_records_none(data, a, b - 1);
    }
}

/// A range holds no more records than positions, all with values in range.
pub proof fn lemma_records_bounds(data: Seq<u8>, a: int, b: int)
    ensures
        records_in(data, a, b).len() <= if b > a { b - a } else { 0 },
        values_in_range(records_in(data, a, b)),
    decreases b - a,
{
    if b > a {
        lemma_records_bounds(data, a, b - 1);
        let q = b - 1;
        if is_line_start(data, q) && parse_line(data, q) is Ok {
            let e = line_end(data, q);
            let k = find_from(data, NAME_SEP, q, e);
            let r = records_in(data, a, b);
            assert(r.last() == parse_line(data, q)->Ok_0);
            assert(MIN_TENTHS <= text_value(data.subrange(k + 1, e)) <= MAX_TENTHS);
            assert forall|i: int| 0 <= i < r.len() implies MIN_TENTHS <= (#[trigger] r[i]).1
                <= MAX_TENTHS by {
                if i < r.len() - 1 {
                    assert(r[i] == records_in(data, a, b - 1)[i]);
                }
            }
        }
    }
}

/// The first position in `[p, end)` that holds `b`, or `end`.
pub fn find_byte(data: &[u8], b: u8, p: usize, end: usize) -> (r: usize)
    requires
        p <= end <= data@.len(),
    ensures
        r == find_from(data@, b, p as int, end as int),
{
    let mut i = p;
    while i < end && data[i] != b
        invariant
            p <= i <= end,
            end <= data@.len(),
            find_from(data@, b, i as int, end as int) == find_from(data@, b, p as int, end as int),
        decreases end - i,
    {
        i = i + 1;
    }
    i
}

/// One record: a key and its value.
#[derive(Debug, Clone, Copy, PartialEq)]
pub struct Measurement<'a> {
    pub station_name: &'a [u8],
    pub measurement: Temperature,
}

impl<'a> Measurement<'a> {
    /// The record of key `name` and value text `temp`.
    pub fn from_bytes(name: &'a [u8], temp: &[u8]) -> (r: Measurement<'a>)
        requires
            valid_text(temp@),
        ensures
            r.station_name@ == name@,
            r.measurement.tenths() == text_value(temp@),
            r.measurement.wf(),
    {
        let measurement = Temperature::from_bytes(temp);
        Measurement { station_name: name, measurement }
    }
}

/// Where a worker whose range begins at `lo` starts reading: at `lo` where a
/// line starts there, else just past the next line feed (or at the end).
pub open spec fn corrected_start(data: Seq<u8>, lo: int) -> int {
    if lo == 0 || lo >= data.len() || data[lo - 1] == NEWLINE {
        lo
    } else if line_end(data, lo) < data.len() {
        line_end(data, lo) + 1
    } else {
        data.len() as int
    }
}

/// Reads the records of the lines that start in `[start_offset, start_offset +
/// bytes)`. The line that holds `start_offset` belongs to the range before,
/// unless it starts exactly there; the last line read may end past the range.
pub fn read_file(start_offset: usize, bytes: usize, file_mem: &[u8]) -> (r: Result<
    FinalInfo,
    ScanError,
>)
    requires
        start_offset + bytes <= file_mem@.len(),
        file_mem@.len() <= MAX_COUNT,
    ensures
        lines_ok(file_mem@, start_offset as int, start_offset + bytes) <==> r is Ok,
        r matches Ok(info) ==> {
            &&& info.wf()
            &&& info.total == records_in(file_mem@, start_offset as int, start_offset + bytes).len()
            &&& info.view() == aggregate(
                records_in(file_mem@, start_offset as int, start_offset + bytes),
            )
        },
        r matches Err(e) ==> {
            &&& start_offset <= e.offset < start_offset + bytes
            &&& is_line_start(file_mem@, e.offset as int)
            &&& parse_line(file_mem@, e.offset as int) == Err::<(Seq<u8>, int), FormatError>(
                e.kind,
            )
            &&& lines_ok(file_mem@, start_offset as int, e.offset as int)
        },
{
    let ghost data = file_mem@;
    let ghost lo = start_offset as int;
    let len = file_mem.len();
    let hi = start_offset + bytes;
    let mut offset = start_offset;
    if offset != 0 && offset < len && file_mem[offset - 1] != NEWLINE {
        let to_next_nl = find_byte(file_mem, NEWLINE, offset, len);
        proof {
            lemma_find_from(data, NEWLINE, lo, len as int);
        }
        offset = if to_next_nl < len { to_next_nl + 1 } else { len };
    }
    proof {
        assert(offset == corrected_start(data, lo));
        lemma_find_from(data, NEWLINE, lo, len as int);
        assert forall|q: int| lo <= q < offset implies !#[trigger] is_line_start(data, q) by {
            if q > lo {
                assert(data[q - 1] != NEWLINE);
            }
        }
        lemma_records_none(data, lo, offset as int);
        assert(lines_ok(data, lo, offset as int));
    }
    let mut info = FinalInfo::new();
    while offset < hi && offset < len
        invariant
            data == file_mem@,
            lo == start_offset as int,
            len == data.len(),
            len <= MAX_COUNT,
            lo <= offset <= len,
            hi == start_offset + bytes,
            hi <= len,
            offset < len ==> is_line_start(data, offset as int),
            forall|q: int| lo <= q < offset && #[trigger] is_line_start(data, q) ==> q < hi,
            lines_ok(data, lo, offset as int),
            info.wf(),
            info.total as int == records_in(data, lo, offset as int).len(),
            info.view() == aggregate(records_in(data, lo, offset as int)),
        decreases len - offset,
    {
        let ghost p = offset as int;
        assert(lines_ok(data, lo, p));
        proof {
            lemma_records_bounds(data, lo, p);
        }
        let line_end_at = find_byte(file_mem, NEWLINE, offset, len);
        proof {
            lemma_find_from(data, NEWLINE, p, len as int);
        }
        if line_end_at == len {
            proof {
                assert(line_end(data, p) == line_end_at);
                assert(parse_line(data, p) == Err::<(Seq<u8>, int), FormatError>(
                    FormatError::MissingNewline,
                ));
                assert(is_line_start(data, p));
            }
            return Err(ScanError { offset, kind: FormatError::MissingNewline });
        }
        let sep_at = find_byte(file_mem, NAME_SEP, offset, line_end_at);
        proof {
            lemma_find_from(data, NAME_SEP, p, line_end_at as int);
        }
        if sep_at == line_end_at {
            proof {
                assert(line_end(data, p) == line_end_at);
                assert(parse_line(data, p) == Err::<(Seq<u8>, int), FormatError>(
                    FormatError::MissingSeparator,
                ));
                assert(is_line_start(data, p));
            }
            return Err(ScanError { offset, kind: FormatError::MissingSeparator });
        }
        let temp = slice_subrange(file_mem, sep_at + 1, line_end_at);
        if !is_valid_text(temp) {
            proof {
                assert(line_end(data, p) == line_end_at);
                assert(parse_line(data, p) == Err::<(Seq<u8>, int), FormatError>(
                    FormatError::BadValue,
                ));
                assert(is_line_start(data, p));
            }
            return Err(ScanError { offset, kind: FormatError::BadValue });
        }
        let name = slice_subrange(file_mem, offset, sep_at);
        let measure = Measurement::from_bytes(name, temp);
        proof {
            let e = line_end_at as int;
            lemma_records_bounds(data, lo, p);
            assert(records_in(data, p, p) =~= Seq::<(Seq<u8>, int)>::empty());
            assert(records_in(data, p, p + 1) =~= seq![parse_line(data, p)->Ok_0]);
            assert forall|q: int| p + 1 <= q < e + 1 implies !#[trigger] is_line_start(data, q) by {
                assert(data[q - 1] != NEWLINE);
            }
            lemma_records_none(data, p + 1, e + 1);
            lemma_records_concat(data, lo, p, p + 1);
            lemma_records_concat(data, lo, p + 1, e + 1);
            assert(records_in(data, lo, e + 1) =~= records_in(data, lo, p).push(
                parse_line(data, p)->Ok_0,
            ));
        }
        let ghost before = records_in(data, lo, p);
        info.update(measure.station_name, measure.measurement);
        offset = line_end_at + 1;
        proof {
            let x = parse_line(data, p)->Ok_0;
            assert(line_end(data, p) == line_end_at);
            assert(x.0 == name@);
            assert(x.1 == measure.measurement.tenths());
            assert(before.push(x).drop_last() =~= before);
            assert(aggregate(before.push(x)) == update_map(aggregate(before), x.0, x.1));
            assert forall|q: int| lo <= q < offset && #[trigger] is_line_start(data, q) implies q
                < hi by {
                if q > p {
                    assert(data[q - 1] != NEWLINE);
                }
            }
            assert forall|q: int| lo <= q < offset && #[trigger] is_line_start(data, q) implies parse_line(
                data,
                q,
            ) is Ok by {
                if q > p {
                    assert(data[q - 1] != NEWLINE);
                }
            }
        }
    }
    proof {
        if offset >= hi {
            assert forall|q: int| hi <= q < offset implies !#[trigger] is_line_start(data, q) by {}
            lemma_records_none(data, hi as int, offset as int);
            lemma_records_concat(data, lo, hi as int, offset as int);
            assert(records_in(data, lo, hi as int) =~= records_in(data, lo, offset as int));
            assert(lines_ok(data, lo, hi as int));
        } else {
            assert forall|q: int| offset <= q < hi implies !#[trigger] is_line_start(data, q) by {}
            lemma_records_none(data, offset as int, hi as int);
            lemma_records_concat(data, lo, offset as int, hi as int);
            assert(records_in(data, lo, hi as int) =~= records_in(data, lo, offset as int));
        }
    }
    Ok(info)
}

} // verus!
