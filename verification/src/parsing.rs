//! Minutiae as they stand in minutiae lists, before pruning.

use vstd::prelude::*;
use vstd::slice::slice_subrange;
use crate::text::{
    integer_of, parse_integer, pieces_from, ranges_view, split, CARRIAGE_RETURN, COLON, NEWLINE,
    SPACE,
};
use crate::types::{Minutia, MinutiaKind};

verus! {

/// One line of a list of minutiae: place, orientation and quality.
#[derive(Clone, Copy, Debug)]
pub struct RawMinutia {
    pub x: i32,
    pub y: i32,
    pub t: i32,
    pub q: i32,
}

/// What a list of kinds adds to a minutia.
#[derive(Clone, Copy, Debug)]
pub struct RawMinutiaExtended {
    pub kind: MinutiaKind,
}

/// A minutia with its quality and its kind.
#[derive(Clone, Copy, Debug)]
pub struct RawMinutiaCombined {
    pub x: i32,
    pub y: i32,
    pub t: i32,
    pub q: i32,
    pub kind: MinutiaKind,
}

impl RawMinutiaCombined {
    /// The minutia without its quality.
    pub open spec fn minutia(self) -> Minutia {
        Minutia { x: self.x, y: self.y, theta: self.t, kind: self.kind }
    }
}

/// Why a list of minutiae or of kinds could not be read.
#[derive(Clone, Copy, Debug, PartialEq, Eq, Structural)]
pub enum ListError {
    /// The line with this number, counted from zero, is no minutia.
    Minutia { line: usize },
    /// The line with this number, counted from zero, names no kind.
    Kind { line: usize },
    /// There are more kinds than minutiae.
    TooManyKinds,
}

/// The range without a carriage return at its end.
pub open spec fn without_return(text: Seq<u8>, range: (int, int)) -> (int, int) {
    if range.0 < range.1 && text[range.1 - 1] == CARRIAGE_RETURN {
        (range.0, range.1 - 1)
    } else {
        range
    }
}

/// The lines of a text, each as the places where it starts and ends: the
/// pieces between the line feeds, without a carriage return at their ends;
/// what follows the last line feed is a line only if it is not empty.
pub open spec fn line_ranges(text: Seq<u8>) -> Seq<(int, int)> {
    let pieces = pieces_from(text, NEWLINE, 0);
    let whole = if pieces.last().0 >= pieces.last().1 {
        pieces.drop_last()
    } else {
        pieces
    };
    Seq::new(whole.len(), |k: int| without_return(text, whole[k]))
}

/// The lines of a text.
pub open spec fn lines_of(text: Seq<u8>) -> Seq<Seq<u8>> {
    Seq::new(
        line_ranges(text).len(),
        |k: int| text.subrange(line_ranges(text)[k].0, line_ranges(text)[k].1),
    )
}

/// Finds the lines of a text.
pub fn lines(text: &[u8]) -> (ranges: Vec<(usize, usize)>)
    ensures
        ranges_view(ranges@) == line_ranges(text@),
        forall|k: int|
            0 <= k < ranges@.len() ==> (#[trigger] ranges@[k]).0 <= ranges@[k].1 <= text@.len(),
{
    let mut pieces: Vec<(usize, usize)> = split(text, NEWLINE);
    let ghost all = ranges_view(pieces@);
    let last: (usize, usize) = pieces[pieces.len() - 1];
    assert(all.last() == (last.0 as int, last.1 as int));
    if last.0 >= last.1 {
        pieces.pop();
        assert(ranges_view(pieces@) =~= all.drop_last());
    }
    let ghost whole = ranges_view(pieces@);
    let mut ranges: Vec<(usize, usize)> = Vec::new();
    let mut k: usize = 0;
    while k < pieces.len()
        invariant
            k <= pieces@.len(),
            whole == ranges_view(pieces@),
            ranges@.len() == k,
            forall|m: int|
                0 <= m < pieces@.len() ==> (#[trigger] pieces@[m]).0 <= pieces@[m].1 <= text@.len(),
            forall|m: int|
                0 <= m < k ==> {
                    &&& (#[trigger] ranges@[m]).0 <= ranges@[m].1 <= text@.len()
                    &&& (ranges@[m].0 as int, ranges@[m].1 as int) == without_return(
                        text@,
                        whole[m],
                    )
                },
        decreases pieces@.len() - k,
    {
        let (start, end): (usize, usize) = pieces[k];
        assert(whole[k as int] == (start as int, end as int));
        if start < end && text[end - 1] == CARRIAGE_RETURN {
            ranges.push((start, end - 1));
        } else {
            ranges.push((start, end));
        }
        k = k + 1;
    }
    assert(ranges_view(ranges@) =~= line_ranges(text@));
    ranges
}

/// The text between two places of a line.
pub open spec fn piece_of(line: Seq<u8>, range: (int, int)) -> Seq<u8> {
    line.subrange(range.0, range.1)
}

/// The minutia that a line stands for: whole numbers with one space between
/// them, the two coordinates, the orientation and the quality, which is
/// zero where the line ends after the orientation. What follows the quality
/// is not read. `None` where a number is missing or is no whole number.
pub open spec fn minutia_of_line(line: Seq<u8>) -> Option<RawMinutia> {
    let fields = pieces_from(line, SPACE, 0);
    if fields.len() < 3 {
        None
    } else {
        let x = integer_of(piece_of(line, fields[0]));
        let y = integer_of(piece_of(line, fields[1]));
        let t = integer_of(piece_of(line, fields[2]));
        let q = if fields.len() > 3 {
            integer_of(piece_of(line, fields[3]))
        } else {
            Some(0i32)
        };
        if x.is_some() && y.is_some() && t.is_some() && q.is_some() {
            Some(RawMinutia { x: x.unwrap(), y: y.unwrap(), t: t.unwrap(), q: q.unwrap() })
        } else {
            None
        }
    }
}

/// Reads the minutia of one line.
pub fn parse_minutia_line(line: &[u8]) -> (minutia: Option<RawMinutia>)
    ensures
        minutia == minutia_of_line(line@),
{
    let fields: Vec<(usize, usize)> = split(line, SPACE);
    let ghost ranges = ranges_view(fields@);
    if fields.len() < 3 {
        return None;
    }
    assert(ranges[0] == (fields@[0].0 as int, fields@[0].1 as int));
    assert(ranges[1] == (fields@[1].0 as int, fields@[1].1 as int));
    assert(ranges[2] == (fields@[2].0 as int, fields@[2].1 as int));
    let x: Option<i32> = parse_integer(line, fields[0].0, fields[0].1);
    let y: Option<i32> = parse_integer(line, fields[1].0, fields[1].1);
    let t: Option<i32> = parse_integer(line, fields[2].0, fields[2].1);
    let q: Option<i32> = if fields.len() > 3 {
        assert(ranges[3] == (fields@[3].0 as int, fields@[3].1 as int));
        parse_integer(line, fields[3].0, fields[3].1)
    } else {
        Some(0)
    };
    match (x, y, t, q) {
        (Some(x), Some(y), Some(t), Some(q)) => Some(RawMinutia { x, y, t, q }),
        _ => None,
    }
}

/// The minutiae of the first `n` lines, or the first line among them that
/// is no minutia.
pub open spec fn minutiae_of_lines(lines: Seq<Seq<u8>>, n: int) -> Result<Seq<RawMinutia>, ListError>
    decreases n,
{
    if n <= 0 {
        Ok(Seq::empty())
    } else {
        match minutiae_of_lines(lines, n - 1) {
            Err(error) => Err(error),
            Ok(earlier) => match minutia_of_line(lines[n - 1]) {
                Some(minutia) => Ok(earlier.push(minutia)),
                None => Err(ListError::Minutia { line: (n - 1) as usize }),
            },
        }
    }
}

/// The minutiae that a list of minutiae holds, one to a line.
pub open spec fn spec_parse_xyt(text: Seq<u8>) -> Result<Seq<RawMinutia>, ListError> {
    minutiae_of_lines(lines_of(text), lines_of(text).len() as int)
}

/// What a result that holds a list stands for.
pub open spec fn list_view<T>(result: Result<Vec<T>, ListError>) -> Result<Seq<T>, ListError> {
    match result {
        Ok(list) => Ok(list@),
        Err(error) => Err(error),
    }
}

/// Reads a list of minutiae, one to a line.
pub fn parse_xyt(text: &[u8]) -> (minutiae: Result<Vec<RawMinutia>, ListError>)
    ensures
        list_view(minutiae) == spec_parse_xyt(text@),
{
    let ranges: Vec<(usize, usize)> = lines(text);
    let ghost all = lines_of(text@);
    let mut minutiae: Vec<RawMinutia> = Vec::new();
    let mut k: usize = 0;
    while k < ranges.len()
        invariant
            k <= ranges@.len(),
            ranges_view(ranges@) == line_ranges(text@),
            forall|m: int|
                0 <= m < ranges@.len() ==> (#[trigger] ranges@[m]).0 <= ranges@[m].1 <= text@.len(),
            all == lines_of(text@),
            all.len() == ranges@.len(),
            minutiae_of_lines(all, k as int) == Ok::<Seq<RawMinutia>, ListError>(minutiae@),
        decreases ranges@.len() - k,
    {
        let (start, end): (usize, usize) = ranges[k];
        assert(ranges_view(ranges@)[k as int] == (start as int, end as int));
        let line: &[u8] = slice_subrange(text, start, end);
        assert(line@ == all[k as int]);
        match parse_minutia_line(line) {
            Some(minutia) => {
                minutiae.push(minutia);
            },
            None => {
                proof {
                    lemma_minutiae_of_lines_error(all, k as int + 1, all.len() as int);
                }
                return Err(ListError::Minutia { line: k });
            },
        }
        k = k + 1;
    }
    Ok(minutiae)
}

/// An error among the first lines is the error of all lines.
pub proof fn lemma_minutiae_of_lines_error(lines: Seq<Seq<u8>>, n: int, all: int)
    requires
        0 <= n <= all,
        minutiae_of_lines(lines, n).is_err(),
    ensures
        minutiae_of_lines(lines, all) == minutiae_of_lines(lines, n),
    decreases all - n,
{
    if n < all {
        lemma_minutiae_of_lines_error(lines, n, all - 1);
    }
}

/// Whether a byte is white space: a blank, or one of the control characters
/// from the tabulator to the carriage return.
pub open spec fn is_space(byte: u8) -> bool {
    byte == SPACE || 9 <= byte <= 13
}

/// The text without white space at its start and its end.
pub open spec fn trimmed(text: Seq<u8>) -> Seq<u8>
    decreases text.len(),
{
    if text.len() > 0 && is_space(text[0]) {
        trimmed(text.skip(1))
    } else if text.len() > 0 && is_space(text.last()) {
        trimmed(text.drop_last())
    } else {
        text
    }
}

/// Number of lines at the head of a list of kinds that name no kind.
pub const KIND_HEADER_LINES: usize = 4;

/// Number of columns that a line of a list of kinds has at the least.
pub const KIND_COLUMNS: usize = 6;

/// The kind that a line names: the line has at least six columns with
/// colons between them, and the fifth, without white space around it, is
/// `RIG` for the first kind or `BIF` for the second. `None` for any other
/// line.
pub open spec fn kind_of_line(line: Seq<u8>) -> Option<MinutiaKind> {
    let columns = pieces_from(line, COLON, 0);
    if columns.len() < KIND_COLUMNS {
        None
    } else {
        let name = trimmed(piece_of(line, columns[4]));
        if name == seq![82u8, 73u8, 71u8] {
            Some(MinutiaKind::Type0)
        } else if name == seq![66u8, 73u8, 70u8] {
            Some(MinutiaKind::Type1)
        } else {
            None
        }
    }
}

/// Reads the kind that a line names.
pub fn parse_kind_line(line: &[u8]) -> (kind: Option<MinutiaKind>)
    ensures
        kind == kind_of_line(line@),
{
    let columns: Vec<(usize, usize)> = split(line, COLON);
    if columns.len() < KIND_COLUMNS {
        return None;
    }
    let (start, end): (usize, usize) = columns[4];
    assert(ranges_view(columns@)[4] == (start as int, end as int));
    let ghost whole = piece_of(line@, (start as int, end as int));
    let mut first: usize = start;
    let mut last: usize = end;
    assert(line@.subrange(first as int, last as int) =~= whole);
    while first < last && (line[first] == SPACE || (9 <= line[first] && line[first] <= 13))
        invariant
            start <= first <= last <= end <= line@.len(),
            last == end,
            trimmed(whole) == trimmed(line@.subrange(first as int, last as int)),
        decreases last - first,
    {
        proof {
            let piece = line@.subrange(first as int, last as int);
            assert(piece[0] == line@[first as int]);
            assert(piece.skip(1) =~= line@.subrange(first + 1, last as int));
        }
        first = first + 1;
    }
    while first < last && (line[last - 1] == SPACE || (9 <= line[last - 1] && line[last - 1]
        <= 13))
        invariant
            start <= first <= last <= end <= line@.len(),
            first == last || !is_space(line@[first as int]),
            trimmed(whole) == trimmed(line@.subrange(first as int, last as int)),
        decreases last - first,
    {
        proof {
            let piece = line@.subrange(first as int, last as int);
            assert(piece[0] == line@[first as int]);
            assert(piece.last() == line@[last - 1]);
            assert(piece.drop_last() =~= line@.subrange(first as int, last - 1));
        }
        last = last - 1;
    }
    let ghost name = line@.subrange(first as int, last as int);
    proof {
        if first < last {
            assert(name[0] == line@[first as int]);
            assert(name.last() == line@[last - 1]);
        }
        assert(trimmed(name) == name);
    }
    if last - first != 3 {
        return None;
    }
    proof {
        assert(name[0] == line@[first as int]);
        assert(name[1] == line@[first + 1]);
        assert(name[2] == line@[first + 2]);
    }
    if line[first] == 82 && line[first + 1] == 73 && line[first + 2] == 71 {
        assert(name =~= seq![82u8, 73u8, 71u8]);
        Some(MinutiaKind::Type0)
    } else if line[first] == 66 && line[first + 1] == 73 && line[first + 2] == 70 {
        assert(name =~= seq![66u8, 73u8, 70u8]);
        Some(MinutiaKind::Type1)
    } else {
        assert(seq![82u8, 73u8, 71u8][0] == 82u8 && seq![82u8, 73u8, 71u8][1] == 73u8 && seq![
            82u8,
            73u8,
            71u8,
        ][2] == 71u8);
        assert(seq![66u8, 73u8, 70u8][0] == 66u8 && seq![66u8, 73u8, 70u8][1] == 73u8 && seq![
            66u8,
            73u8,
            70u8,
        ][2] == 70u8);
        None
    }
}

/// The kinds of the lines from the header on up to before line `n`, or the
/// first line among them that names no kind.
pub open spec fn kinds_of_lines(lines: Seq<Seq<u8>>, n: int) -> Result<
    Seq<RawMinutiaExtended>,
    ListError,
>
    decreases n,
{
    if n <= KIND_HEADER_LINES {
        Ok(Seq::empty())
    } else {
        match kinds_of_lines(lines, n - 1) {
            Err(error) => Err(error),
            Ok(earlier) => match kind_of_line(lines[n - 1]) {
                Some(kind) => Ok(earlier.push(RawMinutiaExtended { kind })),
                None => Err(ListError::Kind { line: (n - 1) as usize }),
            },
        }
    }
}

/// The kinds that a list of kinds holds, one to a line behind the header.
pub open spec fn spec_parse_min(text: Seq<u8>) -> Result<Seq<RawMinutiaExtended>, ListError> {
    kinds_of_lines(lines_of(text), lines_of(text).len() as int)
}

/// An error among the first lines is the error of all lines.
proof fn lemma_kinds_of_lines_error(lines: Seq<Seq<u8>>, n: int, all: int)
    requires
        0 <= n <= all,
        kinds_of_lines(lines, n).is_err(),
    ensures
        kinds_of_lines(lines, all) == kinds_of_lines(lines, n),
    decreases all - n,
{
    if n < all {
        lemma_kinds_of_lines_error(lines, n, all - 1);
    }
}

/// Reads a list of kinds, one to a line behind a header of four lines.
pub fn parse_min(text: &[u8]) -> (kinds: Result<Vec<RawMinutiaExtended>, ListError>)
    ensures
        list_view(kinds) == spec_parse_min(text@),
{
    let ranges: Vec<(usize, usize)> = lines(text);
    let ghost all = lines_of(text@);
    let mut kinds: Vec<RawMinutiaExtended> = Vec::new();
    if ranges.len() <= KIND_HEADER_LINES {
        return Ok(kinds);
    }
    let mut k: usize = KIND_HEADER_LINES;
    while k < ranges.len()
        invariant
            KIND_HEADER_LINES <= k <= ranges@.len(),
            ranges_view(ranges@) == line_ranges(text@),
            forall|m: int|
                0 <= m < ranges@.len() ==> (#[trigger] ranges@[m]).0 <= ranges@[m].1 <= text@.len(),
            all == lines_of(text@),
            all.len() == ranges@.len(),
            kinds_of_lines(all, k as int) == Ok::<Seq<RawMinutiaExtended>, ListError>(kinds@),
        decreases ranges@.len() - k,
    {
        let (start, end): (usize, usize) = ranges[k];
        assert(ranges_view(ranges@)[k as int] == (start as int, end as int));
        let line: &[u8] = slice_subrange(text, start, end);
        assert(line@ == all[k as int]);
        match parse_kind_line(line) {
            Some(kind) => {
                kinds.push(RawMinutiaExtended { kind });
            },
            None => {
                proof {
                    lemma_kinds_of_lines_error(all, k as int + 1, all.len() as int);
                }
                return Err(ListError::Kind { line: k });
            },
        }
        k = k + 1;
    }
    Ok(kinds)
}

/// The raw minutia with its kind: an orientation beyond 180 degrees is
/// taken a full turn lower.
pub open spec fn combined(raw: RawMinutia, kind: MinutiaKind) -> RawMinutiaCombined {
    RawMinutiaCombined {
        x: raw.x,
        y: raw.y,
        t: if raw.t > 180 {
            (raw.t - 360) as i32
        } else {
            raw.t
        },
        q: raw.q,
        kind,
    }
}

/// The minutiae of a list of minutiae with the kinds of a list of kinds,
/// where there is one: the kinds go to the minutiae in their order, and a
/// minutia without a kind is of the first kind. A list that cannot be read
/// gives its error, that of the minutiae first; more kinds than minutiae
/// are an error too.
pub open spec fn spec_parse(xyt: Seq<u8>, min: Option<Seq<u8>>) -> Result<
    Seq<RawMinutiaCombined>,
    ListError,
> {
    match spec_parse_xyt(xyt) {
        Err(error) => Err(error),
        Ok(minutiae) => match min {
            None => Ok(
                Seq::new(minutiae.len(), |i: int| combined(minutiae[i], MinutiaKind::Type0)),
            ),
            Some(text) => match spec_parse_min(text) {
                Err(error) => Err(error),
                Ok(kinds) => if kinds.len() > minutiae.len() {
                    Err(ListError::TooManyKinds)
                } else {
                    Ok(
                        Seq::new(
                            minutiae.len(),
                            |i: int|
                                combined(
                                    minutiae[i],
                                    if i < kinds.len() {
                                        kinds[i].kind
                                    } else {
                                        MinutiaKind::Type0
                                    },
                                ),
                        ),
                    )
                },
            },
        },
    }
}

/// What an optional text stands for.
pub open spec fn text_view(text: Option<&[u8]>) -> Option<Seq<u8>> {
    match text {
        Some(bytes) => Some(bytes@),
        None => None,
    }
}

/// Reads a list of minutiae and, where there is one, the list of their
/// kinds.
pub fn parse(xyt: &[u8], min: Option<&[u8]>) -> (minutiae: Result<
    Vec<RawMinutiaCombined>,
    ListError,
>)
    ensures
        list_view(minutiae) == spec_parse(xyt@, text_view(min)),
{
    let raw: Vec<RawMinutia> = match parse_xyt(xyt) {
        Ok(raw) => raw,
        Err(error) => {
            return Err(error);
        },
    };
    let kinds: Vec<RawMinutiaExtended> = match min {
        Some(text) => match parse_min(text) {
            Ok(kinds) => kinds,
            Err(error) => {
                return Err(error);
            },
        },
        None => Vec::new(),
    };
    if kinds.len() > raw.len() {
        return Err(ListError::TooManyKinds);
    }
    let mut minutiae: Vec<RawMinutiaCombined> = Vec::new();
    let mut i: usize = 0;
    while i < raw.len()
        invariant
            i <= raw@.len(),
            kinds@.len() <= raw@.len(),
            minutiae@.len() == i,
            forall|k: int|
                0 <= k < i ==> #[trigger] minutiae@[k] == combined(
                    raw@[k],
                    if k < kinds@.len() {
                        kinds@[k].kind
                    } else {
                        MinutiaKind::Type0
                    },
                ),
        decreases raw@.len() - i,
    {
        let it: RawMinutia = raw[i];
        let kind: MinutiaKind = if i < kinds.len() {
            kinds[i].kind
        } else {
            MinutiaKind::Type0
        };
        minutiae.push(
            RawMinutiaCombined {
                x: it.x,
                y: it.y,
                t: if it.t > 180 {
                    it.t - 360
                } else {
                    it.t
                },
                q: it.q,
                kind,
            },
        );
        i = i + 1;
    }
    proof {
        let expected = spec_parse(xyt@, text_view(min));
        assert(expected.is_ok());
        assert(minutiae@ =~= expected.unwrap());
    }
    Ok(minutiae)
}

} // verus!
