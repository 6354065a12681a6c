//! The text form of an edge list: one edge on each line, its two node ids
//! as decimal integers with blanks between them.
use crate::graph::{NodeID, edge_pairs};
use vstd::prelude::*;

verus! {

/// Why a text is no edge list. Lines are counted from 1.
#[derive(Clone, Copy, Debug, PartialEq, Eq)]
pub enum ParseError {
    /// A field of the line is not a decimal integer that fits a node id.
    NotAnInteger { line: usize },
    /// The line does not hold two fields.
    WrongFieldCount { line: usize },
}

/// A blank separates fields: a space, a tab, a line feed, a vertical tab, a
/// form feed or a carriage return.
pub open spec fn is_blank(byte: u8) -> bool {
    byte == 32 || (9 <= byte <= 13)
}

/// A decimal digit.
pub open spec fn is_digit(byte: u8) -> bool {
    48 <= byte <= 57
}

/// The end of the line that holds position `from`: the position of the next
/// line feed, or the end of the text.
pub open spec fn line_end(text: Seq<u8>, from: int) -> int
    decreases text.len() - from,
{
    if from < 0 || from >= text.len() {
        text.len() as int
    } else if text[from] == 10 {
        from
    } else {
        line_end(text, from + 1)
    }
}

/// The first position from `from` on, and before `end`, that holds no
/// blank; `end` if there is none.
pub open spec fn field_start(text: Seq<u8>, from: int, end: int) -> int
    decreases end - from,
{
    if from < 0 || from >= end || from >= text.len() {
        end
    } else if !is_blank(text[from]) {
        from
    } else {
        field_start(text, from + 1, end)
    }
}

/// The first position from `from` on, and before `end`, that holds a
/// blank; `end` if there is none.
pub open spec fn field_end(text: Seq<u8>, from: int, end: int) -> int
    decreases end - from,
{
    if from < 0 || from >= end || from >= text.len() {
        end
    } else if is_blank(text[from]) {
        from
    } else {
        field_end(text, from + 1, end)
    }
}

/// Every byte from `from` up to `to` is a digit.
pub open spec fn all_digits(text: Seq<u8>, from: int, to: int) -> bool {
    forall|i: int| from <= i < to ==> is_digit(#[trigger] text[i])
}

/// The number that the digits from `from` up to `to` write.
pub open spec fn digits_value(text: Seq<u8>, from: int, to: int) -> int
    decreases to - from,
{
    if to <= from {
        0
    } else {
        10 * digits_value(text, from, to - 1) + (text[to - 1] - 48)
    }
}

/// The node id that the field from `from` up to `to` writes: an optional
/// sign, then one digit or more, within the range of a node id.
pub open spec fn field_value(text: Seq<u8>, from: int, to: int) -> Option<NodeID> {
    let signed = from < to && (text[from] == 43 || text[from] == 45);
    let digits = if signed {
        from + 1
    } else {
        from
    };
    let magnitude = digits_value(text, digits, to);
    let value = if from < to && text[from] == 45 {
        -magnitude
    } else {
        magnitude
    };
    if digits < to && all_digits(text, digits, to) && i32::MIN <= value <= i32::MAX {
        Some(value as i32)
    } else {
        None
    }
}

/// The values of the fields of the line part from `from` up to `end`, or
/// `None` if one of them is no node id.
pub open spec fn fields_from(text: Seq<u8>, from: int, end: int) -> Option<Seq<NodeID>>
    decreases end - from,
    via fields_from_decreases
{
    let start = field_start(text, from, end);
    if from < 0 || end > text.len() || start >= end {
        Some(Seq::empty())
    } else {
        let stop = field_end(text, start, end);
        match field_value(text, start, stop) {
            None => None,
            Some(value) => match fields_from(text, stop, end) {
                None => None,
                Some(rest) => Some(seq![value] + rest),
            },
        }
    }
}

/// Each field is at least one byte long, so the fields behind it are fewer.
#[via_fn]
proof fn fields_from_decreases(text: Seq<u8>, from: int, end: int) {
    if 0 <= from <= end <= text.len() {
        lemma_field_bounds(text, from, end);
        let start = field_start(text, from, end);
        if start < end {
            lemma_field_start_holds_no_blank(text, from, end);
            lemma_field_bounds(text, start, end);
        }
    }
}

/// The edge of the line from `from` up to `end`, which is line number
/// `line`.
pub open spec fn line_edge(text: Seq<u8>, from: int, end: int, line: usize) -> Result<
    (NodeID, NodeID),
    ParseError,
> {
    match fields_from(text, from, end) {
        None => Err(ParseError::NotAnInteger { line }),
        Some(fields) => if fields.len() == 2 {
            Ok((fields[0], fields[1]))
        } else {
            Err(ParseError::WrongFieldCount { line })
        },
    }
}

/// The edges of the lines from position `from` on, the first of which is
/// line number `line`; or what is wrong with the first line that is no
/// edge. A line feed at the end of the text ends the last line and starts
/// no other.
pub open spec fn edges_from(text: Seq<u8>, from: int, line: int) -> Result<
    Seq<(NodeID, NodeID)>,
    ParseError,
>
    decreases text.len() + 1 - from,
    via edges_from_decreases
{
    if from < 0 || from >= text.len() {
        Ok(Seq::empty())
    } else {
        let end = line_end(text, from);
        match line_edge(text, from, end, line as usize) {
            Err(error) => Err(error),
            Ok(edge) => match edges_from(text, end + 1, line + 1) {
                Err(error) => Err(error),
                Ok(rest) => Ok(seq![edge] + rest),
            },
        }
    }
}

/// The next line starts behind the end of this one.
#[via_fn]
proof fn edges_from_decreases(text: Seq<u8>, from: int, line: int) {
    if 0 <= from < text.len() {
        lemma_line_end(text, from);
    }
}

/// The edges that a text holds.
pub open spec fn edges_of(text: Seq<u8>) -> Result<Seq<(NodeID, NodeID)>, ParseError> {
    edges_from(text, 0, 1)
}

/// A line ends at or behind each of its positions, at a line feed or with
/// the text.
pub proof fn lemma_line_end(text: Seq<u8>, from: int)
    requires
        0 <= from <= text.len(),
    ensures
        from <= line_end(text, from) <= text.len(),
        line_end(text, from) < text.len() ==> text[line_end(text, from)] == 10,
    decreases text.len() - from,
{
    if from < text.len() && text[from] != 10 {
        lemma_line_end(text, from + 1);
    }
}

/// Fields lie within the line, and a field that starts at a byte which is
/// no blank holds that byte.
pub proof fn lemma_field_bounds(text: Seq<u8>, from: int, end: int)
    requires
        0 <= from <= end <= text.len(),
    ensures
        from <= field_start(text, from, end) <= end,
        from <= field_end(text, from, end) <= end,
        from < end && !is_blank(text[from]) ==> from < field_end(text, from, end),
    decreases end - from,
{
    if from < end {
        lemma_field_bounds(text, from + 1, end);
    }
}

/// Where a field starts there is no blank.
pub proof fn lemma_field_start_holds_no_blank(text: Seq<u8>, from: int, end: int)
    requires
        0 <= from <= end <= text.len(),
        field_start(text, from, end) < end,
    ensures
        !is_blank(text[field_start(text, from, end)]),
    decreases end - from,
{
    if from < end && is_blank(text[from]) {
        lemma_field_start_holds_no_blank(text, from + 1, end);
    }
}

/// Whether the byte separates fields.
fn is_blank_byte(byte: u8) -> (blank: bool)
    ensures
        blank == is_blank(byte),
{
    byte == 32 || (9 <= byte && byte <= 13)
}

/// Finds the end of the line that holds position `from`.
fn find_line_end(text: &[u8], from: usize) -> (end: usize)
    requires
        from <= text@.len(),
    ensures
        end == line_end(text@, from as int),
        from <= end <= text@.len(),
{
    let mut end = from;
    while end < text.len() && text[end] != 10
        invariant
            from <= end <= text@.len(),
            line_end(text@, end as int) == line_end(text@, from as int),
        decreases text@.len() - end,
    {
        end += 1;
    }
    end
}

/// Skips the blanks from `from` on.
fn find_field_start(text: &[u8], from: usize, end: usize) -> (start: usize)
    requires
        from <= end <= text@.len(),
    ensures
        start == field_start(text@, from as int, end as int),
        from <= start <= end,
{
    let mut start = from;
    while start < end && is_blank_byte(text[start])
        invariant
            from <= start <= end <= text@.len(),
            field_start(text@, start as int, end as int) == field_start(
                text@,
                from as int,
                end as int,
            ),
        decreases end - start,
    {
        start += 1;
    }
    start
}

/// Finds the end of the field that starts at `from`.
fn find_field_end(text: &[u8], from: usize, end: usize) -> (stop: usize)
    requires
        from <= end <= text@.len(),
    ensures
        stop == field_end(text@, from as int, end as int),
        from <= stop <= end,
{
    let mut stop = from;
    while stop < end && !is_blank_byte(text[stop])
        invariant
            from <= stop <= end <= text@.len(),
            field_end(text@, stop as int, end as int) == field_end(
                text@,
                from as int,
                end as int,
            ),
        decreases end - stop,
    {
        stop += 1;
    }
    stop
}


/// A number does not get smaller by more digits behind it.
pub proof fn lemma_digits_grow(text: Seq<u8>, from: int, mid: int, to: int)
    requires
        0 <= from <= mid <= to <= text.len(),
        all_digits(text, from, to),
    ensures
        0 <= digits_value(text, from, mid) <= digits_value(text, from, to),
    decreases to - from,
{
    if from < to {
        if mid < to {
            lemma_digits_grow(text, from, mid, to - 1);
        } else {
            lemma_digits_grow(text, from, mid - 1, to - 1);
        }
        assert(is_digit(text[to - 1]));
    }
}

/// Reads the node id that a field writes.
fn parse_field(text: &[u8], from: usize, to: usize) -> (value: Option<NodeID>)
    requires
        from < to <= text@.len(),
    ensures
        value == field_value(text@, from as int, to as int),
{
    let negative = text[from] == 45;
    let digits = if text[from] == 43 || text[from] == 45 {
        from + 1
    } else {
        from
    };
    if digits >= to {
        return None;
    }
    let mut magnitude: i64 = 0;
    let mut pos = digits;
    while pos < to
        invariant
            from < to,
            digits == (if text@[from as int] == 43 || text@[from as int] == 45 {
                from + 1
            } else {
                from as int
            }),
            digits <= pos <= to <= text@.len(),
            all_digits(text@, digits as int, pos as int),
            magnitude == digits_value(text@, digits as int, pos as int),
            0 <= magnitude <= 2147483648,
        decreases to - pos,
    {
        let byte = text[pos];
        if byte < 48 || byte > 57 {
            assert(!is_digit(text@[pos as int]));
            return None;
        }
        magnitude = magnitude * 10 + (byte - 48) as i64;
        pos += 1;
        if magnitude > 2147483648 {
            proof {
                if all_digits(text@, digits as int, to as int) {
                    lemma_digits_grow(text@, digits as int, pos as int, to as int);
                }
            }
            return None;
        }
    }
    let value = if negative {
        -magnitude
    } else {
        magnitude
    };
    if value < -2147483648 || value > 2147483647 {
        None
    } else {
        Some(value as i32)
    }
}

/// The fields read so far before those that follow.
pub open spec fn fields_then(fields: Seq<NodeID>, rest: Option<Seq<NodeID>>) -> Option<
    Seq<NodeID>,
> {
    match rest {
        None => None,
        Some(rest) => Some(fields + rest),
    }
}

/// Reads the edge of one line.
fn parse_line(text: &[u8], from: usize, end: usize, line: usize) -> (edge: Result<
    Vec<NodeID>,
    ParseError,
>)
    requires
        from <= end <= text@.len(),
    ensures
        match edge {
            Ok(ends) => ends@.len() == 2 && line_edge(text@, from as int, end as int, line) == Ok::<
                (NodeID, NodeID),
                ParseError,
            >((ends@[0], ends@[1])),
            Err(error) => line_edge(text@, from as int, end as int, line) == Err::<
                (NodeID, NodeID),
                ParseError,
            >(error),
        },
{
    let mut fields: Vec<NodeID> = Vec::with_capacity(2);
    let mut pos = from;
    assert(fields@ + fields_from(text@, from as int, end as int)->0 =~= fields_from(
        text@,
        from as int,
        end as int,
    )->0);
    while pos < end
        invariant
            from <= pos <= end <= text@.len(),
            fields_then(fields@, fields_from(text@, pos as int, end as int)) == fields_from(
                text@,
                from as int,
                end as int,
            ),
        decreases end - pos,
    {
        let start = find_field_start(text, pos, end);
        if start >= end {
            pos = end;
        } else {
            proof {
                lemma_field_start_holds_no_blank(text@, pos as int, end as int);
                lemma_field_bounds(text@, start as int, end as int);
            }
            let stop = find_field_end(text, start, end);
            match parse_field(text, start, stop) {
                None => {
                    return Err(ParseError::NotAnInteger { line });
                },
                Some(value) => {
                    let ghost before = fields@;
                    fields.push(value);
                    proof {
                        let rest = fields_from(text@, stop as int, end as int);
                        if rest is Some {
                            assert(before.push(value) + rest->0 =~= before + (seq![value]
                                + rest->0));
                        }
                    }
                },
            }
            pos = stop;
        }
    }
    proof {
        assert(fields_from(text@, end as int, end as int) == Some(Seq::<NodeID>::empty()));
        assert(fields@ + Seq::<NodeID>::empty() =~= fields@);
    }
    if fields.len() == 2 {
        Ok(fields)
    } else {
        Err(ParseError::WrongFieldCount { line })
    }
}

/// The edges read so far before those that follow.
pub open spec fn edges_then(
    edges: Seq<(NodeID, NodeID)>,
    rest: Result<Seq<(NodeID, NodeID)>, ParseError>,
) -> Result<Seq<(NodeID, NodeID)>, ParseError> {
    match rest {
        Err(error) => Err(error),
        Ok(rest) => Ok(edges + rest),
    }
}

/// Reads an edge list: one edge on each line, written as two node ids with
/// blanks between, before or behind them. A node id is a decimal integer
/// with an optional sign. The text is refused with the number of its first
/// line that does not hold two fields, or that holds a field which is no
/// node id.
pub fn parse_edge_list(text: &[u8]) -> (parsed: Result<Vec<Vec<NodeID>>, ParseError>)
    ensures
        match parsed {
            Ok(edge_list) => {
                &&& edges_of(text@) == Ok::<Seq<(NodeID, NodeID)>, ParseError>(
                    edge_pairs(edge_list@),
                )
                &&& forall|i: int|
                    0 <= i < edge_list@.len() ==> (#[trigger] edge_list@[i])@.len() == 2
            },
            Err(error) => edges_of(text@) == Err::<Seq<(NodeID, NodeID)>, ParseError>(error),
        },
{
    let mut edge_list: Vec<Vec<NodeID>> = Vec::new();
    let mut pos: usize = 0;
    let mut line: usize = 1;
    proof {
        let all = edges_of(text@);
        if all is Ok {
            assert(edge_pairs(edge_list@) + all->Ok_0 =~= all->Ok_0);
        }
    }
    while pos < text.len()
        invariant
            pos <= text@.len(),
            1 <= line <= pos + 1,
            forall|i: int| 0 <= i < edge_list@.len() ==> (#[trigger] edge_list@[i])@.len() == 2,
            edges_then(edge_pairs(edge_list@), edges_from(text@, pos as int, line as int))
                == edges_of(text@),
        decreases text@.len() - pos,
    {
        let end = find_line_end(text, pos);
        match parse_line(text, pos, end, line) {
            Err(error) => {
                return Err(error);
            },
            Ok(ends) => {
                let ghost before = edge_pairs(edge_list@);
                let ghost edge = (ends@[0], ends@[1]);
                edge_list.push(ends);
                proof {
                    assert(edge_pairs(edge_list@) =~= before.push(edge));
                    let rest = edges_from(text@, end + 1, line + 1);
                    if rest is Ok {
                        assert(before.push(edge) + rest->Ok_0 =~= before + (seq![edge]
                            + rest->Ok_0));
                    }
                }
            },
        }
        if end < text.len() {
            pos = end + 1;
            line += 1;
        } else {
            pos = end;
        }
    }
    proof {
        assert(edge_pairs(edge_list@) + Seq::<(NodeID, NodeID)>::empty() =~= edge_pairs(
            edge_list@,
        ));
    }
    Ok(edge_list)
}

} // verus!
