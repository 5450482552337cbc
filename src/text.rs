//! Text buffers, held as ropes, and the conversions between character
//! offsets and line/column positions.
use vstd::prelude::*;
use ropey::Rope;

verus! {

/// ropey's `Rope`, the buffer that holds the live text of an open file.
#[verifier::external_type_specification]
#[verifier::external_body]
pub struct ExRope(Rope);

/// The characters that a rope holds.
pub uninterp spec fn rope_text(r: Rope) -> Seq<char>;

/// The line, counted from zero, of the character at an offset.
pub uninterp spec fn line_of_char(text: Seq<char>, offset: int) -> int;

/// The offset of the first character of a line.
pub uninterp spec fn line_start(text: Seq<char>, line: int) -> int;

/// The number of bytes of a character in UTF-8.
pub open spec fn utf8_width(c: char) -> int {
    if (c as u32) < 0x80 {
        1
    } else if (c as u32) < 0x800 {
        2
    } else if (c as u32) < 0x10000 {
        3
    } else {
        4
    }
}

/// The number of bytes of a text in UTF-8.
pub open spec fn utf8_len(text: Seq<char>) -> int
    decreases text.len(),
{
    if text.len() == 0 {
        0
    } else {
        utf8_len(text.drop_last()) + utf8_width(text.last())
    }
}

/// The number of characters of `text` that start before the UTF-8 byte
/// `offset`: the character that holds the byte, or the length of the text
/// for an offset one past its end.
pub open spec fn char_of_byte(text: Seq<char>, offset: int) -> int
    decreases text.len(),
{
    if text.len() == 0 || offset < utf8_width(text[0]) {
        0
    } else {
        1 + char_of_byte(text.drop_first(), offset - utf8_width(text[0]))
    }
}

pub proof fn lemma_char_of_byte_bounds(text: Seq<char>, offset: int)
    ensures
        0 <= char_of_byte(text, offset) <= text.len(),
        offset >= 0 ==> char_of_byte(text, offset) <= offset,
    decreases text.len(),
{
    if text.len() > 0 && offset >= utf8_width(text[0]) {
        lemma_char_of_byte_bounds(text.drop_first(), offset - utf8_width(text[0]));
    }
}

/// A later byte lies in the same character or a later one.
pub proof fn lemma_char_of_byte_monotone(text: Seq<char>, a: int, b: int)
    requires
        a <= b,
    ensures
        char_of_byte(text, a) <= char_of_byte(text, b),
    decreases text.len(),
{
    lemma_char_of_byte_bounds(text, b);
    if text.len() > 0 && a >= utf8_width(text[0]) {
        lemma_char_of_byte_monotone(text.drop_first(), a - utf8_width(text[0]), b - utf8_width(text[0]));
    }
}

/// Relies on ropey's `Rope::from_str`: the rope holds the characters of `s`.
#[verifier::external_body]
pub(crate) fn rope_from_str(s: &str) -> (r: Rope)
    ensures
        rope_text(r) == s@,
{
    Rope::from_str(s)
}

/// Relies on ropey's `Rope::try_char_to_line`: the line of a character
/// offset, which may be one past the end, an error past that. The line
/// counts the line endings before the offset, so it starts no later than
/// the offset, is no larger than it, and grows with the offset.
#[verifier::external_body]
fn char_to_line(rope: &Rope, offset: usize) -> (r: Option<usize>)
    ensures
        r is Some <==> offset <= rope_text(*rope).len(),
        r matches Some(l) ==> l == line_of_char(rope_text(*rope), offset as int),
        r matches Some(l) ==> line_start(rope_text(*rope), l as int) <= offset && l <= offset,
        r matches Some(l) ==> forall|j: int|
            0 <= j <= offset ==> #[trigger] line_of_char(rope_text(*rope), j) <= l,
        r matches Some(l) ==> forall|k: int|
            offset <= k <= rope_text(*rope).len() ==> l <= #[trigger] line_of_char(rope_text(*rope), k),
{
    rope.try_char_to_line(offset).ok()
}

/// Relies on ropey's `Rope::try_line_to_char`: the offset of the first
/// character of a line, for every line up to one past the last, never past
/// the end of the text; an error past that.
#[verifier::external_body]
fn line_to_char(rope: &Rope, line: usize) -> (r: Option<usize>)
    ensures
        r is Some <==> line <= line_of_char(rope_text(*rope), rope_text(*rope).len() as int) + 1,
        r matches Some(c) ==> c == line_start(rope_text(*rope), line as int) && c <= rope_text(
            *rope,
        ).len(),
{
    rope.try_line_to_char(line).ok()
}

/// Relies on ropey's `Rope::try_byte_to_char`: the character that holds a
/// UTF-8 byte offset, which may be one past the end; an error past that.
#[verifier::external_body]
fn byte_to_char(rope: &Rope, offset: usize) -> (r: Option<usize>)
    ensures
        r is Some <==> offset <= utf8_len(rope_text(*rope)),
        r matches Some(c) ==> c == char_of_byte(rope_text(*rope), offset as int),
{
    rope.try_byte_to_char(offset).ok()
}

/// A zero-based line and column, the column counted in characters.
#[derive(Debug, Clone, Copy, PartialEq, Eq, Structural)]
pub struct Position {
    pub line: u32,
    pub character: u32,
}

/// The positions of the two ends of a span.
#[derive(Debug, Clone, Copy, PartialEq, Eq, Structural)]
pub struct Range {
    pub start: Position,
    pub end: Position,
}

/// The position of a character offset of `text`: its line, and its
/// distance from the start of that line. None past the end of the text.
pub open spec fn position_of_offset(text: Seq<char>, offset: int) -> Option<Position> {
    if 0 <= offset <= text.len() {
        let line = line_of_char(text, offset);
        Some(Position { line: line as u32, character: (offset - line_start(text, line)) as u32 })
    } else {
        None
    }
}

/// The character offset of a position: the start of its line plus its
/// column, for a line the text has (or one past the last).
pub open spec fn offset_of_position(text: Seq<char>, p: Position) -> Option<int> {
    if p.line <= line_of_char(text, text.len() as int) + 1 && line_start(text, p.line as int)
        + p.character <= usize::MAX {
        Some(line_start(text, p.line as int) + p.character)
    } else {
        None
    }
}

/// The line of `offset` starts no later than it, is no larger than it, and
/// lies between the lines of the offsets before and after it.
pub open spec fn lines_grow_to(text: Seq<char>, offset: int) -> bool {
    &&& 0 <= line_of_char(text, offset) <= offset
    &&& 0 <= line_start(text, line_of_char(text, offset)) <= offset
    &&& forall|k: int| offset <= k <= text.len() ==> line_of_char(text, offset) <= #[trigger] line_of_char(text, k)
    &&& forall|j: int| 0 <= j <= offset ==> #[trigger] line_of_char(text, j) <= line_of_char(text, offset)
}

/// The position of a character offset of the text.
pub fn offset_to_position(offset: usize, rope: &Rope) -> (r: Option<Position>)
    ensures
        r == position_of_offset(rope_text(*rope), offset as int),
        r is Some ==> lines_grow_to(rope_text(*rope), offset as int),
{
    let line = match char_to_line(rope, offset) {
        Some(l) => l,
        None => return None,
    };
    let ghost t = rope_text(*rope);
    assert(line <= line_of_char(t, t.len() as int));
    let first = match line_to_char(rope, line) {
        Some(c) => c,
        None => return None,
    };
    Some(Position { line: line as u32, character: (offset - first) as u32 })
}

/// The character offset of a position: the start of its line plus its column.
pub fn position_to_offset(position: Position, rope: &Rope) -> (r: Option<usize>)
    ensures
        match r {
            Some(o) => offset_of_position(rope_text(*rope), position) == Some(o as int),
            None => offset_of_position(rope_text(*rope), position) is None,
        },
{
    let first = match line_to_char(rope, position.line as usize) {
        Some(c) => c,
        None => return None,
    };
    first.checked_add(position.character as usize)
}

/// A position and the offset it came from give that offset back when the
/// line and column fit.
pub proof fn lemma_position_round_trip(text: Seq<char>, offset: int)
    requires
        0 <= offset <= text.len(),
        text.len() <= u32::MAX,
        lines_grow_to(text, offset),
    ensures
        offset_of_position(text, position_of_offset(text, offset)->Some_0) == Some(offset),
{
    assert(line_of_char(text, offset) <= line_of_char(text, text.len() as int));
}

/// The range of a span of character offsets, when the text holds both ends.
pub fn span_to_range(start: usize, end: usize, rope: &Rope) -> (r: Option<Range>)
    ensures
        r == match (position_of_offset(rope_text(*rope), start as int), position_of_offset(
            rope_text(*rope),
            end as int,
        )) {
            (Some(s), Some(e)) => Some(Range { start: s, end: e }),
            _ => None,
        },
{
    let s = match offset_to_position(start, rope) {
        Some(p) => p,
        None => return None,
    };
    let e = match offset_to_position(end, rope) {
        Some(p) => p,
        None => return None,
    };
    Some(Range { start: s, end: e })
}

/// Where a UTF-8 byte offset of the text lies: the position of the
/// character that holds it.
pub fn byte_position(offset: usize, rope: &Rope) -> (r: Option<Position>)
    ensures
        r == if offset <= utf8_len(rope_text(*rope)) {
            position_of_offset(rope_text(*rope), char_of_byte(rope_text(*rope), offset as int))
        } else {
            None
        },
        r is Some ==> lines_grow_to(rope_text(*rope), char_of_byte(rope_text(*rope), offset as int)),
{
    let c = match byte_to_char(rope, offset) {
        Some(c) => c,
        None => return None,
    };
    proof {
        lemma_char_of_byte_bounds(rope_text(*rope), offset as int);
    }
    offset_to_position(c, rope)
}

} // verus!
