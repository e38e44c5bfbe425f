//! Positions in a text as editors count them: lines, and UTF-16 units within a line.
use vstd::prelude::*;
use vstd::utf8::{encode_scalar, encode_utf8};

use crate::text::{chars_of, string_of, LINE_FEED};

verus! {

/// A place in a text: line and UTF-16 units into it, both from 0.
#[derive(Debug, Clone, Copy, PartialEq, Eq, Structural)]
pub struct Position {
    pub line: u32,
    pub character: u32,
}

/// What lies between two places in a text.
#[derive(Debug, Clone, Copy, PartialEq, Eq, Structural)]
pub struct Range {
    pub start: Position,
    pub end: Position,
}

/// The first place is not behind the second.
pub open spec fn not_after(a: Position, b: Position) -> bool {
    a.line < b.line || (a.line == b.line && a.character <= b.character)
}

/// Whether the position lies in the range or at either end of it.
pub fn range_contains(range: &Range, position: Position) -> (contains: bool)
    ensures
        contains == (not_after(range.start, position) && not_after(position, range.end)),
{
    let after_start: bool = position.line > range.start.line || (position.line == range.start.line
        && position.character >= range.start.character);
    let before_end: bool = position.line < range.end.line || (position.line == range.end.line
        && position.character <= range.end.character);
    after_start && before_end
}

/// How many UTF-16 units a character takes.
pub open spec fn utf16_len(c: char) -> int {
    if c as u32 >= 0x1_0000 {
        2
    } else {
        1
    }
}

/// How many bytes the first `k` characters take.
pub open spec fn offset_of(text: Seq<char>, k: int) -> int {
    encode_utf8(text.take(k)).len() as int
}

/// How many of the first `k` characters end a line.
pub open spec fn line_number(text: Seq<char>, k: int) -> int
    decreases k,
{
    if k <= 0 {
        0
    } else {
        line_number(text, k - 1) + if text[k - 1] == '\n' {
            1int
        } else {
            0int
        }
    }
}

/// How many UTF-16 units there are between the last end of a line and the `k`-th character.
pub open spec fn column(text: Seq<char>, k: int) -> int
    decreases k,
{
    if k <= 0 || text[k - 1] == '\n' {
        0
    } else {
        column(text, k - 1) + utf16_len(text[k - 1])
    }
}

/// The position of the `k`-th character.
pub open spec fn char_position(text: Seq<char>, k: int) -> Position {
    Position { line: line_number(text, k) as u32, character: column(text, k) as u32 }
}

/// How many UTF-16 units begin with a byte of UTF-8.
pub open spec fn unit_of(byte: u8) -> int {
    if 0x80 <= byte <= 0xbf {
        0
    } else if byte >= 0xf0 {
        2
    } else {
        1
    }
}

/// How many UTF-16 units there are between the last end of a line and a byte.
pub open spec fn byte_column(bytes: Seq<u8>, n: int) -> int
    decreases n,
{
    if n <= 0 || bytes[n - 1] == LINE_FEED {
        0
    } else {
        byte_column(bytes, n - 1) + unit_of(bytes[n - 1])
    }
}

/// The position of a byte; the end of the text for one beyond it.
pub open spec fn byte_position(bytes: Seq<u8>, byte: int) -> Position {
    let n = if byte < bytes.len() {
        byte
    } else {
        bytes.len() as int
    };
    Position {
        line: crate::model::line_feeds(bytes, n) as u32,
        character: byte_column(bytes, n) as u32,
    }
}

/// The encoding of two texts one after the other.
pub proof fn lemma_encode_add(a: Seq<char>, b: Seq<char>)
    ensures
        encode_utf8(a + b) == encode_utf8(a) + encode_utf8(b),
    decreases a.len(),
{
    if a.len() == 0 {
        assert(a + b =~= b);
        assert(encode_utf8(a) + encode_utf8(b) =~= encode_utf8(b));
    } else {
        assert((a + b).drop_first() =~= a.drop_first() + b);
        lemma_encode_add(a.drop_first(), b);
        assert(encode_utf8(a + b) =~= encode_utf8(a) + encode_utf8(b));
    }
}

/// Where the bytes of the `k`-th character lie.
proof fn lemma_char_bytes(text: Seq<char>, k: int)
    requires
        0 <= k < text.len(),
    ensures
        offset_of(text, k + 1) == offset_of(text, k) + encode_scalar(text[k] as u32).len(),
        offset_of(text, k + 1) <= encode_utf8(text).len(),
        encode_utf8(text).subrange(offset_of(text, k), offset_of(text, k + 1)) == encode_scalar(
            text[k] as u32,
        ),
{
    let head = text.take(k);
    let one = seq![text[k]];
    let tail = text.skip(k + 1);
    assert(text.take(k + 1) =~= head + one);
    assert(text =~= text.take(k + 1) + tail);
    lemma_encode_add(head, one);
    lemma_encode_add(text.take(k + 1), tail);
    assert(one.drop_first() =~= Seq::empty());
    assert(encode_utf8(one) =~= encode_scalar(text[k] as u32)) by {
        reveal_with_fuel(encode_utf8, 2);
    }
    assert(encode_utf8(text).subrange(offset_of(text, k), offset_of(text, k + 1))
        =~= encode_scalar(text[k] as u32));
}

proof fn lemma_scalar_bytes(c: u32)
    ensures
        c <= 0x7f ==> (c & 0x7f) as u8 == c,
        0xc0 <= (0xc0u8 | ((c >> 6) & 0x1f) as u8) <= 0xdf,
        0xe0 <= (0xe0u8 | ((c >> 12) & 0x0f) as u8) <= 0xef,
        0xf0 <= (0xf0u8 | ((c >> 18) & 0x7) as u8) <= 0xf7,
        0x80 <= (0x80u8 | (c & 0x3f) as u8) <= 0xbf,
        0x80 <= (0x80u8 | ((c >> 6) & 0x3f) as u8) <= 0xbf,
        0x80 <= (0x80u8 | ((c >> 12) & 0x3f) as u8) <= 0xbf,
{
    assert(c <= 0x7f ==> (c & 0x7f) as u8 == c) by (bit_vector);
    assert(0xc0 <= (0xc0u8 | ((c >> 6) & 0x1f) as u8) <= 0xdf && 0xe0 <= (0xe0u8 | ((c >> 12)
        & 0x0f) as u8) <= 0xef && 0xf0 <= (0xf0u8 | ((c >> 18) & 0x7) as u8) <= 0xf7) by (bit_vector);
    assert(0x80 <= (0x80u8 | (c & 0x3f) as u8) <= 0xbf && 0x80 <= (0x80u8 | ((c >> 6) & 0x3f) as u8)
        <= 0xbf && 0x80 <= (0x80u8 | ((c >> 12) & 0x3f) as u8) <= 0xbf) by (bit_vector);
}

/// Passing a character passes its UTF-16 units, or ends a line.
proof fn lemma_char_step(text: Seq<char>, k: int)
    requires
        0 <= k < text.len(),
    ensures
        ({
            let bytes = encode_utf8(text);
            let from = offset_of(text, k);
            let to = offset_of(text, k + 1);
            if text[k] == '\n' {
                byte_column(bytes, to) == 0 && crate::model::line_feeds(bytes, to)
                    == crate::model::line_feeds(bytes, from) + 1
            } else {
                byte_column(bytes, to) == byte_column(bytes, from) + utf16_len(text[k])
                    && crate::model::line_feeds(bytes, to) == crate::model::line_feeds(bytes, from)
            }
        }),
{
    let bytes = encode_utf8(text);
    let from = offset_of(text, k);
    let c = text[k] as u32;
    let scalar = encode_scalar(c);
    lemma_char_bytes(text, k);
    lemma_scalar_bytes(c);
    let part = bytes.subrange(from, from + scalar.len());
    assert(part == scalar);
    assert forall|i: int| 0 <= i < scalar.len() implies bytes[from + i] == #[trigger] scalar[i] by {
        assert(part[i] == bytes[from + i]);
    }
    assert(bytes[from] == scalar[0]);
    assert(byte_column(bytes, from + 1) == (if bytes[from] == LINE_FEED {
        0
    } else {
        byte_column(bytes, from) + unit_of(bytes[from])
    }));
    let feeds = crate::model::line_feeds(bytes, from);
    assert(crate::model::line_feeds(bytes, from + 1) == feeds + if bytes[from] == LINE_FEED {
        1nat
    } else {
        0nat
    });
    vstd::utf8::char_is_scalar(text[k]);
    vstd::utf8::char_u32_cast(text[k], c);
    assert(c == 10 ==> text[k] == '\n');
    if scalar.len() >= 2 {
        assert(bytes[from + 1] == scalar[1]);
        assert(byte_column(bytes, from + 2) == byte_column(bytes, from + 1));
        assert(crate::model::line_feeds(bytes, from + 2) == feeds);
    }
    if scalar.len() >= 3 {
        assert(bytes[from + 2] == scalar[2]);
        assert(byte_column(bytes, from + 3) == byte_column(bytes, from + 2));
        assert(crate::model::line_feeds(bytes, from + 3) == feeds);
    }
    if scalar.len() >= 4 {
        assert(bytes[from + 3] == scalar[3]);
        assert(byte_column(bytes, from + 4) == byte_column(bytes, from + 3));
        assert(crate::model::line_feeds(bytes, from + 4) == feeds);
    }
}

/// The position of a byte at which a character begins is the number of lines before it, and the
/// number of UTF-16 units of its line before it.
pub proof fn byte_position_counts_characters(text: Seq<char>, k: int)
    requires
        0 <= k <= text.len(),
    ensures
        crate::model::line_feeds(encode_utf8(text), offset_of(text, k)) == line_number(text, k),
        byte_column(encode_utf8(text), offset_of(text, k)) == column(text, k),
        byte_position(encode_utf8(text), offset_of(text, k)) == char_position(text, k),
    decreases k,
{
    let bytes = encode_utf8(text);
    if k == 0 {
        assert(text.take(0) =~= Seq::empty());
        assert(offset_of(text, 0) == 0);
    } else {
        byte_position_counts_characters(text, k - 1);
        lemma_char_step(text, k - 1);
        lemma_char_bytes(text, k - 1);
    }
}

/// The offsets at which the lines of a text begin.
pub open spec fn line_offsets(bytes: Seq<u8>) -> Seq<usize> {
    crate::model::line_starts_of(bytes, bytes.len() as int).map_values(|start: u32| start as usize)
}

/// The offsets at which the lines of a text begin.
pub fn build_line_starts(text: &str) -> (starts: Vec<usize>)
    requires
        encode_utf8(text@).len() <= u32::MAX,
    ensures
        starts@ == line_offsets(encode_utf8(text@)),
{
    let bytes = text.as_bytes();
    let mut starts: Vec<usize> = Vec::new();
    starts.push(0);
    let mut i: usize = 0;
    assert(starts@ =~= crate::model::line_starts_of(bytes@, 0).map_values(|start: u32| start as usize));
    while i < bytes.len()
        invariant
            bytes@.len() <= u32::MAX,
            i <= bytes@.len(),
            starts@ == crate::model::line_starts_of(bytes@, i as int).map_values(
                |start: u32| start as usize,
            ),
        decreases bytes@.len() - i,
    {
        let ghost before = starts@;
        if bytes[i] == LINE_FEED {
            starts.push(i + 1);
        }
        i = i + 1;
        assert(starts@ =~= crate::model::line_starts_of(bytes@, i as int).map_values(
            |start: u32| start as usize,
        ));
    }
    starts
}

pub proof fn lemma_line_begins(bytes: Seq<u8>, n: int, i: int)
    requires
        0 <= n <= bytes.len() <= u32::MAX,
        0 <= i < crate::model::line_starts_of(bytes, n).len(),
    ensures
        byte_column(bytes, crate::model::line_starts_of(bytes, n)[i] as int) == 0,
    decreases n,
{
    if n > 0 {
        if i < crate::model::line_starts_of(bytes, n - 1).len() {
            lemma_line_begins(bytes, n - 1, i);
        }
    }
}

/// UTF-8 has at least as many bytes as UTF-16 has units.
pub proof fn lemma_column_bound(text: Seq<char>, k: int)
    requires
        0 <= k <= text.len(),
    ensures
        0 <= column(text, k) <= offset_of(text, k),
        0 <= line_number(text, k) <= offset_of(text, k),
    decreases k,
{
    if k > 0 {
        lemma_column_bound(text, k - 1);
        lemma_char_bytes(text, k - 1);
        vstd::utf8::char_is_scalar(text[k - 1]);
    }
}

fn unit(byte: u8) -> (units: u64)
    ensures
        units == unit_of(byte),
{
    if 0x80 <= byte && byte <= 0xbf {
        0
    } else if byte >= 0xf0 {
        2
    } else {
        1
    }
}

/// The UTF-16 units between the beginning of a line and a byte.
pub(crate) fn units_between(bytes: &[u8], start: usize, end: usize) -> (units: u64)
    requires
        start <= end <= bytes@.len() <= u32::MAX,
        byte_column(bytes@, start as int) == 0,
    ensures
        units == byte_column(bytes@, end as int),
{
    let mut at: usize = start;
    let mut units: u64 = 0;
    while at < end
        invariant
            start <= at <= end <= bytes@.len() <= u32::MAX,
            units == byte_column(bytes@, at as int),
            units <= 2 * at,
        decreases end - at,
    {
        if bytes[at] == LINE_FEED {
            units = 0;
        } else {
            units = units + unit(bytes[at]);
        }
        at = at + 1;
    }
    units
}

/// The position of a byte, given the offsets at which the lines begin.
pub fn byte_to_position(text: &str, line_starts: &[usize], byte: usize) -> (position: Position)
    requires
        encode_utf8(text@).len() <= u32::MAX,
        line_starts@ == line_offsets(encode_utf8(text@)),
    ensures
        position == byte_position(encode_utf8(text@), byte as int),
{
    let bytes = text.as_bytes();
    let ghost all = bytes@;
    let ghost starts = crate::model::line_starts_of(all, all.len() as int);
    let end: usize = if byte < bytes.len() {
        byte
    } else {
        bytes.len()
    };
    proof {
        crate::model::lemma_line_starts(all, all.len() as int);
        crate::model::lemma_line_starts(all, end as int);
        crate::model::lemma_line_feeds_monotonic(all, end as int, all.len() as int);
    }
    let mut low: usize = 0;
    let mut high: usize = line_starts.len();
    while low < high
        invariant
            all == bytes@,
            starts == crate::model::line_starts_of(all, all.len() as int),
            line_starts@ == starts.map_values(|start: u32| start as usize),
            end <= all.len(),
            forall|i: int|
                0 <= i < starts.len() ==> ((#[trigger] starts[i]) <= end <==> i < 1
                    + crate::model::line_feeds(all, end as int)),
            low <= 1 + crate::model::line_feeds(all, end as int) <= high <= line_starts@.len(),
        decreases high - low,
    {
        let middle: usize = low + (high - low) / 2;
        assert(line_starts@[middle as int] == starts[middle as int]);
        if line_starts[middle] <= end {
            low = middle + 1;
        } else {
            high = middle;
        }
    }
    let line: usize = low - 1;
    proof {
        assert(starts[line as int] <= end);
        lemma_line_begins(all, all.len() as int, line as int);
    }
    let units: u64 = units_between(bytes, line_starts[line], end);
    Position { line: line as u32, character: units as u32 }
}

/// Where a line begins among the first `n` characters; a line beyond the last begins where the
/// last does.
pub open spec fn line_begin(text: Seq<char>, n: int, line: int) -> int
    decreases n,
{
    if n <= 0 {
        0
    } else if text[n - 1] == '\n' && line_number(text, n) <= line {
        n
    } else {
        line_begin(text, n - 1, line)
    }
}

/// The character that so many UTF-16 units lead to from the `k`-th one, within its line.
pub open spec fn advanced(text: Seq<char>, k: int, units: int) -> int
    decreases text.len() - k,
{
    if k >= text.len() || text[k] == '\n' || units <= 0 {
        k
    } else {
        advanced(text, k + 1, units - utf16_len(text[k]))
    }
}

/// The character at a position; the end of the line for a position beyond it, the last line for
/// a line beyond it.
pub open spec fn index_at(text: Seq<char>, position: Position) -> int {
    advanced(
        text,
        line_begin(text, text.len() as int, position.line as int),
        position.character as int,
    )
}

proof fn lemma_line_begin(text: Seq<char>, n: int, line: int)
    requires
        0 <= n <= text.len(),
    ensures
        0 <= line_begin(text, n, line) <= n,
    decreases n,
{
    if n > 0 {
        lemma_line_begin(text, n - 1, line);
    }
}

proof fn lemma_advanced(text: Seq<char>, k: int, units: int)
    requires
        0 <= k <= text.len(),
    ensures
        k <= advanced(text, k, units) <= text.len(),
    decreases text.len() - k,
{
    if !(k >= text.len() || text[k] == '\n' || units <= 0) {
        lemma_advanced(text, k + 1, units - utf16_len(text[k]));
    }
}

proof fn lemma_line_number_grows(text: Seq<char>, a: int, b: int)
    requires
        0 <= a <= b <= text.len(),
    ensures
        line_number(text, a) <= line_number(text, b),
    decreases b - a,
{
    if a < b {
        lemma_line_number_grows(text, a, b - 1);
    }
}

/// Characters behind the `k`-th one do not change where its line begins.
pub proof fn lemma_line_begin_stays(text: Seq<char>, k: int, n: int)
    requires
        0 <= k <= n <= text.len(),
    ensures
        line_begin(text, n, line_number(text, k)) == line_begin(text, k, line_number(text, k)),
    decreases n - k,
{
    if k < n {
        lemma_line_begin_stays(text, k, n - 1);
        lemma_line_number_grows(text, k, n - 1);
    }
}

/// Between the beginning of its line and the `k`-th character lie the units of its column.
proof fn lemma_line_reaches(text: Seq<char>, k: int)
    requires
        0 <= k <= text.len(),
    ensures
        line_begin(text, k, line_number(text, k)) <= k,
        column(text, line_begin(text, k, line_number(text, k))) == 0,
        forall|i: int|
            line_begin(text, k, line_number(text, k)) <= i < k ==> #[trigger] text[i] != '\n',
    decreases k,
{
    if k > 0 && text[k - 1] != '\n' {
        lemma_line_reaches(text, k - 1);
    }
}

proof fn lemma_advance_reaches(text: Seq<char>, j: int, k: int)
    requires
        0 <= j <= k <= text.len(),
        forall|i: int| j <= i < k ==> #[trigger] text[i] != '\n',
    ensures
        column(text, k) >= column(text, j),
        advanced(text, j, column(text, k) - column(text, j)) == k,
    decreases k - j,
{
    if j < k {
        assert(text[j] != '\n');
        lemma_advance_reaches(text, j + 1, k);
        assert(column(text, j + 1) == column(text, j) + utf16_len(text[j]));
    }
}

/// The position of a character leads back to that character.
pub proof fn position_round_trips(text: Seq<char>, k: int)
    requires
        0 <= k <= text.len(),
        encode_utf8(text).len() <= u32::MAX,
    ensures
        index_at(text, char_position(text, k)) == k,
        byte_position(encode_utf8(text), offset_of(text, k)) == char_position(text, k),
{
    byte_position_counts_characters(text, k);
    lemma_column_bound(text, k);
    lemma_offset_grows(text, k, text.len() as int);
    assert(text.take(text.len() as int) =~= text);
    lemma_line_begin_stays(text, k, text.len() as int);
    lemma_line_begin(text, k, line_number(text, k));
    lemma_line_reaches(text, k);
    lemma_advance_reaches(text, line_begin(text, k, line_number(text, k)), k);
}

pub proof fn lemma_offset_grows(text: Seq<char>, a: int, b: int)
    requires
        0 <= a <= b <= text.len(),
    ensures
        offset_of(text, a) <= offset_of(text, b),
        a < b ==> offset_of(text, a) < offset_of(text, b),
    decreases b - a,
{
    if a < b {
        lemma_offset_grows(text, a, b - 1);
        lemma_char_bytes(text, b - 1);
        vstd::utf8::char_is_scalar(text[b - 1]);
    }
}

fn char_bytes(c: char) -> (bytes: usize)
    ensures
        bytes == encode_scalar(c as u32).len(),
{
    proof {
        vstd::utf8::char_is_scalar(c);
    }
    let value: u32 = c as u32;
    if value <= 0x7f {
        1
    } else if value <= 0x7ff {
        2
    } else if value <= 0xffff {
        3
    } else {
        4
    }
}

/// The character at a position and the bytes before it.
fn locate(chars: &Vec<char>, position: Position) -> (place: (usize, usize))
    requires
        encode_utf8(chars@).len() <= usize::MAX,
    ensures
        place.0 == index_at(chars@, position),
        place.0 <= chars@.len(),
        place.1 == offset_of(chars@, index_at(chars@, position)),
{
    let ghost text = chars@;
    let count: usize = chars.len();
    let mut begin: usize = 0;
    let mut begin_offset: usize = 0;
    let mut line: u64 = 0;
    let mut offset: usize = 0;
    let mut i: usize = 0;
    proof {
        assert(text.take(0) =~= Seq::empty());
        assert(text.take(count as int) =~= text);
    }
    while i < count
        invariant
            text == chars@,
            count == text.len(),
            encode_utf8(text).len() <= usize::MAX,
            offset_of(text, count as int) == encode_utf8(text).len(),
            i <= count,
            offset == offset_of(text, i as int),
            line == line_number(text, i as int),
            line <= i,
            begin <= i,
            begin == line_begin(text, i as int, position.line as int),
            begin_offset == offset_of(text, begin as int),
        decreases count - i,
    {
        proof {
            lemma_char_bytes(text, i as int);
            lemma_offset_grows(text, i + 1, count as int);
        }
        offset = offset + char_bytes(chars[i]);
        if chars[i] == '\n' {
            line = line + 1;
            if line <= position.line as u64 {
                begin = i + 1;
                begin_offset = offset;
            }
        }
        i = i + 1;
    }
    let mut at: usize = begin;
    let mut at_offset: usize = begin_offset;
    let mut units: u64 = 0;
    let ghost goal = index_at(text, position);
    while at < count && chars[at] != '\n' && units < position.character as u64
        invariant
            text == chars@,
            count == text.len(),
            encode_utf8(text).len() <= usize::MAX,
            offset_of(text, count as int) == encode_utf8(text).len(),
            at <= count,
            at_offset == offset_of(text, at as int),
            units <= position.character + 1,
            goal == index_at(text, position),
            advanced(text, at as int, position.character - units) == goal,
        decreases count - at,
    {
        proof {
            lemma_char_bytes(text, at as int);
            lemma_offset_grows(text, at + 1, count as int);
        }
        let wide: bool = chars[at] as u32 >= 0x1_0000;
        at_offset = at_offset + char_bytes(chars[at]);
        units = units + if wide {
            2
        } else {
            1
        };
        at = at + 1;
    }
    (at, at_offset)
}

/// The byte at a position.
pub fn position_to_byte(text: &str, position: Position) -> (byte: usize)
    ensures
        byte == offset_of(text@, index_at(text@, position)),
{
    let len: usize = text.as_bytes().len();
    let chars = chars_of(text);
    assert(encode_utf8(text@).len() == len);
    locate(&chars, position).1
}

/// An edit: what replaces a range of a text, or the whole of it.
#[derive(Debug)]
pub struct TextChange {
    pub range: Option<Range>,
    pub text: String,
}

/// The text after an edit. An edit whose range ends before it begins does nothing.
pub open spec fn changed_text(text: Seq<char>, change: TextChange) -> Seq<char> {
    match change.range {
        Some(range) => {
            let start = index_at(text, range.start);
            let end = index_at(text, range.end);
            if start <= end {
                text.take(start) + change.text@ + text.skip(end)
            } else {
                text
            }
        },
        None => change.text@,
    }
}

/// The byte ranges that edits have touched, after one more. An edit of the whole text replaces
/// what was noted before.
pub open spec fn changed_regions(
    text: Seq<char>,
    change: TextChange,
    regions: Seq<(usize, usize)>,
) -> Seq<(usize, usize)> {
    match change.range {
        Some(range) => {
            let start = index_at(text, range.start);
            if start <= index_at(text, range.end) {
                let from = offset_of(text, start);
                regions.push((from as usize, (from + encode_utf8(change.text@).len()) as usize))
            } else {
                regions
            }
        },
        None => seq![(0usize, encode_utf8(change.text@).len() as usize)],
    }
}

/// Applies an edit and notes the bytes that it touches.
pub fn apply_change(text: &mut String, change: &TextChange, regions: &mut Vec<(usize, usize)>)
    requires
        encode_utf8(old(text)@).len() + encode_utf8(change.text@).len() <= usize::MAX,
    ensures
        final(text)@ == changed_text(old(text)@, *change),
        final(regions)@ == changed_regions(old(text)@, *change, old(regions)@),
{
    let added: usize = change.text.as_str().as_bytes().len();
    match change.range {
        Some(range) => {
            let chars = chars_of(text.as_str());
            let ghost before = chars@;
            let (start, from) = locate(&chars, range.start);
            let (end, _) = locate(&chars, range.end);
            if start > end {
                return;
            }
            proof {
                lemma_offset_grows(before, start as int, before.len() as int);
                assert(before.take(before.len() as int) =~= before);
            }
            let mut edited: Vec<char> = Vec::new();
            let mut i: usize = 0;
            while i < start
                invariant
                    before == chars@,
                    i <= start <= before.len(),
                    edited@ == before.take(i as int),
                decreases start - i,
            {
                edited.push(chars[i]);
                i = i + 1;
                assert(edited@ =~= before.take(i as int));
            }
            let mut inserted = chars_of(change.text.as_str());
            edited.append(&mut inserted);
            let ghost head = before.take(start as int) + change.text@;
            let mut j: usize = end;
            assert(edited@ =~= head + before.subrange(end as int, j as int));
            while j < chars.len()
                invariant
                    before == chars@,
                    end <= j <= before.len(),
                    edited@ == head + before.subrange(end as int, j as int),
                decreases before.len() - j,
            {
                edited.push(chars[j]);
                j = j + 1;
                assert(edited@ =~= head + before.subrange(end as int, j as int));
            }
            assert(before.subrange(end as int, j as int) =~= before.skip(end as int));
            *text = string_of(&edited);
            regions.push((from, from + added));
        },
        None => {
            *text = change.text.clone();
            regions.clear();
            regions.push((0, added));
            assert(regions@ =~= changed_regions(old(text)@, *change, old(regions)@));
        },
    }
}

/// The bytes that an edit is noted to touch are those of the text that it put there.
pub proof fn noted_region_is_the_new_text(text: Seq<char>, change: TextChange, regions: Seq<(usize, usize)>)
    requires
        encode_utf8(text).len() + encode_utf8(change.text@).len() <= usize::MAX,
        change.range matches Some(range) ==> index_at(text, range.start) <= index_at(
            text,
            range.end,
        ),
    ensures
        ({
            let region = changed_regions(text, change, regions).last();
            &&& 0 <= region.0 <= region.1 <= encode_utf8(changed_text(text, change)).len()
            &&& encode_utf8(changed_text(text, change)).subrange(region.0 as int, region.1 as int)
                == encode_utf8(change.text@)
        }),
{
    let added = encode_utf8(change.text@);
    match change.range {
        Some(range) => {
            let start = index_at(text, range.start);
            let end = index_at(text, range.end);
            lemma_line_begin(text, text.len() as int, range.start.line as int);
            lemma_line_begin(text, text.len() as int, range.end.line as int);
            lemma_advanced(
                text,
                line_begin(text, text.len() as int, range.start.line as int),
                range.start.character as int,
            );
            lemma_advanced(
                text,
                line_begin(text, text.len() as int, range.end.line as int),
                range.end.character as int,
            );
            lemma_offset_grows(text, start, text.len() as int);
            assert(text.take(text.len() as int) =~= text);
            let head = text.take(start);
            lemma_encode_add(head, change.text@);
            lemma_encode_add(head + change.text@, text.skip(end));
            let from = offset_of(text, start);
            assert(encode_utf8(changed_text(text, change)).subrange(from, from + added.len())
                =~= added);
        },
        None => {
            assert(added.subrange(0, added.len() as int) =~= added);
        },
    }
}

} // verus!
