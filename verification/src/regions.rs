//! From lines and byte ranges to ranges of tokens.
use vstd::prelude::*;

use crate::model::{Occurrence, SourceFile, Token};

verus! {

/// How many of the first `n` tokens start before an offset.
pub open spec fn starting_before(tokens: Seq<Token>, offset: int, n: int) -> nat
    decreases n,
{
    if n <= 0 {
        0
    } else {
        starting_before(tokens, offset, n - 1) + if tokens[n - 1].start < offset {
            1nat
        } else {
            0nat
        }
    }
}

/// How many of the first `n` tokens end by an offset.
pub open spec fn ending_by(tokens: Seq<Token>, offset: int, n: int) -> nat
    decreases n,
{
    if n <= 0 {
        0
    } else {
        ending_by(tokens, offset, n - 1) + if tokens[n - 1].end <= offset {
            1nat
        } else {
            0nat
        }
    }
}

pub proof fn lemma_starting_before(tokens: Seq<Token>, offset: int, n: int, at: int)
    requires
        0 <= at,
        0 <= n <= tokens.len(),
        forall|i: int| 0 <= i < tokens.len() ==> ((#[trigger] tokens[i]).start < offset <==> i < at),
    ensures
        starting_before(tokens, offset, n) == (if n < at {
            n
        } else {
            at
        }),
    decreases n,
{
    if n > 0 {
        lemma_starting_before(tokens, offset, n - 1, at);
    }
}

pub proof fn lemma_ending_by(tokens: Seq<Token>, offset: int, n: int, at: int)
    requires
        0 <= at,
        0 <= n <= tokens.len(),
        forall|i: int| 0 <= i < tokens.len() ==> ((#[trigger] tokens[i]).end <= offset <==> i < at),
    ensures
        ending_by(tokens, offset, n) == (if n < at {
            n
        } else {
            at
        }),
    decreases n,
{
    if n > 0 {
        lemma_ending_by(tokens, offset, n - 1, at);
    }
}

/// The number of tokens that start before an offset.
fn count_starting_before(tokens: &Vec<Token>, offset: usize, Ghost(limit): Ghost<int>) -> (count:
    usize)
    requires
        crate::tokenize::follow_each_other(tokens@, limit),
    ensures
        count == starting_before(tokens@, offset as int, tokens@.len() as int),
        count <= tokens@.len(),
        forall|i: int|
            0 <= i < tokens@.len() ==> ((#[trigger] tokens@[i]).start < offset <==> i < count),
{
    let mut low: usize = 0;
    let mut high: usize = tokens.len();
    while low < high
        invariant
            crate::tokenize::follow_each_other(tokens@, limit),
            low <= high <= tokens@.len(),
            forall|i: int| 0 <= i < low ==> (#[trigger] tokens@[i]).start < offset,
            forall|i: int| high <= i < tokens@.len() ==> (#[trigger] tokens@[i]).start >= offset,
        decreases high - low,
    {
        let middle: usize = low + (high - low) / 2;
        if (tokens[middle].start as usize) < offset {
            assert forall|i: int| 0 <= i < middle + 1 implies (#[trigger] tokens@[i]).start < offset by {
                if i < middle {
                    assert(tokens@[i].end <= tokens@[middle as int].start);
                    assert(tokens@[i].start < tokens@[i].end);
                }
            }
            low = middle + 1;
        } else {
            assert forall|i: int| middle <= i < tokens@.len() implies (#[trigger] tokens@[i]).start
                >= offset by {
                if i > middle {
                    assert(tokens@[middle as int].end <= tokens@[i].start);
                    assert(tokens@[middle as int].start < tokens@[middle as int].end);
                }
            }
            high = middle;
        }
    }
    proof {
        lemma_starting_before(tokens@, offset as int, tokens@.len() as int, low as int);
    }
    low
}

/// The number of tokens that end by an offset.
fn count_ending_by(tokens: &Vec<Token>, offset: usize, Ghost(limit): Ghost<int>) -> (count: usize)
    requires
        crate::tokenize::follow_each_other(tokens@, limit),
    ensures
        count == ending_by(tokens@, offset as int, tokens@.len() as int),
        count <= tokens@.len(),
{
    let mut low: usize = 0;
    let mut high: usize = tokens.len();
    while low < high
        invariant
            crate::tokenize::follow_each_other(tokens@, limit),
            low <= high <= tokens@.len(),
            forall|i: int| 0 <= i < low ==> (#[trigger] tokens@[i]).end <= offset,
            forall|i: int| high <= i < tokens@.len() ==> (#[trigger] tokens@[i]).end > offset,
        decreases high - low,
    {
        let middle: usize = low + (high - low) / 2;
        if tokens[middle].end as usize <= offset {
            assert forall|i: int| 0 <= i < middle + 1 implies (#[trigger] tokens@[i]).end <= offset by {
                if i < middle {
                    assert(tokens@[i].end <= tokens@[middle as int].start);
                    assert(tokens@[middle as int].start < tokens@[middle as int].end);
                }
            }
            low = middle + 1;
        } else {
            assert forall|i: int| middle <= i < tokens@.len() implies (#[trigger] tokens@[i]).end
                > offset by {
                if i > middle {
                    assert(tokens@[middle as int].end <= tokens@[i].start);
                    assert(tokens@[i].start < tokens@[i].end);
                }
            }
            high = middle;
        }
    }
    proof {
        lemma_ending_by(tokens@, offset as int, tokens@.len() as int, low as int);
    }
    low
}

/// The tokens that start on the lines from `start_line` to `end_line`: where they begin and end.
pub open spec fn lines_range(file: SourceFile, start_line: u32, end_line: u32) -> (int, int) {
    let count = file.tokens@.len() as int;
    let first = starting_before(file.tokens@, file.start_of_line(start_line as int), count) as int;
    if end_line == u32::MAX {
        (first, count)
    } else {
        (first, starting_before(file.tokens@, file.start_of_line(end_line + 1), count) as int)
    }
}

/// The range of the tokens that start on the given lines, if there are any.
pub fn token_span_for_lines(file: &SourceFile, start_line: u32, end_line: u32) -> (span: Option<
    (usize, usize),
>)
    requires
        crate::index::file_ready(*file),
    ensures
        ({
            let (first, end) = lines_range(*file, start_line, end_line);
            match span {
                Some((a, b)) => a == first && b == end && first < end && end <= file.tokens@.len(),
                None => first >= end,
            }
        }),
{
    let ghost limit = file.bytes().len() as int;
    let first: usize = file.line_offset(start_line);
    let start: usize = count_starting_before(&file.tokens, first, Ghost(limit));
    let end: usize = if end_line == u32::MAX {
        file.tokens.len()
    } else {
        count_starting_before(&file.tokens, file.line_offset(end_line + 1), Ghost(limit))
    };
    if start < end {
        Some((start, end))
    } else {
        None
    }
}

proof fn lemma_before_line(file: SourceFile, line: int, i: int)
    requires
        crate::index::file_ready(file),
        line >= 1,
        0 <= i < file.tokens@.len(),
    ensures
        file.tokens@[i].start < file.start_of_line(line) <==> file.first_line(i) < line,
{
    let bytes = file.bytes();
    let n = bytes.len() as int;
    let starts = crate::model::line_starts_of(bytes, n);
    let offset = file.tokens@[i].start as int;
    assert(file.tokens@[i].start < file.tokens@[i].end <= n);
    crate::model::lemma_line_starts(bytes, n);
    crate::model::lemma_line_feeds_monotonic(bytes, offset, n);
    let index = line - 1;
    if index < starts.len() {
        assert(starts[index] <= offset <==> index < 1 + crate::model::line_feeds(bytes, offset));
    }
}

/// A token is in the range of some lines exactly if it starts on one of them.
pub proof fn lines_range_holds_their_tokens(
    file: SourceFile,
    start_line: u32,
    end_line: u32,
    i: int,
)
    requires
        crate::index::file_ready(file),
        1 <= start_line,
        0 <= i < file.tokens@.len(),
    ensures
        ({
            let (first, end) = lines_range(file, start_line, end_line);
            first <= i < end <==> start_line <= file.first_line(i) <= end_line
        }),
{
    let tokens = file.tokens@;
    let count = tokens.len() as int;
    lemma_position(file, start_line as int, i);
    if end_line < u32::MAX {
        lemma_position(file, end_line + 1, i);
    } else {
        crate::model::lemma_line_starts(file.bytes(), file.bytes().len() as int);
        assert(tokens[i].start < tokens[i].end <= file.bytes().len());
        crate::model::lemma_line_feeds_monotonic(
            file.bytes(),
            tokens[i].start as int,
            file.bytes().len() as int - 1,
        );
        crate::model::lemma_line_starts(file.bytes(), file.bytes().len() as int - 1);
    }
}

/// A token is among those that start before a line exactly if its own line is an earlier one.
proof fn lemma_position(file: SourceFile, line: int, i: int)
    requires
        crate::index::file_ready(file),
        line >= 1,
        0 <= i < file.tokens@.len(),
    ensures
        i < starting_before(
            file.tokens@,
            file.start_of_line(line),
            file.tokens@.len() as int,
        ) <==> file.first_line(i) < line,
{
    let tokens = file.tokens@;
    let count = tokens.len() as int;
    let offset = file.start_of_line(line);
    let at = lemma_partition(tokens, offset, count, file.bytes().len() as int);
    lemma_starting_before(tokens, offset, count, at);
    lemma_before_line(file, line, i);
    assert(tokens[i].start < offset <==> i < at);
}

/// Tokens that follow each other split at an offset.
proof fn lemma_partition(tokens: Seq<Token>, offset: int, n: int, limit: int) -> (at: int)
    requires
        crate::tokenize::follow_each_other(tokens, limit),
        0 <= n <= tokens.len(),
    ensures
        0 <= at <= n,
        forall|i: int| 0 <= i < n ==> ((#[trigger] tokens[i]).start < offset <==> i < at),
    decreases n,
{
    if n == 0 {
        0
    } else if tokens[n - 1].start < offset {
        assert forall|i: int| 0 <= i < n implies ((#[trigger] tokens[i]).start < offset <==> i < n) by {
            if i < n - 1 {
                assert(tokens[i].end <= tokens[n - 1].start);
                assert(tokens[i].start < tokens[i].end);
            }
        }
        n
    } else {
        lemma_partition(tokens, offset, n - 1, limit)
    }
}

/// The tokens that a changed byte range touches, with `window` tokens more on either side.
pub open spec fn bytes_range(file: SourceFile, start: int, end: int, window: int) -> (int, int) {
    let count = file.tokens@.len() as int;
    let first = ending_by(file.tokens@, start, count) as int;
    let before = starting_before(file.tokens@, end, count) as int;
    let last = if before < first {
        first
    } else {
        before
    };
    (
        if first > window {
            first - window
        } else {
            0
        },
        if last + window < count {
            last + window
        } else {
            count
        },
    )
}

/// The range of the tokens around a changed byte range.
pub fn token_range_for_bytes(file: &SourceFile, start: usize, end: usize, window: usize) -> (range: (
    usize,
    usize,
))
    requires
        crate::index::file_ready(*file),
    ensures
        range.0 == bytes_range(*file, start as int, end as int, window as int).0,
        range.1 == bytes_range(*file, start as int, end as int, window as int).1,
        range.1 <= file.tokens@.len(),
{
    let ghost limit = file.bytes().len() as int;
    let count: usize = file.tokens.len();
    let first: usize = count_ending_by(&file.tokens, start, Ghost(limit));
    let before: usize = count_starting_before(&file.tokens, end, Ghost(limit));
    let last: usize = if before < first {
        first
    } else {
        before
    };
    let wider: usize = last.saturating_add(window);
    (
        first.saturating_sub(window),
        if wider < count {
            wider
        } else {
            count
        },
    )
}

/// The number of lines that a range of tokens touches.
pub fn region_lines(file: &SourceFile, start: usize, end: usize) -> (lines: usize)
    requires
        file.wf(),
        start < end <= file.tokens@.len(),
    ensures
        lines == file.lines_of(
            Occurrence { file: 0, start: start as u32, end: end as u32 },
        ),
{
    file.line_span(&Occurrence { file: 0, start: start as u32, end: end as u32 })
}

} // verus!
