//! Tokens, source files and clone groups.
use std::sync::Arc;
use vstd::prelude::*;
use vstd::rwlock::{RwLock, RwLockPredicate};
use vstd::utf8::encode_utf8;

use crate::encode::{hash_signatures, token_hashes};
use crate::language::LanguageId;
use crate::spans::compute_span_meta;
use crate::text::LINE_FEED;

verus! {

#[derive(Debug, Clone, Copy, PartialEq, Eq, Structural, Hash)]
pub enum TokenKind {
    Identifier,
    Literal,
    Fixed,
}

impl TokenKind {
    /// The byte that stands for the kind in a token.
    #[verifier::allow_in_spec]
    pub fn as_u8(self) -> u8
        returns
            (match self {
                TokenKind::Identifier => 0u8,
                TokenKind::Literal => 1u8,
                TokenKind::Fixed => 2u8,
            }),
    {
        match self {
            TokenKind::Identifier => 0,
            TokenKind::Literal => 1,
            TokenKind::Fixed => 2,
        }
    }

    /// The kind that a byte stands for.
    #[verifier::allow_in_spec]
    pub fn from_u8(value: u8) -> Option<Self>
        returns
            (if value == 0 {
                Some(TokenKind::Identifier)
            } else if value == 1 {
                Some(TokenKind::Literal)
            } else if value == 2 {
                Some(TokenKind::Fixed)
            } else {
                None
            }),
    {
        match value {
            0 => Some(TokenKind::Identifier),
            1 => Some(TokenKind::Literal),
            2 => Some(TokenKind::Fixed),
            _ => None,
        }
    }
}

/// A token of a source file: its byte range, its kind and the syntactic units it delimits.
#[derive(Debug, Clone, Copy, PartialEq, Eq)]
pub struct Token {
    pub start: u32,
    pub end: u32,
    /// One past the last token of the unit that starts here.
    pub unit_end_of_start: u32,
    /// First token of the unit that ends here.
    pub unit_start_of_end: u32,
    /// One past the last token of the container that starts here.
    pub container_end_of_start: u32,
    pub kind: u8,
    pub flags: u8,
    pub _pad: [u8; 2],
}

pub const FLAG_UNIT_START: u8 = 1;

pub const FLAG_UNIT_END: u8 = 2;

pub const FLAG_CONTAINER_START: u8 = 4;

pub const FLAG_BRACKET_OPEN: u8 = 8;

pub const FLAG_BRACKET_CLOSE: u8 = 16;

impl Token {
    #[verifier::allow_in_spec]
    pub fn unit_start(&self) -> bool
        returns
            self.flags & FLAG_UNIT_START != 0,
    {
        self.flags & FLAG_UNIT_START != 0
    }

    #[verifier::allow_in_spec]
    pub fn unit_end(&self) -> bool
        returns
            self.flags & FLAG_UNIT_END != 0,
    {
        self.flags & FLAG_UNIT_END != 0
    }

    #[verifier::allow_in_spec]
    pub fn container_start(&self) -> bool
        returns
            self.flags & FLAG_CONTAINER_START != 0,
    {
        self.flags & FLAG_CONTAINER_START != 0
    }

    #[verifier::allow_in_spec]
    pub fn bracket_open(&self) -> bool
        returns
            self.flags & FLAG_BRACKET_OPEN != 0,
    {
        self.flags & FLAG_BRACKET_OPEN != 0
    }

    #[verifier::allow_in_spec]
    pub fn bracket_close(&self) -> bool
        returns
            self.flags & FLAG_BRACKET_CLOSE != 0,
    {
        self.flags & FLAG_BRACKET_CLOSE != 0
    }

    /// Marks the token as the first of a unit.
    pub fn set_unit_start(&mut self)
        ensures
            *final(self) == (Token { flags: old(self).flags | FLAG_UNIT_START, ..*old(self) }),
            final(self).unit_start(),
            final(self).unit_end() == old(self).unit_end(),
            final(self).container_start() == old(self).container_start(),
            final(self).bracket_open() == old(self).bracket_open(),
            final(self).bracket_close() == old(self).bracket_close(),
    {
        let flags: u8 = self.flags;
        assert((flags | 1) & 1 != 0 && (flags | 1) & 2 == flags & 2 && (flags | 1) & 4 == flags & 4
            && (flags | 1) & 8 == flags & 8 && (flags | 1) & 16 == flags & 16) by (bit_vector);
        self.flags = flags | FLAG_UNIT_START;
    }

    /// Marks the token as the last of a unit.
    pub fn set_unit_end(&mut self)
        ensures
            *final(self) == (Token { flags: old(self).flags | FLAG_UNIT_END, ..*old(self) }),
            final(self).unit_end(),
            final(self).unit_start() == old(self).unit_start(),
            final(self).container_start() == old(self).container_start(),
            final(self).bracket_open() == old(self).bracket_open(),
            final(self).bracket_close() == old(self).bracket_close(),
    {
        let flags: u8 = self.flags;
        assert((flags | 2) & 2 != 0 && (flags | 2) & 1 == flags & 1 && (flags | 2) & 4 == flags & 4
            && (flags | 2) & 8 == flags & 8 && (flags | 2) & 16 == flags & 16) by (bit_vector);
        self.flags = flags | FLAG_UNIT_END;
    }

    /// Marks the token as the first of a container.
    pub fn set_container_start(&mut self)
        ensures
            *final(self) == (Token { flags: old(self).flags | FLAG_CONTAINER_START, ..*old(self) }),
            final(self).container_start(),
            final(self).unit_start() == old(self).unit_start(),
            final(self).unit_end() == old(self).unit_end(),
            final(self).bracket_open() == old(self).bracket_open(),
            final(self).bracket_close() == old(self).bracket_close(),
    {
        let flags: u8 = self.flags;
        assert((flags | 4) & 4 != 0 && (flags | 4) & 1 == flags & 1 && (flags | 4) & 2 == flags & 2
            && (flags | 4) & 8 == flags & 8 && (flags | 4) & 16 == flags & 16) by (bit_vector);
        self.flags = flags | FLAG_CONTAINER_START;
    }
}

/// A half-open range of tokens of one file.
#[derive(Debug, Clone, Copy, PartialEq, Eq, Structural, Hash, PartialOrd, Ord)]
pub struct Occurrence {
    pub file: u32,
    pub start: u32,
    pub end: u32,
}

#[derive(Debug, Clone, Copy, PartialEq, Eq, Structural)]
pub enum CloneType {
    /// The occurrences have the same token texts.
    Type1,
    /// The occurrences differ in names, or in literals where those are parameterized.
    Type2,
}

/// A set of occurrences that are clones of each other.
#[derive(Debug, Clone)]
pub struct CloneGroup {
    pub occurrences: Vec<Occurrence>,
    pub token_count: usize,
    pub clone_type: CloneType,
}

/// A file modification time as seconds and nanoseconds since the Unix epoch.
#[derive(Debug, Clone, Copy, PartialEq, Eq, Structural)]
pub struct FileTime {
    pub seconds: i64,
    pub nanos: u32,
}

/// The signatures of a file's windows for one window size.
pub struct SeedCache {
    pub window: usize,
    pub parameterize_literals: bool,
    pub signatures: Vec<u64>,
}

/// What a seed cache may hold: the signatures of `hashes`.
pub struct SeedInv {
    pub hashes: Seq<u64>,
}

impl RwLockPredicate<Option<SeedCache>> for SeedInv {
    open spec fn inv(self, v: Option<SeedCache>) -> bool {
        v matches Some(cached) ==> cached.signatures@ == crate::encode::signatures_of(
            self.hashes,
            cached.window as int,
            cached.parameterize_literals,
        )
    }
}

/// Bracket structure of a token sequence.
pub struct SpanMeta {
    /// The partner of every matched bracket, `u32::MAX` elsewhere.
    pub pairs: Vec<u32>,
    /// Open brackets minus closed brackets before each position.
    pub balance: Vec<i64>,
    /// The next position with a lower balance, or `u32::MAX`.
    pub next_lower: Vec<u32>,
}

/// What a span cache may hold: the bracket structure of `tokens`.
pub struct MetaInv {
    pub tokens: Seq<Token>,
}

impl RwLockPredicate<Option<Arc<SpanMeta>>> for MetaInv {
    open spec fn inv(self, v: Option<Arc<SpanMeta>>) -> bool {
        v matches Some(meta) ==> crate::spans::is_span_meta(self.tokens, *meta)
    }
}

/// A tokenized file.
pub struct SourceFile {
    pub path: String,
    pub language: LanguageId,
    pub text: String,
    pub tokens: Vec<Token>,
    pub hashes: Vec<u64>,
    pub line_starts: Vec<u32>,
    pub seeds: RwLock<Option<SeedCache>, SeedInv>,
    pub span_meta: RwLock<Option<Arc<SpanMeta>>, MetaInv>,
    pub modified: Option<FileTime>,
    pub size: u64,
}

/// Every token lies within a text of `len` bytes, and its offset is below the largest `u32`.
pub open spec fn tokens_fit(tokens: Seq<Token>, len: nat) -> bool {
    forall|i: int|
        0 <= i < tokens.len() ==> crate::encode::token_within(#[trigger] tokens[i], len)
            && tokens[i].start < u32::MAX
}

/// Number of line feeds among the first `n` bytes.
pub open spec fn line_feeds(bytes: Seq<u8>, n: int) -> nat
    decreases n,
{
    if n <= 0 {
        0
    } else {
        line_feeds(bytes, n - 1) + if bytes[n - 1] == LINE_FEED {
            1nat
        } else {
            0nat
        }
    }
}

/// The offsets at which the lines of the first `n` bytes begin.
pub open spec fn line_starts_of(bytes: Seq<u8>, n: int) -> Seq<u32>
    decreases n,
{
    if n <= 0 {
        seq![0u32]
    } else if bytes[n - 1] == LINE_FEED {
        line_starts_of(bytes, n - 1).push(n as u32)
    } else {
        line_starts_of(bytes, n - 1)
    }
}

/// The number, from 1, of the line that holds the byte at `offset`.
pub open spec fn line_of(bytes: Seq<u8>, offset: int) -> int {
    let clipped = if offset < bytes.len() {
        offset
    } else {
        bytes.len() as int
    };
    1 + line_feeds(bytes, clipped) as int
}

pub proof fn lemma_line_starts(bytes: Seq<u8>, n: int)
    requires
        0 <= n <= bytes.len() <= u32::MAX,
    ensures
        line_starts_of(bytes, n).len() == 1 + line_feeds(bytes, n),
        line_feeds(bytes, n) <= n,
        forall|i: int|
            0 <= i < line_starts_of(bytes, n).len() ==> (#[trigger] line_starts_of(bytes, n)[i])
                <= n,
        forall|i: int, o: int|
            0 <= i < line_starts_of(bytes, n).len() && 0 <= o <= n ==> ((
            #[trigger] line_starts_of(bytes, n)[i]) <= o <==> i < 1 + #[trigger] line_feeds(
                bytes,
                o,
            )),
    decreases n,
{
    if n > 0 {
        lemma_line_starts(bytes, n - 1);
        let starts = line_starts_of(bytes, n);
        let shorter = line_starts_of(bytes, n - 1);
        assert forall|i: int, o: int| 0 <= i < starts.len() && 0 <= o <= n implies ((
        #[trigger] starts[i]) <= o <==> i < 1 + #[trigger] line_feeds(bytes, o)) by {
            if i < shorter.len() {
                assert(shorter[i] == starts[i]);
                if o == n {
                    assert(shorter[i] <= n - 1);
                    assert(i < 1 + line_feeds(bytes, n - 1));
                }
            } else {
                if o < n {
                    assert(shorter[0] <= o <==> 0 < 1 + line_feeds(bytes, o));
                    lemma_line_feeds_monotonic(bytes, o, n - 1);
                }
            }
        }
    } else {
        assert(line_starts_of(bytes, n).len() == 1);
    }
}

pub proof fn lemma_line_feeds_monotonic(bytes: Seq<u8>, a: int, b: int)
    requires
        a <= b,
    ensures
        line_feeds(bytes, a) <= line_feeds(bytes, b),
    decreases b - a,
{
    if a < b {
        lemma_line_feeds_monotonic(bytes, a, b - 1);
    }
}

/// The offsets at which the lines of `text` begin.
fn line_starts(text: &str) -> (starts: Vec<u32>)
    requires
        encode_utf8(text@).len() <= u32::MAX,
    ensures
        starts@ == line_starts_of(encode_utf8(text@), encode_utf8(text@).len() as int),
{
    let bytes = text.as_bytes();
    let mut starts: Vec<u32> = Vec::new();
    starts.push(0);
    let mut index: usize = 0;
    assert(starts@ =~= line_starts_of(bytes@, 0));
    while index < bytes.len()
        invariant
            bytes@.len() <= u32::MAX,
            index <= bytes@.len(),
            starts@ == line_starts_of(bytes@, index as int),
        decreases bytes@.len() - index,
    {
        if bytes[index] == LINE_FEED {
            starts.push((index + 1) as u32);
        }
        index = index + 1;
    }
    starts
}

impl SourceFile {
    /// The text as bytes.
    pub open spec fn bytes(&self) -> Seq<u8> {
        encode_utf8(self.text@)
    }

    /// Offsets fit in 32 bits, every token is hashed and lies within the text, and the derived
    /// tables belong to the text and the tokens.
    pub open spec fn wf(&self) -> bool {
        &&& self.bytes().len() <= u32::MAX
        &&& self.tokens@.len() < u32::MAX
        &&& 8 * self.tokens@.len() <= usize::MAX
        &&& self.hashes@.len() == self.tokens@.len()
        &&& tokens_fit(self.tokens@, self.bytes().len())
        &&& self.line_starts@ == line_starts_of(self.bytes(), self.bytes().len() as int)
        &&& self.seeds.pred().hashes == self.hashes@
        &&& self.span_meta.pred().tokens == self.tokens@
    }

    /// A file whose tokens are hashed here.
    pub fn new(
        path: String,
        language: LanguageId,
        text: String,
        tokens: Vec<Token>,
        modified: Option<FileTime>,
        size: u64,
    ) -> (file: Self)
        requires
            encode_utf8(text@).len() <= u32::MAX,
            tokens@.len() < u32::MAX,
            8 * tokens@.len() <= usize::MAX,
            tokens_fit(tokens@, encode_utf8(text@).len()),
        ensures
            file.wf(),
            file.path == path,
            file.language == language,
            file.text == text,
            file.tokens == tokens,
            file.hashes@ == crate::encode::hashes_of(encode_utf8(text@), tokens@),
            file.modified == modified,
            file.size == size,
    {
        let hashes = token_hashes(text.as_str(), tokens.as_slice());
        Self::with_hashes(path, language, text, tokens, hashes, modified, size)
    }

    /// A file whose token hashes are known.
    pub fn with_hashes(
        path: String,
        language: LanguageId,
        text: String,
        tokens: Vec<Token>,
        hashes: Vec<u64>,
        modified: Option<FileTime>,
        size: u64,
    ) -> (file: Self)
        requires
            encode_utf8(text@).len() <= u32::MAX,
            tokens@.len() < u32::MAX,
            8 * tokens@.len() <= usize::MAX,
            hashes@.len() == tokens@.len(),
            tokens_fit(tokens@, encode_utf8(text@).len()),
        ensures
            file.wf(),
            file.path == path,
            file.language == language,
            file.text == text,
            file.tokens == tokens,
            file.hashes == hashes,
            file.modified == modified,
            file.size == size,
    {
        let line_starts = line_starts(text.as_str());
        let ghost seed_inv = SeedInv { hashes: hashes@ };
        let ghost meta_inv = MetaInv { tokens: tokens@ };
        SourceFile {
            path,
            language,
            text,
            tokens,
            hashes,
            line_starts,
            seeds: RwLock::new(None, Ghost(seed_inv)),
            span_meta: RwLock::new(None, Ghost(meta_inv)),
            modified,
            size,
        }
    }

    /// The number, from 1, of the line that holds the byte at `offset`.
    pub fn line_at(&self, offset: u32) -> (line: u32)
        requires
            self.wf(),
            offset < u32::MAX || self.bytes().len() < u32::MAX,
        ensures
            line == line_of(self.bytes(), offset as int),
    {
        let ghost bytes = self.bytes();
        let ghost clipped = if offset < bytes.len() {
            offset as int
        } else {
            bytes.len() as int
        };
        proof {
            lemma_line_starts(bytes, bytes.len() as int);
            lemma_line_starts(bytes, clipped);
            lemma_line_feeds_monotonic(bytes, clipped, bytes.len() as int);
        }
        let mut low: usize = 0;
        let mut high: usize = self.line_starts.len();
        while low < high
            invariant
                self.wf(),
                bytes == self.bytes(),
                clipped == (if offset < bytes.len() {
                    offset as int
                } else {
                    bytes.len() as int
                }),
                low <= high <= self.line_starts@.len(),
                forall|i: int|
                    0 <= i < self.line_starts@.len() ==> ((#[trigger] self.line_starts@[i])
                        <= clipped <==> i < 1 + line_feeds(bytes, clipped)),
                forall|i: int|
                    0 <= i < self.line_starts@.len() ==> (#[trigger] self.line_starts@[i])
                        <= bytes.len(),
                low <= 1 + line_feeds(bytes, clipped) <= high,
            decreases high - low,
        {
            let middle: usize = low + (high - low) / 2;
            if self.line_starts[middle] <= offset {
                low = middle + 1;
            } else {
                high = middle;
            }
        }
        low as u32
    }

    /// The line on which a token begins.
    pub open spec fn first_line(&self, index: int) -> int {
        line_of(self.bytes(), self.tokens@[index].start as int)
    }

    /// The line on which a token ends.
    pub open spec fn last_line(&self, index: int) -> int {
        let end = self.tokens@[index].end as int;
        line_of(self.bytes(), if end > 0 { end - 1 } else { 0 })
    }

    /// The line on which a token begins.
    pub fn token_line(&self, index: usize) -> (line: u32)
        requires
            self.wf(),
            index < self.tokens@.len(),
        ensures
            line == self.first_line(index as int),
    {
        self.line_at(self.tokens[index].start)
    }

    /// The line on which a token ends.
    pub fn token_end_line(&self, index: usize) -> (line: u32)
        requires
            self.wf(),
            index < self.tokens@.len(),
        ensures
            line == self.last_line(index as int),
    {
        self.line_at(self.tokens[index].end.saturating_sub(1))
    }

    /// The offset at which a line, counted from 1, begins; the end of the text for a line beyond
    /// the last.
    pub fn line_offset(&self, line: u32) -> (offset: usize)
        requires
            self.wf(),
        ensures
            offset == self.start_of_line(line as int),
    {
        let index: usize = line.saturating_sub(1) as usize;
        if index < self.line_starts.len() {
            self.line_starts[index] as usize
        } else {
            self.text.as_str().as_bytes().len()
        }
    }

    /// The offset at which a line, counted from 1, begins; line 0 counts as line 1.
    pub open spec fn start_of_line(&self, line: int) -> int {
        let starts = line_starts_of(self.bytes(), self.bytes().len() as int);
        let index = if line > 0 {
            line - 1
        } else {
            0
        };
        if index < starts.len() {
            starts[index] as int
        } else {
            self.bytes().len() as int
        }
    }

    /// The occurrence is a non-empty range of this file's tokens.
    pub open spec fn holds(&self, occurrence: Occurrence) -> bool {
        occurrence.start < occurrence.end <= self.tokens@.len()
    }

    /// The number of lines that an occurrence touches.
    pub open spec fn lines_of(&self, occurrence: Occurrence) -> int {
        let first = self.first_line(occurrence.start as int);
        let last = self.last_line(occurrence.end - 1);
        if last >= first {
            last - first + 1
        } else {
            1
        }
    }

    /// The number of lines that an occurrence touches.
    pub fn line_span(&self, occurrence: &Occurrence) -> (lines: usize)
        requires
            self.wf(),
            self.holds(*occurrence),
        ensures
            lines == self.lines_of(*occurrence),
    {
        let first: usize = self.token_line(occurrence.start as usize) as usize;
        let last: usize = self.token_end_line(occurrence.end as usize - 1) as usize;
        proof {
            lemma_line_starts(self.bytes(), self.bytes().len() as int);
        }
        last.saturating_sub(first) + 1
    }

    /// Hands the window signatures of the file to `f`, from the cache where it holds them.
    pub fn for_each_window_signature<R, F: FnOnce(&[u64]) -> R>(
        &self,
        window: usize,
        parameterize_literals: bool,
        cache: bool,
        f: F,
    ) -> (result: R)
        requires
            self.wf(),
            forall|s: &[u64]|
                s@ == crate::encode::signatures_of(
                    self.hashes@,
                    window as int,
                    parameterize_literals,
                ) ==> #[trigger] call_requires(f, (s,)),
        ensures
            exists|s: &[u64]|
                s@ == crate::encode::signatures_of(
                    self.hashes@,
                    window as int,
                    parameterize_literals,
                ) && #[trigger] call_ensures(f, (s,), result),
    {
        if window == 0 {
            let none: Vec<u64> = Vec::new();
            return f(none.as_slice());
        }
        if cache {
            let handle = self.seeds.acquire_read();
            match handle.borrow() {
                Some(cached) => {
                    if cached.window == window && cached.parameterize_literals
                        == parameterize_literals {
                        let result = f(cached.signatures.as_slice());
                        handle.release_read();
                        return result;
                    }
                },
                None => {},
            }
            handle.release_read();
        }
        let signatures = hash_signatures(self.hashes.as_slice(), window, parameterize_literals);
        let result = f(signatures.as_slice());
        if cache {
            let (_previous, handle) = self.seeds.acquire_write();
            handle.release_write(Some(SeedCache { window, parameterize_literals, signatures }));
        }
        result
    }

    /// The bracket structure of the tokens, computed once.
    pub fn cached_span_meta(&self) -> (meta: Arc<SpanMeta>)
        requires
            self.wf(),
        ensures
            crate::spans::is_span_meta(self.tokens@, *meta),
    {
        let handle = self.span_meta.acquire_read();
        match handle.borrow() {
            Some(meta) => {
                let meta = meta.clone();
                handle.release_read();
                return meta;
            },
            None => {},
        }
        handle.release_read();
        let meta = Arc::new(compute_span_meta(&self.tokens));
        let (_previous, handle) = self.span_meta.acquire_write();
        handle.release_write(Some(meta.clone()));
        meta
    }
}

} // verus!
