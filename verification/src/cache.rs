//! The format of cached token streams, and where they are kept.
use vstd::prelude::*;
use vstd::slice::slice_subrange;
use vstd::utf8::encode_utf8;

use crate::bytes::{push_u32, push_u64, read_u32, read_u64};
use crate::config::CacheLocation;
use crate::encode::xxh3_64;
use crate::model::{FileTime, SourceFile, Token, TokenKind};
use crate::paths::{join, strip_prefix};
use crate::text::{chars_of, decode_text, string_of};

verus! {

/// The directory that holds the cache of a project, at its root.
pub const CACHE_DIR: &'static str = ".dup-detector";

/// Length of an entry up to its path.
pub const HEADER_BYTES: usize = 44;

/// Length of a token in an entry.
pub const TOKEN_BYTES: usize = 24;

/// What a cache entry says of a file.
pub struct CacheEntry {
    /// Path relative to the root.
    pub path: String,
    pub modified: FileTime,
    pub size: u64,
    pub text_hash: u64,
    pub tokens: Vec<Token>,
    pub hashes: Vec<u64>,
}

/// What an entry says, as values.
pub struct EntryContent {
    pub path: Seq<char>,
    pub modified: FileTime,
    pub size: u64,
    pub text_hash: u64,
    pub tokens: Seq<Token>,
    pub hashes: Seq<u64>,
}

impl CacheEntry {
    /// What the entry says.
    pub open spec fn content(&self) -> EntryContent {
        EntryContent {
            path: self.path@,
            modified: self.modified,
            size: self.size,
            text_hash: self.text_hash,
            tokens: self.tokens@,
            hashes: self.hashes@,
        }
    }
}

/// The bytes that every entry begins with.
pub open spec fn magic() -> Seq<u8> {
    seq![68u8, 85u8, 80u8, 67u8, 68u8, 84u8, 49u8, 48u8]
}

/// The next multiple of eight.
pub open spec fn aligned(value: int) -> int {
    (value + 7) / 8 * 8
}

/// The hashes one after the other.
pub open spec fn hash_bytes(hashes: Seq<u64>, n: int) -> Seq<u8>
    decreases n,
{
    if n <= 0 {
        Seq::empty()
    } else {
        hash_bytes(hashes, n - 1) + crate::bytes::le_u64(hashes[n - 1])
    }
}

/// A token as bytes.
pub open spec fn token_bytes(token: Token) -> Seq<u8> {
    crate::bytes::le_u32(token.start) + crate::bytes::le_u32(token.end) + crate::bytes::le_u32(
        token.unit_end_of_start,
    ) + crate::bytes::le_u32(token.unit_start_of_end) + crate::bytes::le_u32(
        token.container_end_of_start,
    ) + seq![token.kind, token.flags, token._pad@[0], token._pad@[1]]
}

/// The tokens one after the other.
pub open spec fn all_token_bytes(tokens: Seq<Token>, n: int) -> Seq<u8>
    decreases n,
{
    if n <= 0 {
        Seq::empty()
    } else {
        all_token_bytes(tokens, n - 1) + token_bytes(tokens[n - 1])
    }
}

/// An entry up to its path.
pub open spec fn header_bytes(content: EntryContent) -> Seq<u8> {
    magic() + crate::bytes::le_u32(encode_utf8(content.path).len() as u32) + crate::bytes::le_u32(
        content.tokens.len() as u32,
    ) + crate::bytes::le_u64(content.modified.seconds as u64) + crate::bytes::le_u32(
        content.modified.nanos,
    ) + crate::bytes::le_u64(content.size) + crate::bytes::le_u64(content.text_hash)
}

/// Zeros from a length up to the next multiple of eight.
pub open spec fn padding(len: int) -> Seq<u8> {
    Seq::new((aligned(len) - len) as nat, |i: int| 0u8)
}

/// An entry as bytes.
pub open spec fn encoded(content: EntryContent) -> Seq<u8> {
    let path = encode_utf8(content.path);
    header_bytes(content) + path + padding(44 + path.len() as int) + hash_bytes(
        content.hashes,
        content.hashes.len() as int,
    ) + all_token_bytes(content.tokens, content.tokens.len() as int)
}

/// The token that 24 bytes stand for; none where they name no token kind.
pub open spec fn token_at(bytes: Seq<u8>, at: int) -> Option<Token> {
    match TokenKind::from_u8(bytes[at + 20]) {
        Some(kind) => Some(
            Token {
                start: crate::bytes::u32_at(bytes, at),
                end: crate::bytes::u32_at(bytes, at + 4),
                unit_end_of_start: crate::bytes::u32_at(bytes, at + 8),
                unit_start_of_end: crate::bytes::u32_at(bytes, at + 12),
                container_end_of_start: crate::bytes::u32_at(bytes, at + 16),
                kind: kind.as_u8(),
                flags: bytes[at + 21],
                _pad: [0u8, 0u8],
            },
        ),
        None => None,
    }
}

/// The token at the head of some bytes. Its spare bytes need not be there: the first 22 decide.
pub open spec fn token_of(raw: Seq<u8>) -> Option<Token> {
    if raw.len() < 22 {
        None
    } else {
        token_at(raw, 0)
    }
}

/// The `n` tokens from `at` on, if all of them are tokens.
pub open spec fn tokens_at(bytes: Seq<u8>, at: int, n: int) -> Option<Seq<Token>>
    decreases n,
{
    if n <= 0 {
        Some(Seq::empty())
    } else {
        match (tokens_at(bytes, at, n - 1), token_at(bytes, at + 24 * (n - 1))) {
            (Some(tokens), Some(token)) => Some(tokens.push(token)),
            _ => None,
        }
    }
}

/// The `n` hashes from `at` on.
pub open spec fn hashes_at(bytes: Seq<u8>, at: int, n: int) -> Seq<u64> {
    Seq::new(n as nat, |i: int| crate::bytes::u64_at(bytes, at + 8 * i))
}

/// What the bytes of an entry say; nothing where they are not an entry.
pub open spec fn decoded(bytes: Seq<u8>) -> Option<EntryContent> {
    let path_end = 44 + crate::bytes::u32_at(bytes, 8);
    let count = crate::bytes::u32_at(bytes, 12) as int;
    let seconds = crate::bytes::u64_at(bytes, 16);
    let nanos = crate::bytes::u32_at(bytes, 24);
    let hashes_start = aligned(path_end);
    let tokens_start = hashes_start + 8 * count;
    let path = bytes.subrange(44, path_end);
    if bytes.len() < 44 || bytes.take(8) != magic() {
        None
    } else if nanos >= 1_000_000_000 || seconds > i64::MAX {
        None
    } else if tokens_start + 24 * count > bytes.len() || !vstd::utf8::valid_utf8(path) {
        None
    } else {
        match tokens_at(bytes, tokens_start, count) {
            Some(tokens) => Some(
                EntryContent {
                    path: vstd::utf8::decode_utf8(path),
                    modified: FileTime { seconds: seconds as i64, nanos },
                    size: crate::bytes::u64_at(bytes, 28),
                    text_hash: crate::bytes::u64_at(bytes, 36),
                    tokens,
                    hashes: hashes_at(bytes, hashes_start, count),
                },
            ),
            None => None,
        }
    }
}

/// What an entry for the file says; nothing where the file has no modification time from 1970 on,
/// or does not lie under the root.
pub open spec fn entry_for(root: Seq<char>, file: SourceFile) -> Option<EntryContent> {
    match (file.modified, crate::paths::relative_to(file.path@, root)) {
        (Some(modified), Some(path)) => if modified.seconds >= 0 && encode_utf8(path).len()
            <= u32::MAX {
            Some(
                EntryContent {
                    path,
                    modified,
                    size: file.size,
                    text_hash: crate::encode::xxh3(file.bytes()),
                    tokens: file.tokens@,
                    hashes: file.hashes@,
                },
            )
        } else {
            None
        },
        _ => None,
    }
}

fn push_bytes(out: &mut Vec<u8>, bytes: &[u8])
    ensures
        final(out)@ == old(out)@ + bytes@,
{
    let ghost before = out@;
    let mut i: usize = 0;
    while i < bytes.len()
        invariant
            i <= bytes@.len(),
            out@ == before + bytes@.take(i as int),
        decreases bytes@.len() - i,
    {
        out.push(bytes[i]);
        i = i + 1;
        assert(out@ =~= before + bytes@.take(i as int));
    }
    assert(bytes@.take(bytes@.len() as int) =~= bytes@);
}

fn push_magic(out: &mut Vec<u8>)
    ensures
        final(out)@ == old(out)@ + magic(),
{
    out.push(68);
    out.push(85);
    out.push(80);
    out.push(67);
    out.push(68);
    out.push(84);
    out.push(49);
    out.push(48);
    assert(out@ =~= old(out)@ + magic());
}

fn push_token(out: &mut Vec<u8>, token: &Token)
    ensures
        final(out)@ == old(out)@ + token_bytes(*token),
{
    push_u32(out, token.start);
    push_u32(out, token.end);
    push_u32(out, token.unit_end_of_start);
    push_u32(out, token.unit_start_of_end);
    push_u32(out, token.container_end_of_start);
    out.push(token.kind);
    out.push(token.flags);
    out.push(token._pad[0]);
    out.push(token._pad[1]);
    assert(out@ =~= old(out)@ + token_bytes(*token));
}

/// Appends the bytes of tokens.
pub fn append_tokens(out: &mut Vec<u8>, tokens: &[Token])
    ensures
        final(out)@ == old(out)@ + all_token_bytes(tokens@, tokens@.len() as int),
{
    let ghost before = out@;
    let mut n: usize = 0;
    assert(out@ =~= before + all_token_bytes(tokens@, 0));
    while n < tokens.len()
        invariant
            n <= tokens@.len(),
            out@ == before + all_token_bytes(tokens@, n as int),
        decreases tokens@.len() - n,
    {
        push_token(out, &tokens[n]);
        n = n + 1;
        assert(out@ =~= before + all_token_bytes(tokens@, n as int));
    }
}

fn append_hashes(out: &mut Vec<u8>, hashes: &Vec<u64>)
    ensures
        final(out)@ == old(out)@ + hash_bytes(hashes@, hashes@.len() as int),
{
    let ghost before = out@;
    let mut n: usize = 0;
    assert(out@ =~= before + hash_bytes(hashes@, 0));
    while n < hashes.len()
        invariant
            n <= hashes@.len(),
            out@ == before + hash_bytes(hashes@, n as int),
        decreases hashes@.len() - n,
    {
        push_u64(out, hashes[n]);
        n = n + 1;
        assert(out@ =~= before + hash_bytes(hashes@, n as int));
    }
}

/// Zeros up to a length that is a multiple of eight.
fn pad(out: &mut Vec<u8>)
    ensures
        final(out)@ == old(out)@ + padding(old(out)@.len() as int),
{
    let ghost before = out@;
    let ghost wanted = padding(before.len() as int);
    while out.len() % 8 != 0
        invariant
            wanted == padding(before.len() as int),
            before.len() <= out@.len() <= aligned(before.len() as int),
            out@ == before + wanted.take(out@.len() - before.len()),
        decreases aligned(before.len() as int) - out@.len(),
    {
        out.push(0);
        assert(out@ =~= before + wanted.take(out@.len() - before.len()));
    }
    assert(wanted.take(out@.len() - before.len()) =~= wanted);
}

/// The cache entry of a file.
pub fn encode_entry(root: &str, file: &SourceFile) -> (bytes: Option<Vec<u8>>)
    requires
        file.wf(),
    ensures
        match bytes {
            Some(bytes) => entry_for(root@, *file) is Some && bytes@ == encoded(
                entry_for(root@, *file)->0,
            ),
            None => entry_for(root@, *file) is None,
        },
{
    let modified = match file.modified {
        Some(modified) => modified,
        None => {
            return None;
        },
    };
    let path = match strip_prefix(file.path.as_str(), root) {
        Some(path) => path,
        None => {
            return None;
        },
    };
    if modified.seconds < 0 {
        return None;
    }
    let path_bytes = path.as_str().as_bytes();
    if path_bytes.len() as u64 > 0xffff_ffff {
        return None;
    }
    let ghost content = entry_for(root@, *file)->0;
    let mut out: Vec<u8> = Vec::new();
    push_magic(&mut out);
    push_u32(&mut out, path_bytes.len() as u32);
    push_u32(&mut out, file.tokens.len() as u32);
    push_u64(&mut out, modified.seconds as u64);
    push_u32(&mut out, modified.nanos);
    push_u64(&mut out, file.size);
    push_u64(&mut out, text_hash(file.text.as_str()));
    assert(out@ =~= header_bytes(content));
    push_bytes(&mut out, path_bytes);
    pad(&mut out);
    append_hashes(&mut out, &file.hashes);
    append_tokens(&mut out, file.tokens.as_slice());
    Some(out)
}

/// The hash of a text by which a cache entry is recognised.
pub fn text_hash(text: &str) -> (hash: u64)
    ensures
        hash == crate::encode::xxh3(encode_utf8(text@)),
{
    text_hash_bytes(text.as_bytes())
}

/// The hash of a text given as bytes.
pub fn text_hash_bytes(bytes: &[u8]) -> (hash: u64)
    ensures
        hash == crate::encode::xxh3(bytes@),
{
    xxh3_64(bytes)
}

fn has_magic(bytes: &[u8]) -> (has: bool)
    requires
        bytes@.len() >= 8,
    ensures
        has == (bytes@.take(8) == magic()),
{
    let ghost head = bytes@.take(8);
    let has: bool = bytes[0] == 68 && bytes[1] == 85 && bytes[2] == 80 && bytes[3] == 67 && bytes[4]
        == 68 && bytes[5] == 84 && bytes[6] == 49 && bytes[7] == 48;
    proof {
        if has {
            assert(head =~= magic());
        } else {
            assert(head[0] == bytes@[0] && head[1] == bytes@[1] && head[2] == bytes@[2] && head[3]
                == bytes@[3] && head[4] == bytes@[4] && head[5] == bytes@[5] && head[6]
                == bytes@[6] && head[7] == bytes@[7]);
        }
    }
    has
}

/// Reads the token at the head of some bytes.
pub fn decode_token(raw: &[u8]) -> (token: Option<Token>)
    ensures
        token == token_of(raw@),
{
    if raw.len() < 22 {
        return None;
    }
    match TokenKind::from_u8(raw[20]) {
        Some(kind) => {
            let token = Token {
                start: read_u32(raw, 0),
                end: read_u32(raw, 4),
                unit_end_of_start: read_u32(raw, 8),
                unit_start_of_end: read_u32(raw, 12),
                container_end_of_start: read_u32(raw, 16),
                kind: kind.as_u8(),
                flags: raw[21],
                _pad: [0u8, 0u8],
            };
            assert(token._pad@ =~= (token_of(raw@)->0)._pad@);
            Some(token)
        },
        None => None,
    }
}

/// A token reads the same from the part of the bytes that holds it.
proof fn lemma_token_in_part(bytes: Seq<u8>, at: int)
    requires
        0 <= at,
        at + 24 <= bytes.len(),
    ensures
        token_of(bytes.subrange(at, at + 24)) == token_at(bytes, at),
{
    let part = bytes.subrange(at, at + 24);
    assert forall|i: int| 0 <= i < 24 implies #[trigger] part[i] == bytes[at + i] by {}
    assert(crate::bytes::u32_at(part, 0) == crate::bytes::u32_at(bytes, at));
    assert(crate::bytes::u32_at(part, 4) == crate::bytes::u32_at(bytes, at + 4));
    assert(crate::bytes::u32_at(part, 8) == crate::bytes::u32_at(bytes, at + 8));
    assert(crate::bytes::u32_at(part, 12) == crate::bytes::u32_at(bytes, at + 12));
    assert(crate::bytes::u32_at(part, 16) == crate::bytes::u32_at(bytes, at + 16));
    assert(part[20] == bytes[at + 20] && part[21] == bytes[at + 21]);
}

fn decode_tokens(bytes: &[u8], at: usize, count: usize) -> (tokens: Option<Vec<Token>>)
    requires
        at + 24 * count <= bytes@.len(),
    ensures
        match tokens {
            Some(tokens) => tokens_at(bytes@, at as int, count as int) == Some(tokens@),
            None => tokens_at(bytes@, at as int, count as int) is None,
        },
{
    let size: usize = bytes.len();
    let mut tokens: Vec<Token> = Vec::new();
    let mut n: usize = 0;
    while n < count
        invariant
            size == bytes@.len(),
            at + 24 * count <= size,
            n <= count,
            tokens_at(bytes@, at as int, n as int) == Some(tokens@),
        decreases count - n,
    {
        let position: usize = at + 24 * n;
        proof {
            lemma_token_in_part(bytes@, position as int);
        }
        match decode_token(slice_subrange(bytes, position, position + 24)) {
            Some(token) => {
                tokens.push(token);
            },
            None => {
                proof {
                    lemma_bad_token(bytes@, at as int, n + 1, count as int);
                }
                return None;
            },
        }
        n = n + 1;
    }
    Some(tokens)
}

proof fn lemma_bad_token(bytes: Seq<u8>, at: int, n: int, count: int)
    requires
        n <= count,
        tokens_at(bytes, at, n) is None,
    ensures
        tokens_at(bytes, at, count) is None,
    decreases count - n,
{
    if n < count {
        lemma_bad_token(bytes, at, n + 1, count);
    }
}

fn decode_hashes(bytes: &[u8], at: usize, count: usize) -> (hashes: Vec<u64>)
    requires
        at + 8 * count <= bytes@.len(),
    ensures
        hashes@ == hashes_at(bytes@, at as int, count as int),
{
    let size: usize = bytes.len();
    let mut hashes: Vec<u64> = Vec::new();
    let mut n: usize = 0;
    while n < count
        invariant
            size == bytes@.len(),
            at + 8 * count <= size,
            n <= count,
            hashes@ == hashes_at(bytes@, at as int, n as int),
        decreases count - n,
    {
        let position: usize = at + 8 * n;
        hashes.push(read_u64(bytes, position));
        n = n + 1;
        assert(hashes@ =~= hashes_at(bytes@, at as int, n as int));
    }
    hashes
}

fn copy_bytes(bytes: &[u8], start: usize, end: usize) -> (part: Vec<u8>)
    requires
        start <= end <= bytes@.len(),
    ensures
        part@ == bytes@.subrange(start as int, end as int),
{
    let mut part: Vec<u8> = Vec::new();
    let mut i: usize = start;
    while i < end
        invariant
            start <= i <= end <= bytes@.len(),
            part@ == bytes@.subrange(start as int, i as int),
        decreases end - i,
    {
        part.push(bytes[i]);
        i = i + 1;
        assert(part@ =~= bytes@.subrange(start as int, i as int));
    }
    part
}

/// Reads a cache entry; nothing where the bytes are not one.
pub fn decode_entry(bytes: &[u8]) -> (entry: Option<CacheEntry>)
    ensures
        match entry {
            Some(entry) => decoded(bytes@) == Some(entry.content()),
            None => decoded(bytes@) is None,
        },
{
    if bytes.len() < HEADER_BYTES || !has_magic(bytes) {
        return None;
    }
    let path_len: u32 = read_u32(bytes, 8);
    let count: u32 = read_u32(bytes, 12);
    let seconds: u64 = read_u64(bytes, 16);
    let nanos: u32 = read_u32(bytes, 24);
    let size: u64 = read_u64(bytes, 28);
    let hash: u64 = read_u64(bytes, 36);
    if nanos >= 1_000_000_000 || seconds > 0x7fff_ffff_ffff_ffff {
        return None;
    }
    let path_end: u64 = 44 + path_len as u64;
    let hashes_start: u64 = (path_end + 7) / 8 * 8;
    let tokens_start: u64 = hashes_start + 8 * count as u64;
    let end: u64 = tokens_start + 24 * count as u64;
    if end > bytes.len() as u64 {
        return None;
    }
    let path = match decode_text(copy_bytes(bytes, HEADER_BYTES, path_end as usize)) {
        Some(path) => path,
        None => {
            return None;
        },
    };
    let tokens = match decode_tokens(bytes, tokens_start as usize, count as usize) {
        Some(tokens) => tokens,
        None => {
            return None;
        },
    };
    let hashes = decode_hashes(bytes, hashes_start as usize, count as usize);
    Some(
        CacheEntry {
            path,
            modified: FileTime { seconds: seconds as i64, nanos },
            size,
            text_hash: hash,
            tokens,
            hashes,
        },
    )
}

/// The content can be told from its entry: tokens and hashes go together, every token is of a
/// known kind and its spare bytes are zero, the time has less than a second of nanoseconds, and
/// the counts fit in 32 bits.
pub open spec fn is_writable(content: EntryContent) -> bool {
    &&& content.tokens.len() == content.hashes.len()
    &&& content.tokens.len() <= u32::MAX
    &&& encode_utf8(content.path).len() <= u32::MAX
    &&& 0 <= content.modified.seconds
    &&& content.modified.nanos < 1_000_000_000
    &&& forall|i: int|
        0 <= i < content.tokens.len() ==> TokenKind::from_u8(
            (#[trigger] content.tokens[i]).kind,
        ) is Some && content.tokens[i]._pad@ == seq![0u8, 0u8]
}

proof fn lemma_hash_bytes(hashes: Seq<u64>, n: int)
    requires
        0 <= n <= hashes.len(),
    ensures
        hash_bytes(hashes, n).len() == 8 * n,
        forall|i: int|
            0 <= i < n ==> hash_bytes(hashes, n).subrange(8 * i, 8 * i + 8)
                == #[trigger] crate::bytes::le_u64(hashes[i]),
    decreases n,
{
    if n > 0 {
        lemma_hash_bytes(hashes, n - 1);
        let shorter = hash_bytes(hashes, n - 1);
        let whole = hash_bytes(hashes, n);
        assert forall|i: int| 0 <= i < n implies whole.subrange(8 * i, 8 * i + 8)
            == #[trigger] crate::bytes::le_u64(hashes[i]) by {
            if i < n - 1 {
                assert(whole.subrange(8 * i, 8 * i + 8) =~= shorter.subrange(8 * i, 8 * i + 8));
            } else {
                assert(whole.subrange(8 * i, 8 * i + 8) =~= crate::bytes::le_u64(hashes[i]));
            }
        }
    }
}

proof fn lemma_token_bytes(tokens: Seq<Token>, n: int)
    requires
        0 <= n <= tokens.len(),
    ensures
        all_token_bytes(tokens, n).len() == 24 * n,
        forall|i: int|
            0 <= i < n ==> all_token_bytes(tokens, n).subrange(24 * i, 24 * i + 24)
                == #[trigger] token_bytes(tokens[i]),
    decreases n,
{
    if n > 0 {
        lemma_token_bytes(tokens, n - 1);
        let shorter = all_token_bytes(tokens, n - 1);
        let whole = all_token_bytes(tokens, n);
        assert forall|i: int| 0 <= i < n implies whole.subrange(24 * i, 24 * i + 24)
            == #[trigger] token_bytes(tokens[i]) by {
            if i < n - 1 {
                assert(whole.subrange(24 * i, 24 * i + 24) =~= shorter.subrange(
                    24 * i,
                    24 * i + 24,
                ));
            } else {
                assert(whole.subrange(24 * i, 24 * i + 24) =~= token_bytes(tokens[i]));
            }
        }
    }
}

proof fn lemma_token_back(bytes: Seq<u8>, at: int, token: Token)
    requires
        0 <= at,
        at + 24 <= bytes.len(),
        bytes.subrange(at, at + 24) == token_bytes(token),
        TokenKind::from_u8(token.kind) is Some,
        token._pad@ == seq![0u8, 0u8],
    ensures
        token_at(bytes, at) == Some(token),
{
    let part = bytes.subrange(at, at + 24);
    assert(bytes.subrange(at, at + 4) =~= part.subrange(0, 4));
    assert(part.subrange(0, 4) =~= crate::bytes::le_u32(token.start));
    assert(bytes.subrange(at + 4, at + 8) =~= part.subrange(4, 8));
    assert(part.subrange(4, 8) =~= crate::bytes::le_u32(token.end));
    assert(bytes.subrange(at + 8, at + 12) =~= part.subrange(8, 12));
    assert(part.subrange(8, 12) =~= crate::bytes::le_u32(token.unit_end_of_start));
    assert(bytes.subrange(at + 12, at + 16) =~= part.subrange(12, 16));
    assert(part.subrange(12, 16) =~= crate::bytes::le_u32(token.unit_start_of_end));
    assert(bytes.subrange(at + 16, at + 20) =~= part.subrange(16, 20));
    assert(part.subrange(16, 20) =~= crate::bytes::le_u32(token.container_end_of_start));
    crate::bytes::read_u32_gives_back(bytes, at, token.start);
    crate::bytes::read_u32_gives_back(bytes, at + 4, token.end);
    crate::bytes::read_u32_gives_back(bytes, at + 8, token.unit_end_of_start);
    crate::bytes::read_u32_gives_back(bytes, at + 12, token.unit_start_of_end);
    crate::bytes::read_u32_gives_back(bytes, at + 16, token.container_end_of_start);
    assert(part[20] == bytes[at + 20] && part[21] == bytes[at + 21]);
    let back = token_at(bytes, at)->0;
    assert(back._pad@ =~= token._pad@);
    assert(back._pad =~= token._pad);
}

proof fn lemma_tokens_back(bytes: Seq<u8>, at: int, tokens: Seq<Token>, n: int)
    requires
        0 <= at,
        0 <= n <= tokens.len(),
        at + 24 * tokens.len() <= bytes.len(),
        bytes.subrange(at, at + 24 * tokens.len()) == all_token_bytes(tokens, tokens.len() as int),
        forall|i: int|
            0 <= i < tokens.len() ==> TokenKind::from_u8((#[trigger] tokens[i]).kind) is Some
                && tokens[i]._pad@ == seq![0u8, 0u8],
    ensures
        tokens_at(bytes, at, n) == Some(tokens.take(n)),
    decreases n,
{
    if n > 0 {
        lemma_tokens_back(bytes, at, tokens, n - 1);
        lemma_token_bytes(tokens, tokens.len() as int);
        let i = n - 1;
        let all = all_token_bytes(tokens, tokens.len() as int);
        assert(all.subrange(24 * i, 24 * i + 24) == token_bytes(tokens[i]));
        assert(bytes.subrange(at + 24 * i, at + 24 * i + 24) =~= bytes.subrange(
            at,
            at + 24 * tokens.len(),
        ).subrange(24 * i, 24 * i + 24));
        lemma_token_back(bytes, at + 24 * i, tokens[i]);
        assert(tokens.take(n) =~= tokens.take(i).push(tokens[i]));
    } else {
        assert(tokens.take(0) =~= Seq::empty());
    }
}

proof fn lemma_hashes_back(bytes: Seq<u8>, at: int, hashes: Seq<u64>)
    requires
        0 <= at,
        at + 8 * hashes.len() <= bytes.len(),
        bytes.subrange(at, at + 8 * hashes.len()) == hash_bytes(hashes, hashes.len() as int),
    ensures
        hashes_at(bytes, at, hashes.len() as int) == hashes,
{
    lemma_hash_bytes(hashes, hashes.len() as int);
    let all = hash_bytes(hashes, hashes.len() as int);
    assert forall|i: int| 0 <= i < hashes.len() implies crate::bytes::u64_at(bytes, at + 8 * i)
        == #[trigger] hashes[i] by {
        assert(all.subrange(8 * i, 8 * i + 8) == crate::bytes::le_u64(hashes[i]));
        assert(bytes.subrange(at + 8 * i, at + 8 * i + 8) =~= bytes.subrange(
            at,
            at + 8 * hashes.len(),
        ).subrange(8 * i, 8 * i + 8));
        crate::bytes::read_u64_gives_back(bytes, at + 8 * i, hashes[i]);
    }
    assert(hashes_at(bytes, at, hashes.len() as int) =~= hashes);
}

proof fn lemma_header_back(bytes: Seq<u8>, content: EntryContent)
    requires
        bytes.len() >= 44,
        bytes.take(44) == header_bytes(content),
    ensures
        bytes.take(8) == magic(),
        crate::bytes::u32_at(bytes, 8) == encode_utf8(content.path).len() as u32,
        crate::bytes::u32_at(bytes, 12) == content.tokens.len() as u32,
        crate::bytes::u64_at(bytes, 16) == content.modified.seconds as u64,
        crate::bytes::u32_at(bytes, 24) == content.modified.nanos,
        crate::bytes::u64_at(bytes, 28) == content.size,
        crate::bytes::u64_at(bytes, 36) == content.text_hash,
{
    let head = bytes.take(44);
    assert(bytes.take(8) =~= head.take(8));
    assert(head.take(8) =~= magic());
    let path_len = encode_utf8(content.path).len() as u32;
    let count = content.tokens.len() as u32;
    let seconds = content.modified.seconds as u64;
    assert(bytes.subrange(8, 12) =~= head.subrange(8, 12));
    assert(head.subrange(8, 12) =~= crate::bytes::le_u32(path_len));
    assert(bytes.subrange(12, 16) =~= head.subrange(12, 16));
    assert(head.subrange(12, 16) =~= crate::bytes::le_u32(count));
    assert(bytes.subrange(16, 24) =~= head.subrange(16, 24));
    assert(head.subrange(16, 24) =~= crate::bytes::le_u64(seconds));
    assert(bytes.subrange(24, 28) =~= head.subrange(24, 28));
    assert(head.subrange(24, 28) =~= crate::bytes::le_u32(content.modified.nanos));
    assert(bytes.subrange(28, 36) =~= head.subrange(28, 36));
    assert(head.subrange(28, 36) =~= crate::bytes::le_u64(content.size));
    assert(bytes.subrange(36, 44) =~= head.subrange(36, 44));
    assert(head.subrange(36, 44) =~= crate::bytes::le_u64(content.text_hash));
    crate::bytes::read_u32_gives_back(bytes, 8, path_len);
    crate::bytes::read_u32_gives_back(bytes, 12, count);
    crate::bytes::read_u64_gives_back(bytes, 16, seconds);
    crate::bytes::read_u32_gives_back(bytes, 24, content.modified.nanos);
    crate::bytes::read_u64_gives_back(bytes, 28, content.size);
    crate::bytes::read_u64_gives_back(bytes, 36, content.text_hash);
}

/// Where the parts of a written entry lie.
#[verifier::spinoff_prover]
#[verifier::rlimit(40)]
proof fn lemma_layout(content: EntryContent)
    requires
        is_writable(content),
    ensures
        ({
            let bytes = encoded(content);
            let path = encode_utf8(content.path);
            let path_end = 44 + path.len() as int;
            let start = aligned(path_end);
            let count = content.tokens.len() as int;
            &&& path_end <= start
            &&& bytes.len() == start + 8 * count + 24 * count
            &&& bytes.take(44) == header_bytes(content)
            &&& bytes.subrange(44, path_end) == path
            &&& bytes.subrange(start, start + 8 * count) == hash_bytes(content.hashes, count)
            &&& bytes.subrange(start + 8 * count, start + 8 * count + 24 * count)
                == all_token_bytes(content.tokens, count)
        }),
{
    let bytes = encoded(content);
    let path = encode_utf8(content.path);
    let path_end = 44 + path.len() as int;
    let start = aligned(path_end);
    let count = content.tokens.len() as int;
    lemma_hash_bytes(content.hashes, count);
    lemma_token_bytes(content.tokens, count);
    assert(header_bytes(content).len() == 44);
    assert(bytes.take(44) =~= header_bytes(content));
    assert(bytes.subrange(44, path_end) =~= path);
    assert(bytes.subrange(start, start + 8 * count) =~= hash_bytes(content.hashes, count));
    assert(bytes.subrange(start + 8 * count, start + 8 * count + 24 * count) =~= all_token_bytes(
        content.tokens,
        count,
    ));
}

/// Reading an entry gives back what was written.
#[verifier::spinoff_prover]
#[verifier::rlimit(40)]
pub proof fn entry_round_trips(content: EntryContent)
    requires
        is_writable(content),
    ensures
        decoded(encoded(content)) == Some(content),
{
    let bytes = encoded(content);
    let start = aligned(44 + encode_utf8(content.path).len() as int);
    let count = content.tokens.len() as int;
    lemma_layout(content);
    lemma_header_back(bytes, content);
    vstd::utf8::encode_utf8_valid_utf8(content.path);
    vstd::utf8::encode_utf8_decode_utf8(content.path);
    lemma_hashes_back(bytes, start, content.hashes);
    lemma_tokens_back(bytes, start + 8 * count, content.tokens, count);
    assert(content.tokens.take(count) =~= content.tokens);
}

/// A hexadecimal digit.
pub open spec fn hex_digit(value: u64) -> char {
    if value < 10 {
        (48 + value) as char
    } else {
        (87 + value) as char
    }
}

/// The sixteen hexadecimal digits of a number, the most significant first.
pub open spec fn hex_digits(key: u64) -> Seq<char> {
    Seq::new(16, |i: int| hex_digit((key >> ((60 - 4 * i) as u64)) & 15))
}

fn hex_chars(key: u64) -> (digits: Vec<char>)
    ensures
        digits@ == hex_digits(key),
{
    let mut digits: Vec<char> = Vec::new();
    let mut i: u64 = 0;
    while i < 16
        invariant
            i <= 16,
            digits@ == hex_digits(key).take(i as int),
        decreases 16 - i,
    {
        let shift: u64 = 60 - 4 * i;
        let value: u64 = (key >> shift) & 15;
        assert((key >> shift) & 15 <= 15) by (bit_vector);
        let digit: char = if value < 10 {
            (48 + value as u8) as char
        } else {
            (87 + value as u8) as char
        };
        digits.push(digit);
        i = i + 1;
        assert(digits@ =~= hex_digits(key).take(i as int));
    }
    assert(digits@ =~= hex_digits(key));
    digits
}

proof fn lemma_nibble(a: u64, b: u64, i: int)
    requires
        hex_digits(a) == hex_digits(b),
        0 <= i < 16,
    ensures
        (a >> ((60 - 4 * i) as u64)) & 15 == (b >> ((60 - 4 * i) as u64)) & 15,
{
    let shift = (60 - 4 * i) as u64;
    let x = (a >> shift) & 15;
    let y = (b >> shift) & 15;
    assert((a >> shift) & 15 <= 15 && (b >> shift) & 15 <= 15) by (bit_vector);
    assert(hex_digits(a)[i] == hex_digit(x));
    assert(hex_digits(b)[i] == hex_digit(y));
}

/// Different numbers have different digits.
pub proof fn hex_digits_tell_numbers_apart(a: u64, b: u64)
    requires
        hex_digits(a) == hex_digits(b),
    ensures
        a == b,
{
    lemma_nibble(a, b, 0);
    lemma_nibble(a, b, 1);
    lemma_nibble(a, b, 2);
    lemma_nibble(a, b, 3);
    lemma_nibble(a, b, 4);
    lemma_nibble(a, b, 5);
    lemma_nibble(a, b, 6);
    lemma_nibble(a, b, 7);
    lemma_nibble(a, b, 8);
    lemma_nibble(a, b, 9);
    lemma_nibble(a, b, 10);
    lemma_nibble(a, b, 11);
    lemma_nibble(a, b, 12);
    lemma_nibble(a, b, 13);
    lemma_nibble(a, b, 14);
    lemma_nibble(a, b, 15);
    assert(a == b) by (bit_vector)
        requires
            (a >> 60u64) & 15 == (b >> 60u64) & 15,
            (a >> 56u64) & 15 == (b >> 56u64) & 15,
            (a >> 52u64) & 15 == (b >> 52u64) & 15,
            (a >> 48u64) & 15 == (b >> 48u64) & 15,
            (a >> 44u64) & 15 == (b >> 44u64) & 15,
            (a >> 40u64) & 15 == (b >> 40u64) & 15,
            (a >> 36u64) & 15 == (b >> 36u64) & 15,
            (a >> 32u64) & 15 == (b >> 32u64) & 15,
            (a >> 28u64) & 15 == (b >> 28u64) & 15,
            (a >> 24u64) & 15 == (b >> 24u64) & 15,
            (a >> 20u64) & 15 == (b >> 20u64) & 15,
            (a >> 16u64) & 15 == (b >> 16u64) & 15,
            (a >> 12u64) & 15 == (b >> 12u64) & 15,
            (a >> 8u64) & 15 == (b >> 8u64) & 15,
            (a >> 4u64) & 15 == (b >> 4u64) & 15,
            (a >> 0u64) & 15 == (b >> 0u64) & 15,
    ;
}

/// The cache directory of a project.
pub fn dir_in(root: &str) -> (dir: String)
    ensures
        dir@ == crate::paths::joined(root@, CACHE_DIR@),
{
    join(root, CACHE_DIR)
}

/// The directory below `base` that is kept for `root`: named by a hash of the root.
pub open spec fn keyed_dir(base: Seq<char>, root: Seq<char>) -> Seq<char> {
    crate::paths::joined(base, hex_digits(crate::encode::xxh3(encode_utf8(root))))
}

/// The cache directory of `root` below the user's cache directory `base`.
pub fn user_cache_dir_in(base: &str, root: &str) -> (dir: String)
    ensures
        dir@ == keyed_dir(base@, root@),
{
    let name = string_of(&hex_chars(xxh3_64(root.as_bytes())));
    join(base, name.as_str())
}

/// The cache directory of `root` below the user's cache directory, where there is one.
pub fn user_cache_dir(root: &str, user_cache_root: Option<&str>) -> (dir: Option<String>)
    ensures
        match (dir, user_cache_root) {
            (Some(dir), Some(base)) => dir@ == keyed_dir(base@, root@),
            (None, None) => true,
            _ => false,
        },
{
    match user_cache_root {
        Some(base) => Some(user_cache_dir_in(base, root)),
        None => None,
    }
}

/// The cache directory of `root` for a location; nothing where it is the user's cache directory
/// and there is none.
pub fn dir_for(root: &str, location: CacheLocation, user_cache_root: Option<&str>) -> (dir: Option<
    String,
>)
    ensures
        match (location, user_cache_root) {
            (CacheLocation::Project, _) => dir is Some && (dir->0)@ == crate::paths::joined(
                root@,
                CACHE_DIR@,
            ),
            (CacheLocation::UserCache, Some(base)) => dir is Some && (dir->0)@ == keyed_dir(
                base@,
                root@,
            ),
            (CacheLocation::UserCache, None) => dir is None,
        },
{
    match location {
        CacheLocation::Project => Some(dir_in(root)),
        CacheLocation::UserCache => user_cache_dir(root, user_cache_root),
    }
}

/// The name of the entry of a path relative to the root: a hash of that path.
pub open spec fn entry_name(relative: Seq<char>) -> Seq<char> {
    hex_digits(crate::encode::xxh3(encode_utf8(relative))) + ".bin"@
}

/// Where the entry of `path` is kept in the cache directory `dir`, if `path` lies under `root`.
pub fn entry_path(dir: &str, root: &str, path: &str) -> (entry: Option<String>)
    ensures
        match (entry, crate::paths::relative_to(path@, root@)) {
            (Some(entry), Some(relative)) => entry@ == crate::paths::joined(
                dir@,
                entry_name(relative),
            ),
            (None, None) => true,
            _ => false,
        },
{
    match strip_prefix(path, root) {
        Some(relative) => {
            let mut name = hex_chars(xxh3_64(relative.as_str().as_bytes()));
            let mut suffix = chars_of(".bin");
            name.append(&mut suffix);
            Some(join(dir, string_of(&name).as_str()))
        },
        None => None,
    }
}

/// The entry of a file has the same name whatever root the file lies under.
pub proof fn entry_names_are_portable(root: Seq<char>, other: Seq<char>, part: Seq<char>)
    requires
        crate::paths::body(part) == part,
    ensures
        crate::paths::relative_to(crate::paths::joined(root, part), root) is Some,
        crate::paths::relative_to(crate::paths::joined(root, part), root)
            == crate::paths::relative_to(crate::paths::joined(other, part), other),
{
    crate::paths::joined_path_is_relative_again(root, part);
    crate::paths::joined_path_is_relative_again(other, part);
}

/// A lower-case hexadecimal digit.
pub open spec fn is_hex_digit(c: char) -> bool {
    '0' <= c <= '9' || 'a' <= c <= 'f'
}

proof fn lemma_hex_digit(key: u64, i: int)
    requires
        0 <= i < 16,
    ensures
        is_hex_digit(hex_digits(key)[i]),
{
    let shift = (60 - 4 * i) as u64;
    let value = (key >> shift) & 15;
    assert((key >> shift) & 15 <= 15) by (bit_vector);
    assert(hex_digits(key)[i] == hex_digit(value));
}

proof fn lemma_hex_name(key: u64)
    ensures
        hex_digits(key).len() == 16,
        forall|i: int| 0 <= i < 16 ==> is_hex_digit(#[trigger] hex_digits(key)[i]),
        crate::paths::is_name(hex_digits(key)),
{
    let name = hex_digits(key);
    assert forall|i: int| 0 <= i < 16 implies is_hex_digit(#[trigger] name[i]) by {
        lemma_hex_digit(key, i);
    }
    assert(!name.contains('/'));
    assert(name[0] != '.');
}

/// The user's cache directory for a root lies right below the base, under a name of sixteen
/// hexadecimal digits that depends on the root alone. Two roots share a directory exactly if they
/// have the same hash.
pub proof fn user_cache_dirs_are_keyed(base: Seq<char>, root: Seq<char>, other: Seq<char>)
    ensures
        keyed_dir(base, root) == crate::paths::joined(
            base,
            hex_digits(crate::encode::xxh3(encode_utf8(root))),
        ),
        hex_digits(crate::encode::xxh3(encode_utf8(root))).len() == 16,
        forall|i: int|
            0 <= i < 16 ==> is_hex_digit(
                #[trigger] hex_digits(crate::encode::xxh3(encode_utf8(root)))[i],
            ),
        crate::paths::parent_of(keyed_dir(base, root)) == Some(crate::paths::neat(base)),
        keyed_dir(base, root) == keyed_dir(base, other) <==> crate::encode::xxh3(
            encode_utf8(root),
        ) == crate::encode::xxh3(encode_utf8(other)),
{
    let a = crate::encode::xxh3(encode_utf8(root));
    let b = crate::encode::xxh3(encode_utf8(other));
    lemma_hex_name(a);
    lemma_hex_name(b);
    crate::paths::joined_name_lies_in_its_base(base, hex_digits(a));
    if keyed_dir(base, root) == keyed_dir(base, other) {
        lemma_joined_names(base, hex_digits(a), hex_digits(b));
        hex_digits_tell_numbers_apart(a, b);
    }
}

/// Names that are joined to one base can be told apart.
proof fn lemma_joined_names(base: Seq<char>, a: Seq<char>, b: Seq<char>)
    requires
        crate::paths::is_name(a),
        crate::paths::is_name(b),
        crate::paths::joined(base, a) == crate::paths::joined(base, b),
    ensures
        a == b,
{
    assert(a.contains(a[0]) && b.contains(b[0]));
    let front = if base.len() == 0 || base.last() == '/' {
        base
    } else {
        base.push('/')
    };
    assert(crate::paths::joined(base, a) =~= front + a);
    assert(crate::paths::joined(base, b) =~= front + b);
    assert(a =~= (front + a).skip(front.len() as int));
    assert(b =~= (front + b).skip(front.len() as int));
}

/// The entry of a file lies right in the cache directory, under a name of sixteen hexadecimal
/// digits and `.bin` that depends on the path relative to the root alone. Two paths share an entry
/// exactly if they have the same hash.
pub proof fn entries_are_keyed(dir: Seq<char>, relative: Seq<char>, other: Seq<char>)
    ensures
        entry_name(relative).len() == 20,
        forall|i: int| 0 <= i < 16 ==> is_hex_digit(#[trigger] entry_name(relative)[i]),
        entry_name(relative).skip(16) == ".bin"@,
        crate::paths::parent_of(crate::paths::joined(dir, entry_name(relative))) == Some(
            crate::paths::neat(dir),
        ),
        crate::paths::joined(dir, entry_name(relative)) == crate::paths::joined(
            dir,
            entry_name(other),
        ) <==> crate::encode::xxh3(encode_utf8(relative)) == crate::encode::xxh3(
            encode_utf8(other),
        ),
{
    let a = crate::encode::xxh3(encode_utf8(relative));
    let b = crate::encode::xxh3(encode_utf8(other));
    lemma_entry_name(relative);
    lemma_entry_name(other);
    crate::paths::joined_name_lies_in_its_base(dir, entry_name(relative));
    if crate::paths::joined(dir, entry_name(relative)) == crate::paths::joined(
        dir,
        entry_name(other),
    ) {
        lemma_joined_names(dir, entry_name(relative), entry_name(other));
        assert(hex_digits(a) =~= entry_name(relative).take(16));
        assert(hex_digits(b) =~= entry_name(other).take(16));
        hex_digits_tell_numbers_apart(a, b);
    }
}

proof fn lemma_entry_name(relative: Seq<char>)
    ensures
        entry_name(relative).len() == 20,
        forall|i: int| 0 <= i < 16 ==> is_hex_digit(#[trigger] entry_name(relative)[i]),
        entry_name(relative).skip(16) == ".bin"@,
        crate::paths::is_name(entry_name(relative)),
{
    reveal_strlit(".bin");
    let key = crate::encode::xxh3(encode_utf8(relative));
    let name = entry_name(relative);
    lemma_hex_name(key);
    assert(name.skip(16) =~= ".bin"@);
    assert forall|i: int| 0 <= i < 16 implies is_hex_digit(#[trigger] name[i]) by {
        assert(name[i] == hex_digits(key)[i]);
    }
    assert forall|i: int| 0 <= i < name.len() implies #[trigger] name[i] != '/' by {
        if i < 16 {
            assert(is_hex_digit(name[i]));
        } else {
            assert(name[i] == ".bin"@[i - 16]);
        }
    }
}

/// A token that is written is read back, if its kind is known and its spare bytes are zero. Bytes
/// are refused exactly where they are too few or name no kind, and only the first 22 of them are
/// looked at.
pub proof fn token_round_trips(token: Token, raw: Seq<u8>, other: Seq<u8>)
    ensures
        token.kind <= 2 && token._pad@ == seq![0u8, 0u8] ==> token_of(
            all_token_bytes(seq![token], 1),
        ) == Some(token),
        token_of(raw) is Some <==> raw.len() >= 22 && raw[20] <= 2,
        raw.len() >= 22 && other.len() >= 22 && raw.take(22) == other.take(22) ==> token_of(raw)
            == token_of(other),
{
    let bytes = all_token_bytes(seq![token], 1);
    assert(bytes =~= token_bytes(token)) by {
        assert(all_token_bytes(seq![token], 0) =~= Seq::empty());
    }
    if token.kind <= 2 && token._pad@ == seq![0u8, 0u8] {
        assert(bytes.subrange(0, 24) =~= bytes);
        lemma_token_back(bytes, 0, token);
    }
    if raw.len() >= 22 && other.len() >= 22 && raw.take(22) == other.take(22) {
        assert forall|i: int| 0 <= i < 22 implies #[trigger] raw[i] == other[i] by {
            assert(raw[i] == raw.take(22)[i]);
            assert(other[i] == other.take(22)[i]);
        }
        assert(crate::bytes::u32_at(raw, 0) == crate::bytes::u32_at(other, 0));
        assert(crate::bytes::u32_at(raw, 4) == crate::bytes::u32_at(other, 4));
        assert(crate::bytes::u32_at(raw, 8) == crate::bytes::u32_at(other, 8));
        assert(crate::bytes::u32_at(raw, 12) == crate::bytes::u32_at(other, 12));
        assert(crate::bytes::u32_at(raw, 16) == crate::bytes::u32_at(other, 16));
    }
}

} // verus!
